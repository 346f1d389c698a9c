//! Fixed-point probabilities and the two semiring operations on them.
use vstd::prelude::*;

verus! {

/// The fixed-point value of probability 1: a weight `w` stands for `w / ONE`.
pub const ONE: u64 = 1_000_000_000_000_000_000;

/// A weight is a probability: at most `ONE`.
pub open spec fn is_prob(w: nat) -> bool {
    w <= ONE as nat
}

/// Sum of two probabilities, capped at 1 (a sum above 1 only arises where
/// the weights leaving a state add up to more than 1).
pub open spec fn wadd(a: nat, b: nat) -> nat {
    if a + b > ONE as nat {
        ONE as nat
    } else {
        a + b
    }
}

/// Product of two probabilities, rounded down to the fixed-point grid.
pub open spec fn wmul(a: nat, b: nat) -> nat {
    (a * b) / (ONE as nat)
}

/// The product of two probabilities never exceeds either factor.
pub proof fn lemma_wmul_bounded(a: nat, b: nat)
    requires
        is_prob(b),
    ensures
        wmul(a, b) <= a,
{
    let one = ONE as nat;
    assert(a * b <= a * one) by (nonlinear_arith)
        requires
            b <= one,
    ;
    assert((a * b) / one <= (a * one) / one) by (nonlinear_arith)
        requires
            a * b <= a * one,
            one > 0,
    ;
    assert((a * one) / one == a) by (nonlinear_arith)
        requires
            one > 0,
    ;
}

/// The product is monotone in both factors.
pub proof fn lemma_wmul_monotone(a: nat, b: nat, c: nat, d: nat)
    requires
        a <= c,
        b <= d,
    ensures
        wmul(a, b) <= wmul(c, d),
{
    let one = ONE as nat;
    assert(a * b <= c * d) by (nonlinear_arith)
        requires
            a <= c,
            b <= d,
    ;
    assert((a * b) / one <= (c * d) / one) by (nonlinear_arith)
        requires
            a * b <= c * d,
            one > 0,
    ;
}

/// Multiplying by `ONE` changes nothing.
pub proof fn lemma_wmul_one(a: nat)
    ensures
        wmul(a, ONE as nat) == a,
{
    let one = ONE as nat;
    assert((a * one) / one == a) by (nonlinear_arith)
        requires
            one > 0,
    ;
}

/// Multiplies two probabilities (rounding down).
pub fn prob_mul(a: u64, b: u64) -> (r: u64)
    requires
        is_prob(a as nat),
        is_prob(b as nat),
    ensures
        r as nat == wmul(a as nat, b as nat),
        r <= a,
        r <= b,
{
    proof {
        lemma_wmul_bounded(a as nat, b as nat);
        lemma_wmul_bounded(b as nat, a as nat);
        assert(a as nat * b as nat == b as nat * a as nat) by (nonlinear_arith);
    }
    let p: u128 = (a as u128) * (b as u128);
    (p / (ONE as u128)) as u64
}

/// Adds two probabilities (capped at `ONE`).
pub fn prob_add(a: u64, b: u64) -> (r: u64)
    requires
        is_prob(a as nat),
        is_prob(b as nat),
    ensures
        r as nat == wadd(a as nat, b as nat),
{
    if a + b > ONE {
        ONE
    } else {
        a + b
    }
}

/// The smaller of two probabilities.
pub open spec fn wmin(a: nat, b: nat) -> nat {
    if a <= b {
        a
    } else {
        b
    }
}

} // verus!
