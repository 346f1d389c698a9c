//! The text form of an automaton: one declaration per line,
//! `root: <state> # <probability>` and
//! `transition: <state> -> <symbol>(<state>, ...) # <probability>`,
//! with `%` starting a comment.
use crate::pta::{acceptable, mentions_state, root_weight_from, PtaError, PTA};
use crate::transition::{numbers_of, Transition};
use crate::weight::ONE;
use vstd::prelude::*;

verus! {

/// A decimal digit.
pub open spec fn is_digit(c: char) -> bool {
    '0' <= c <= '9'
}

/// The value of a decimal digit.
pub open spec fn digit_value(c: char) -> nat {
    (c as nat - '0' as nat) as nat
}

/// The value of a run of decimal digits, most significant first.
pub open spec fn digits_value(d: Seq<char>) -> nat
    decreases d.len(),
{
    if d.len() == 0 {
        0
    } else {
        digits_value(d.drop_last()) * 10 + digit_value(d.last())
    }
}

/// 10 to the power `n`.
pub open spec fn pow10(n: nat) -> nat
    decreases n,
{
    if n == 0 {
        1
    } else {
        10 * pow10((n - 1) as nat)
    }
}

/// All characters are digits.
pub open spec fn all_digits(d: Seq<char>) -> bool {
    forall|i: int| 0 <= i < d.len() ==> is_digit(#[trigger] d[i])
}

/// The number of fraction digits a weight keeps.
pub const FRACTION_DIGITS: usize = 18;

/// The fixed-point value of the decimal `int.frac` (fraction digits beyond
/// the eighteenth dropped), where the integer part is 0 or 1.
pub open spec fn decimal_value(int_part: Seq<char>, frac: Seq<char>) -> Option<nat> {
    if int_part.len() == 0 || !all_digits(int_part) || !all_digits(frac) || digits_value(int_part) > 1 {
        None
    } else {
        let kept = if frac.len() > 18 { frac.subrange(0, 18) } else { frac };
        Some(digits_value(int_part) * ONE as nat + digits_value(kept) * pow10((18 - kept.len()) as nat))
    }
}

/// Index of the first `.` in `s` from `i` on (`s.len()` when there is none).
pub open spec fn first_dot(s: Seq<char>, i: int) -> int
    decreases s.len() - i,
{
    if i < 0 || i >= s.len() {
        s.len() as int
    } else if s[i] == '.' {
        i
    } else {
        first_dot(s, i + 1)
    }
}

/// The value of a weight written `int` or `int.frac`.
pub open spec fn weight_value(s: Seq<char>) -> Option<nat> {
    let d = first_dot(s, 0);
    if d < s.len() {
        decimal_value(s.subrange(0, d), s.subrange(d + 1, s.len() as int))
    } else {
        decimal_value(s, Seq::empty())
    }
}

proof fn lemma_digits_value_bound(d: Seq<char>)
    requires
        all_digits(d),
    ensures
        digits_value(d) < pow10(d.len()),
    decreases d.len(),
{
    if d.len() > 0 {
        assert(all_digits(d.drop_last()));
        lemma_digits_value_bound(d.drop_last());
        assert(is_digit(d[d.len() - 1]));
    }
}

proof fn lemma_pow10_18()
    ensures
        pow10(18) == ONE as nat,
{
    reveal_with_fuel(pow10, 19);
}

proof fn lemma_pow10_mono(a: nat, b: nat)
    requires
        a <= b,
    ensures
        pow10(a) <= pow10(b),
        pow10(a) >= 1,
    decreases b,
{
    if a < b {
        lemma_pow10_mono(a, (b - 1) as nat);
    } else if a > 0 {
        lemma_pow10_mono((a - 1) as nat, (a - 1) as nat);
    }
}

/// The fixed-point value of `s[lo..hi]` as a weight, if it is one.
pub fn parse_weight(s: &Vec<char>, lo: usize, hi: usize) -> (r: Option<u64>)
    requires
        lo <= hi <= s@.len(),
    ensures
        r matches Some(w) ==> weight_value(s@.subrange(lo as int, hi as int)) == Some(w as nat),
        r is None ==> weight_value(s@.subrange(lo as int, hi as int)) is None,
{
    let ghost t = s@.subrange(lo as int, hi as int);
    // find the point
    let mut dot: usize = lo;
    while dot < hi && s[dot] != '.'
        invariant
            lo <= dot <= hi <= s@.len(),
            t == s@.subrange(lo as int, hi as int),
            first_dot(t, 0) == first_dot(t, dot - lo),
        decreases hi - dot,
    {
        dot = dot + 1;
    }
    let frac_lo: usize = if dot < hi { dot + 1 } else { hi };
    let ghost int_part = s@.subrange(lo as int, dot as int);
    let ghost frac = s@.subrange(frac_lo as int, hi as int);
    proof {
        if dot < hi {
            assert(t[dot - lo] == '.');
            assert(int_part =~= t.subrange(0, dot - lo));
            assert(frac =~= t.subrange(dot - lo + 1, t.len() as int));
        } else {
            assert(frac =~= Seq::<char>::empty());
            assert(int_part =~= t);
        }
        assert(weight_value(t) == decimal_value(int_part, frac));
    }
    if dot == lo {
        return None;
    }
    // the integer part, counted up to 2
    let mut int_value: u64 = 0;
    let mut k: usize = lo;
    while k < dot
        invariant
            lo <= k <= dot <= hi <= s@.len(),
            int_part == s@.subrange(lo as int, dot as int),
            weight_value(s@.subrange(lo as int, hi as int)) == decimal_value(int_part, frac),
            all_digits(s@.subrange(lo as int, k as int)),
            int_value as nat == if digits_value(s@.subrange(lo as int, k as int)) > 2 { 2 } else { digits_value(s@.subrange(lo as int, k as int)) },
        decreases dot - k,
    {
        let c = s[k];
        proof {
            assert(int_part[k - lo] == c);
            assert(s@.subrange(lo as int, k + 1).drop_last() =~= s@.subrange(lo as int, k as int));
        }
        if !('0' <= c && c <= '9') {
            proof {
                assert(!is_digit(int_part[k - lo]));
            }
            return None;
        }
        let v = int_value * 10 + (c as u64 - '0' as u64);
        int_value = if v > 2 { 2 } else { v };
        proof {
            assert forall|i: int| 0 <= i < k + 1 - lo implies is_digit(#[trigger] s@.subrange(lo as int, k + 1)[i]) by {
                if i < k - lo {
                    assert(s@.subrange(lo as int, k + 1)[i] == s@.subrange(lo as int, k as int)[i]);
                }
            }
        }
        k = k + 1;
    }
    if int_value > 1 {
        return None;
    }
    proof {
        assert(int_part =~= s@.subrange(lo as int, dot as int));
    }
    // the fraction, up to eighteen digits
    let keep_hi: usize = if hi - frac_lo > FRACTION_DIGITS { frac_lo + FRACTION_DIGITS } else { hi };
    let ghost kept = s@.subrange(frac_lo as int, keep_hi as int);
    if !all_digits_exec(s, frac_lo, hi) {
        return None;
    }
    let mut frac_value: u64 = 0;
    let mut k: usize = frac_lo;
    while k < keep_hi
        invariant
            frac_lo <= k <= keep_hi <= hi <= s@.len(),
            keep_hi - frac_lo <= 18,
            all_digits(s@.subrange(frac_lo as int, hi as int)),
            frac_value == digits_value(s@.subrange(frac_lo as int, k as int)),
            frac_value < pow10((k - frac_lo) as nat),
        decreases keep_hi - k,
    {
        let c = s[k];
        proof {
            assert(s@.subrange(frac_lo as int, hi as int)[k - frac_lo] == c);
            assert(s@.subrange(frac_lo as int, k + 1).drop_last() =~= s@.subrange(frac_lo as int, k as int));
            lemma_pow10_mono((k - frac_lo) as nat, 17);
            lemma_pow10_18();
            assert(pow10((k + 1 - frac_lo) as nat) == 10 * pow10((k - frac_lo) as nat));
        }
        frac_value = frac_value * 10 + (c as u64 - '0' as u64);
        k = k + 1;
    }
    let n: usize = keep_hi - frac_lo;
    let mut scale: u64 = 1;
    let mut m: usize = n;
    while m < 18
        invariant
            n <= m <= 18,
            scale as nat == pow10((m - n) as nat),
            scale >= 1,
        decreases 18 - m,
    {
        proof {
            lemma_pow10_mono((m - n) as nat, 17);
            lemma_pow10_18();
        }
        scale = scale * 10;
        m = m + 1;
    }
    proof {
        let n = (keep_hi - frac_lo) as nat;
        lemma_pow10_sum(n, (18 - n) as nat);
        lemma_pow10_18();
        assert(frac_value * scale < pow10(18)) by (nonlinear_arith)
            requires
                frac_value < pow10(n),
                scale == pow10((18 - n) as nat),
                scale >= 1,
                pow10(n) * pow10((18 - n) as nat) == pow10(18),
        ;
        if frac.len() > 18 {
            assert(kept =~= frac.subrange(0, 18));
        } else {
            assert(kept =~= frac);
        }
    }
    Some(int_value * ONE + frac_value * scale)
}

/// Whether `s[lo..hi]` holds digits only.
fn all_digits_exec(s: &Vec<char>, lo: usize, hi: usize) -> (r: bool)
    requires
        lo <= hi <= s@.len(),
    ensures
        r == all_digits(s@.subrange(lo as int, hi as int)),
{
    let mut k: usize = lo;
    while k < hi
        invariant
            lo <= k <= hi <= s@.len(),
            forall|i: int| lo <= i < k ==> is_digit(#[trigger] s@[i]),
        decreases hi - k,
    {
        if !('0' <= s[k] && s[k] <= '9') {
            proof {
                assert(s@.subrange(lo as int, hi as int)[k - lo] == s@[k as int]);
            }
            return false;
        }
        k = k + 1;
    }
    proof {
        assert forall|i: int| 0 <= i < hi - lo implies is_digit(#[trigger] s@.subrange(lo as int, hi as int)[i]) by {
            assert(s@.subrange(lo as int, hi as int)[i] == s@[lo + i]);
        }
    }
    true
}

/// Powers of ten multiply by adding exponents.
proof fn lemma_pow10_sum(a: nat, b: nat)
    ensures
        pow10(a) * pow10(b) == pow10(a + b),
    decreases a,
{
    if a == 0 {
        assert(pow10(0) == 1);
    } else {
        lemma_pow10_sum((a - 1) as nat, b);
        assert(((a - 1) as nat + b) as nat == (a + b - 1) as nat);
        assert(pow10(a + b) == 10 * pow10((a + b - 1) as nat));
        assert(pow10(a) * pow10(b) == 10 * (pow10((a - 1) as nat) * pow10(b))) by (nonlinear_arith)
            requires
                pow10(a) == 10 * pow10((a - 1) as nat),
        ;
    }
}

/// A longer run of digits is worth at least as much as its start.
proof fn lemma_digits_prefix_grows(d: Seq<char>, n: int)
    requires
        0 <= n <= d.len(),
        all_digits(d.subrange(0, n)),
    ensures
        all_digits(d) ==> digits_value(d) >= digits_value(d.subrange(0, n)),
    decreases d.len(),
{
    if all_digits(d) && n < d.len() {
        assert(all_digits(d.drop_last()));
        assert(d.drop_last().subrange(0, n) =~= d.subrange(0, n));
        lemma_digits_prefix_grows(d.drop_last(), n);
    } else if n == d.len() {
        assert(d.subrange(0, n) =~= d);
    }
}

/// The characters of a string.
pub fn chars_of(s: &str) -> (r: Vec<char>)
    ensures
        r@ == s@,
{
    let mut v: Vec<char> = Vec::new();
    for c in it: s.chars()
        invariant
            it.seq() == s@,
            v@ == s@.take(it.index() as int),
    {
        v.push(c);
        proof {
            assert(v@ =~= s@.take(it.index() as int + 1));
        }
    }
    proof {
        assert(v@ =~= s@);
    }
    v
}

/// Relies on `String::from_iter`: the string of the given characters.
#[verifier::external_body]
pub(crate) fn string_of(v: Vec<char>) -> (r: String)
    ensures
        r@ == v@,
{
    String::from_iter(v)
}

/// Whether `s` holds `pat` from position `i` on.
pub fn holds_at(s: &Vec<char>, i: usize, pat: &Vec<char>) -> (r: bool)
    requires
        i <= s@.len(),
    ensures
        r == (i + pat@.len() <= s@.len() && s@.subrange(i as int, i + pat@.len()) == pat@),
{
    let n = s.len();
    if pat.len() > n - i {
        return false;
    }
    let mut k: usize = 0;
    while k < pat.len()
        invariant
            n == s@.len(),
            i <= s@.len(),
            i + pat@.len() <= s@.len(),
            k <= pat@.len(),
            forall|m: int| 0 <= m < k ==> s@[i + m] == pat@[m],
        decreases pat@.len() - k,
    {
        if s[i + k] != pat[k] {
            proof {
                assert(s@.subrange(i as int, i + pat@.len())[k as int] == s@[i + k]);
            }
            return false;
        }
        k = k + 1;
    }
    proof {
        assert(s@.subrange(i as int, i + pat@.len()) =~= pat@);
    }
    true
}

/// A blank: space or tab.
pub open spec fn is_blank(c: char) -> bool {
    c == ' ' || c == '\t'
}

/// The first position from `i` on that holds no blank.
pub open spec fn blanks_end(s: Seq<char>, i: int) -> int
    decreases s.len() - i,
{
    if 0 <= i < s.len() && is_blank(s[i]) {
        blanks_end(s, i + 1)
    } else {
        i
    }
}

/// The first position from `i` on that holds no blank.
pub fn skip_blanks(s: &Vec<char>, i: usize) -> (r: usize)
    requires
        i <= s@.len(),
    ensures
        r as int == blanks_end(s@, i as int),
        i <= r <= s@.len(),
        forall|k: int| i <= k < r ==> is_blank(#[trigger] s@[k]),
        r < s@.len() ==> !is_blank(s@[r as int]),
{
    let mut k = i;
    while k < s.len() && (s[k] == ' ' || s[k] == '\t')
        invariant
            i <= k <= s@.len(),
            forall|m: int| i <= m < k ==> is_blank(#[trigger] s@[m]),
            blanks_end(s@, i as int) == blanks_end(s@, k as int),
        decreases s@.len() - k,
    {
        k = k + 1;
    }
    k
}

/// A character that ends a token written without quotes.
pub open spec fn ends_token(c: char) -> bool {
    c == ' ' || c == '\\' || c == '"' || c == '-' || c == '→' || c == ',' || c == ';' || c == '('
        || c == ')' || c == ']' || c == '%' || c == '#' || c == '\t' || c == '\n' || c == '\r'
}

/// The first position from `i` on that ends a token written without quotes.
pub open spec fn plain_end(s: Seq<char>, i: int) -> int
    decreases s.len() - i,
{
    if 0 <= i < s.len() && !ends_token(s[i]) {
        plain_end(s, i + 1)
    } else {
        i
    }
}

/// The position of the `"` that closes a quoted token, scanning from `k`:
/// `\\` and `\"` are skipped as pairs.
pub open spec fn quote_end(s: Seq<char>, k: int) -> int
    decreases s.len() - k,
{
    if k < 0 || k >= s.len() || s[k] == '"' {
        k
    } else if s[k] == '\\' && k + 1 < s.len() && (s[k + 1] == '\\' || s[k + 1] == '"') {
        quote_end(s, k + 2)
    } else {
        quote_end(s, k + 1)
    }
}

/// The token at position `i` and the position after it.
pub open spec fn token(s: Seq<char>, i: int) -> Option<(Seq<char>, int)> {
    if 0 <= i < s.len() && s[i] == '"' {
        let k = quote_end(s, i + 1);
        if k >= s.len() {
            None
        } else {
            Some((s.subrange(i + 1, k), k + 1))
        }
    } else {
        let k = plain_end(s, i);
        if k <= i {
            None
        } else {
            Some((s.subrange(i, k), k))
        }
    }
}

/// A token written without quotes: `s[i..j]`, at least one character, none
/// of which ends a token, followed by the end or by a character that does.
pub open spec fn plain_token_at(s: Seq<char>, i: int, j: int) -> bool {
    &&& 0 <= i < j <= s.len()
    &&& forall|k: int| i <= k < j ==> !ends_token(#[trigger] s[k])
    &&& (j == s.len() || ends_token(s[j]))
}

/// A token in double quotes: `s[i..j]` begins and ends with `"`.
pub open spec fn quoted_token_at(s: Seq<char>, i: int, j: int) -> bool {
    &&& 0 <= i && i + 2 <= j <= s.len()
    &&& s[i] == '"'
    &&& s[j - 1] == '"'
}

/// A token from `i` on: either characters up to one that ends a token (at
/// least one), or a text in double quotes in which `\\` and `\"` stand for
/// themselves; the token's text, as written between the quotes, and the
/// position after it.
pub fn parse_token(s: &Vec<char>, i: usize) -> (r: Option<(String, usize)>)
    requires
        i <= s@.len(),
    ensures
        r matches Some((t, j)) ==> i < j <= s@.len() && token(s@, i as int) == Some((t@, j as int)) && (
            (plain_token_at(s@, i as int, j as int) && t@ == s@.subrange(i as int, j as int))
            || (quoted_token_at(s@, i as int, j as int) && t@ == s@.subrange(i + 1, j - 1))),
        r is None ==> token(s@, i as int) is None,
{
    if i < s.len() && s[i] == '"' {
        let mut k = i + 1;
        while k < s.len() && s[k] != '"'
            invariant
                i < k <= s@.len(),
                quote_end(s@, i + 1) == quote_end(s@, k as int),
            decreases s@.len() - k,
        {
            if s[k] == '\\' && k + 1 < s.len() && (s[k + 1] == '\\' || s[k + 1] == '"') {
                k = k + 2;
            } else {
                k = k + 1;
            }
        }
        if k >= s.len() {
            return None;
        }
        let tok = string_of(slice_of(s, i + 1, k));
        Some((tok, k + 1))
    } else {
        let mut k = i;
        while k < s.len() && !(s[k] == ' ' || s[k] == '\\' || s[k] == '"' || s[k] == '-' || s[k] == '→' || s[k] == ','
            || s[k] == ';' || s[k] == '(' || s[k] == ')' || s[k] == ']' || s[k] == '%' || s[k] == '#' || s[k] == '\t'
            || s[k] == '\n' || s[k] == '\r')
            invariant
                i <= k <= s@.len(),
                forall|m: int| i <= m < k ==> !ends_token(#[trigger] s@[m]),
                plain_end(s@, i as int) == plain_end(s@, k as int),
            decreases s@.len() - k,
        {
            k = k + 1;
        }
        if k == i {
            return None;
        }
        Some((string_of(slice_of(s, i, k)), k))
    }
}

/// `s[lo..hi]`.
pub fn slice_of(s: &Vec<char>, lo: usize, hi: usize) -> (r: Vec<char>)
    requires
        lo <= hi <= s@.len(),
    ensures
        r@ == s@.subrange(lo as int, hi as int),
{
    let mut v: Vec<char> = Vec::new();
    let mut k = lo;
    while k < hi
        invariant
            lo <= k <= hi <= s@.len(),
            v@ == s@.subrange(lo as int, k as int),
        decreases hi - k,
    {
        v.push(s[k]);
        k = k + 1;
        proof {
            assert(v@ =~= s@.subrange(lo as int, k as int));
        }
    }
    v
}

/// The first position from `i` on that holds a blank, a line break or a
/// carriage return.
pub open spec fn weight_end(s: Seq<char>, i: int) -> int
    decreases s.len() - i,
{
    if 0 <= i < s.len() && !(s[i] == ' ' || s[i] == '\n' || s[i] == '\t' || s[i] == '\r') {
        weight_end(s, i + 1)
    } else {
        i
    }
}

/// The weight of `# <weight>` at position `i`: `#`, blanks, then the weight
/// up to a blank or the end.
pub open spec fn weight_annotation(s: Seq<char>, i: int) -> Option<nat> {
    if 0 <= i < s.len() && s[i] == '#' {
        let lo = blanks_end(s, i + 1);
        weight_value(s.subrange(lo, weight_end(s, lo)))
    } else {
        None
    }
}

/// `# <weight>` from `i` on: the weight, written up to a blank or the end.
fn parse_weight_annotation(s: &Vec<char>, i: usize) -> (r: Option<u64>)
    requires
        i <= s@.len(),
    ensures
        r matches Some(w) ==> weight_annotation(s@, i as int) == Some(w as nat),
        r is None ==> weight_annotation(s@, i as int) is None,
{
    if !(i < s.len() && s[i] == '#') {
        return None;
    }
    let lo = skip_blanks(s, i + 1);
    let mut hi = lo;
    while hi < s.len() && !(s[hi] == ' ' || s[hi] == '\n' || s[hi] == '\t' || s[hi] == '\r')
        invariant
            lo <= hi <= s@.len(),
            weight_end(s@, lo as int) == weight_end(s@, hi as int),
        decreases s@.len() - hi,
    {
        hi = hi + 1;
    }
    parse_weight(s, lo, hi)
}

/// The state and weight of a line `root: <state> # <weight>` read from
/// position `i`.
pub open spec fn root_line(s: Seq<char>, i: int) -> Option<(Seq<char>, nat)> {
    if !(0 <= i && i + "root:"@.len() <= s.len() && s.subrange(i, i + "root:"@.len()) == "root:"@) {
        None
    } else {
        match token(s, blanks_end(s, i + "root:"@.len())) {
            None => None,
            Some((q, k)) => match weight_annotation(s, blanks_end(s, k)) {
                None => None,
                Some(w) => Some((q, w)),
            },
        }
    }
}

/// A line `root: <state> # <weight>` (from `i` on, blanks skipped).
pub fn parse_root_line(s: &Vec<char>, i: usize) -> (r: Option<(String, u64)>)
    requires
        i <= s@.len(),
    ensures
        r matches Some((q, w)) ==> root_line(s@, i as int) == Some((q@, w as nat)),
        r is None ==> root_line(s@, i as int) is None,
{
    let tag = chars_of("root:");
    if !holds_at(s, i, &tag) {
        return None;
    }
    let n = s.len();
    let k = skip_blanks(s, i + tag.len());
    let (q, k) = parse_token(s, k)?;
    let k = skip_blanks(s, k);
    let w = parse_weight_annotation(s, k)?;
    Some((q, w))
}

/// A transition as written: source, symbol, targets and weight.
pub struct TransitionText {
    pub source: Seq<char>,
    pub symbol: Seq<char>,
    pub targets: Seq<Seq<char>>,
    pub weight: nat,
}

/// The target states written from position `k` on, after `acc`, up to the
/// closing `)`: each an optional `,`, blanks, a token and blanks. The
/// targets and the position of the `)`.
pub open spec fn targets_from(s: Seq<char>, k: int, acc: Seq<Seq<char>>) -> Option<(Seq<Seq<char>>, int)>
    decreases s.len() - k,
{
    if k < 0 || k >= s.len() {
        None
    } else if s[k] == ')' {
        Some((acc, k))
    } else {
        let m0 = if s[k] == ',' { k + 1 } else { k };
        match token(s, blanks_end(s, m0)) {
            None => None,
            Some((q, m)) => {
                let next = blanks_end(s, m);
                if k < next <= s.len() {
                    targets_from(s, next, acc.push(q))
                } else {
                    None
                }
            },
        }
    }
}

/// The position after the arrow `->` or `→` at `k`, if one is there.
pub open spec fn arrow_end(s: Seq<char>, k: int) -> Option<int> {
    if 0 <= k && k + "->"@.len() <= s.len() && s.subrange(k, k + "->"@.len()) == "->"@ {
        Some(k + "->"@.len())
    } else if 0 <= k && k + "→"@.len() <= s.len() && s.subrange(k, k + "→"@.len()) == "→"@ {
        Some(k + "→"@.len())
    } else {
        None
    }
}

/// The transition of a line `transition: <state> -> <symbol>(<state>, ...) # <weight>`
/// read from position `i`.
pub open spec fn transition_line(s: Seq<char>, i: int) -> Option<TransitionText> {
    if !(0 <= i && i + "transition:"@.len() <= s.len() && s.subrange(i, i + "transition:"@.len()) == "transition:"@) {
        None
    } else {
        match token(s, blanks_end(s, i + "transition:"@.len())) {
            None => None,
            Some((source, k2)) => match arrow_end(s, blanks_end(s, k2)) {
                None => None,
                Some(k4) => match token(s, blanks_end(s, k4)) {
                    None => None,
                    Some((symbol, k5)) => {
                        let k6 = blanks_end(s, k5);
                        if !(0 <= k6 < s.len() && s[k6] == '(') {
                            None
                        } else {
                            transition_rest(s, source, symbol, blanks_end(s, k6 + 1))
                        }
                    },
                },
            },
        }
    }
}

/// The transition whose target list starts at `k0`, after its `(`.
pub open spec fn transition_rest(s: Seq<char>, source: Seq<char>, symbol: Seq<char>, k0: int) -> Option<TransitionText> {
    match targets_from(s, k0, Seq::empty()) {
        None => None,
        Some((targets, k7)) => match weight_annotation(s, blanks_end(s, k7 + 1)) {
            None => None,
            Some(weight) => Some(TransitionText { source, symbol, targets, weight }),
        },
    }
}

/// The names of a list of strings.
pub open spec fn names_of(v: Seq<String>) -> Seq<Seq<char>> {
    v.map_values(|x: String| x@)
}

/// A transition as written, read from a transition value.
pub open spec fn text_of(t: Transition<String, String>) -> TransitionText {
    TransitionText {
        source: t.source_state@,
        symbol: t.symbol@,
        targets: names_of(t.target_states@),
        weight: t.probability as nat,
    }
}

/// A line `transition: <state> -> <symbol>(<state>, ...) # <weight>` (from
/// `i` on); `→` may stand for `->`, and the commas are optional.
pub fn parse_transition_line(s: &Vec<char>, i: usize) -> (r: Option<Transition<String, String>>)
    requires
        i <= s@.len(),
    ensures
        r matches Some(t) ==> transition_line(s@, i as int) == Some(text_of(t)),
        r is None ==> transition_line(s@, i as int) is None,
{
    let tag = chars_of("transition:");
    if !holds_at(s, i, &tag) {
        return None;
    }
    let n = s.len();
    let k = skip_blanks(s, i + tag.len());
    let (source_state, k) = parse_token(s, k)?;
    let k = skip_blanks(s, k);
    let arrow = chars_of("->");
    let arrow2 = chars_of("→");
    let n = s.len();
    let k = if holds_at(s, k, &arrow) {
        k + arrow.len()
    } else if holds_at(s, k, &arrow2) {
        k + arrow2.len()
    } else {
        return None;
    };
    let k = skip_blanks(s, k);
    let (symbol, k) = parse_token(s, k)?;
    let k = skip_blanks(s, k);
    if !(k < s.len() && s[k] == '(') {
        return None;
    }
    let k0 = skip_blanks(s, k + 1);
    let mut k = k0;
    let mut target_states: Vec<String> = Vec::new();
    proof {
        assert(names_of(target_states@) =~= Seq::<Seq<char>>::empty());
    }
    while k < s.len() && s[k] != ')'
        invariant
            k0 <= k <= s@.len(),
            transition_line(s@, i as int) == transition_rest(s@, source_state@, symbol@, k0 as int),
            targets_from(s@, k0 as int, Seq::empty()) == targets_from(s@, k as int, names_of(target_states@)),
        decreases s@.len() - k,
    {
        let mut m = k;
        if s[m] == ',' {
            m = m + 1;
        }
        let m = skip_blanks(s, m);
        let (q, m) = match parse_token(s, m) {
            Some(x) => x,
            None => return None,
        };
        let ghost before = target_states@;
        target_states.push(q);
        proof {
            assert(names_of(target_states@) =~= names_of(before).push(q@));
        }
        k = skip_blanks(s, m);
    }
    if k >= s.len() {
        return None;
    }
    let k = skip_blanks(s, k + 1);
    let probability = parse_weight_annotation(s, k)?;
    Some(Transition { source_state, symbol, target_states, probability })
}

/// The first line break from position `i` on (or the end).
pub open spec fn line_end(s: Seq<char>, i: int) -> int
    decreases s.len() - i,
{
    if 0 <= i < s.len() && s[i] != '\n' {
        line_end(s, i + 1)
    } else {
        i
    }
}

/// A line whose first non-blank character is `k` declares nothing: it is
/// blank (a carriage return at its end aside) or a `%` comment.
pub open spec fn skipped_line(line: Seq<char>, k: int) -> bool {
    k >= line.len() || (line[k] == '\r' && k + 1 == line.len()) || line[k] == '%'
}

/// The declarations of the lines from position `start` on, after `roots`
/// and `ts`; `None` at a line that is neither skipped nor a declaration.
pub open spec fn declarations(
    s: Seq<char>,
    start: int,
    roots: Seq<(Seq<char>, nat)>,
    ts: Seq<TransitionText>,
) -> Option<(Seq<(Seq<char>, nat)>, Seq<TransitionText>)>
    decreases s.len() - start,
{
    if start < 0 || start >= s.len() {
        Some((roots, ts))
    } else {
        let end = line_end(s, start);
        if end < start || end > s.len() {
            None
        } else {
            let line = s.subrange(start, end);
            let k = blanks_end(line, 0);
            let next = if end < s.len() { end + 1 } else { end };
            if skipped_line(line, k) {
                declarations(s, next, roots, ts)
            } else {
                match root_line(line, k) {
                    Some(r) => declarations(s, next, roots.push(r), ts),
                    None => match transition_line(line, k) {
                        Some(t) => declarations(s, next, roots, ts.push(t)),
                        None => None,
                    },
                }
            }
        }
    }
}

/// Declarations that make an automaton (as `acceptable` says of values).
pub open spec fn acceptable_text(roots: Seq<(Seq<char>, nat)>, ts: Seq<TransitionText>) -> bool {
    &&& roots.len() > 0
    &&& ts.len() > 0
    &&& forall|i: int, j: int| 0 <= i < j < roots.len() ==> roots[i].0 != roots[j].0
    &&& forall|i: int| 0 <= i < roots.len() ==> (#[trigger] roots[i]).1 <= ONE
    &&& forall|i: int| 0 <= i < ts.len() ==> (#[trigger] ts[i]).weight <= ONE
    &&& forall|i: int, j: int|
        0 <= i < ts.len() && 0 <= j < ts.len() && ts[i].symbol == ts[j].symbol
            ==> ts[i].targets.len() == ts[j].targets.len()
}

/// Root weight entries as written.
pub open spec fn root_texts(r: Seq<(String, u64)>) -> Seq<(Seq<char>, nat)> {
    r.map_values(|e: (String, u64)| (e.0@, e.1 as nat))
}

/// Transitions as written.
pub open spec fn transition_texts(ts: Seq<Transition<String, String>>) -> Seq<TransitionText> {
    ts.map_values(|t: Transition<String, String>| text_of(t))
}

/// `u` is the written transition `t` with each state and symbol replaced by
/// its number.
pub open spec fn numbers_of_text(t: TransitionText, u: Transition<usize, usize>, states: Seq<Seq<char>>, symbols: Seq<Seq<char>>) -> bool {
    &&& u.source_state < states.len()
    &&& states[u.source_state as int] == t.source
    &&& u.symbol < symbols.len()
    &&& symbols[u.symbol as int] == t.symbol
    &&& u.target_states@.len() == t.targets.len()
    &&& forall|k: int|
        0 <= k < u.target_states@.len() ==> #[trigger] u.target_states@[k] < states.len()
            && states[u.target_states@[k] as int] == t.targets[k]
    &&& u.probability == t.weight
}

/// `n` names the source or a target of the written transition `t`.
pub open spec fn text_mentions(t: TransitionText, n: Seq<char>) -> bool {
    n == t.source || t.targets.contains(n)
}

/// The root weight written for `name` from entry `k` on (0 if none).
pub open spec fn root_text_weight(r: Seq<(Seq<char>, nat)>, name: Seq<char>, k: int) -> nat
    decreases r.len() - k,
{
    if k < 0 || k >= r.len() {
        0
    } else if r[k].0 == name {
        r[k].1
    } else {
        root_text_weight(r, name, k + 1)
    }
}

/// Root weights read from values and as written agree.
proof fn lemma_root_text_weight(r: Seq<(String, u64)>, name: Seq<char>, k: int)
    requires
        0 <= k <= r.len(),
    ensures
        root_weight_from(r, name, k) == root_text_weight(root_texts(r), name, k),
    decreases r.len() - k,
{
    if k < r.len() {
        lemma_root_text_weight(r, name, k + 1);
    }
}

impl PTA {
    /// Reads an automaton from its text form (see `declarations`): one
    /// declaration per line; lines that are blank or start with `%` are
    /// skipped. Fails with `MalformedModel` on a line that is no
    /// declaration, and where the declarations make no automaton (see
    /// `new`).
    pub fn from_text(text: &str) -> (r: Result<PTA, PtaError>)
        ensures
            declarations(text@, 0, Seq::empty(), Seq::empty()) is None ==> r is Err,
            declarations(text@, 0, Seq::empty(), Seq::empty()) matches Some((rs, ts)) ==> (r is Ok <==> acceptable_text(rs, ts)),
            r matches Ok(m) ==> m.wf(),
            r matches Ok(m) ==> (declarations(text@, 0, Seq::empty(), Seq::empty()) matches Some((rs, ts)) && {
                &&& m.num_trans() == ts.len()
                &&& forall|i: int| 0 <= i < ts.len() ==> #[trigger] numbers_of_text(ts[i], m.trans(i), m.state_names(), m.symbol_names())
                &&& forall|q: int| 0 <= q < m.num_states() ==> #[trigger] m.roots()[q] == root_text_weight(rs, m.state_names()[q], 0)
                &&& forall|n: Seq<char>| #[trigger] m.state_names().contains(n)
                    ==> exists|i: int| 0 <= i < ts.len() && #[trigger] text_mentions(ts[i], n)
                &&& forall|n: Seq<char>| #[trigger] m.symbol_names().contains(n)
                    ==> exists|i: int| 0 <= i < ts.len() && n == #[trigger] ts[i].symbol
            }),
            r matches Err(e) ==> e == PtaError::MalformedModel,
    {
        let s = chars_of(text);
        let mut roots: Vec<(String, u64)> = Vec::new();
        let mut transitions: Vec<Transition<String, String>> = Vec::new();
        let mut start: usize = 0;
        proof {
            assert(root_texts(roots@) =~= Seq::<(Seq<char>, nat)>::empty());
            assert(transition_texts(transitions@) =~= Seq::<TransitionText>::empty());
        }
        while start < s.len()
            invariant
                start <= s@.len(),
                s@ == text@,
                declarations(s@, 0, Seq::empty(), Seq::empty())
                    == declarations(s@, start as int, root_texts(roots@), transition_texts(transitions@)),
            decreases s@.len() - start,
        {
            let mut end = start;
            while end < s.len() && s[end] != '\n'
                invariant
                    start <= end <= s@.len(),
                    line_end(s@, start as int) == line_end(s@, end as int),
                decreases s@.len() - end,
            {
                end = end + 1;
            }
            let line = slice_of(&s, start, end);
            let k = skip_blanks(&line, 0);
            let blank = k == line.len() || (line[k] == '\r' && k + 1 == line.len());
            let ghost r0 = roots@;
            let ghost t0 = transitions@;
            if blank || line[k] == '%' {
            } else if let Some(r) = parse_root_line(&line, k) {
                roots.push(r);
                proof {
                    assert(root_texts(roots@) =~= root_texts(r0).push((r.0@, r.1 as nat)));
                }
            } else if let Some(t) = parse_transition_line(&line, k) {
                transitions.push(t);
                proof {
                    assert(transition_texts(transitions@) =~= transition_texts(t0).push(text_of(t)));
                }
            } else {
                return Err(PtaError::MalformedModel);
            }
            start = if end < s.len() { end + 1 } else { end };
        }
        proof {
            let rs = root_texts(roots@);
            let ts = transition_texts(transitions@);
            assert(acceptable(roots@, transitions@) <==> acceptable_text(rs, ts)) by {
                assert forall|i: int| 0 <= i < ts.len() implies #[trigger] ts[i].targets.len() == transitions@[i].target_states@.len() by {
                }
                if acceptable_text(rs, ts) {
                    assert forall|i: int| 0 <= i < roots@.len() implies (#[trigger] roots@[i]).1 <= ONE by {
                        assert(rs[i].1 <= ONE);
                    }
                    assert forall|i: int| 0 <= i < transitions@.len() implies (#[trigger] transitions@[i]).probability <= ONE by {
                        assert(ts[i].weight <= ONE);
                    }
                    assert forall|i: int, j: int|
                        0 <= i < transitions@.len() && 0 <= j < transitions@.len() && transitions@[i].symbol@ == transitions@[j].symbol@
                        implies transitions@[i].target_states@.len() == transitions@[j].target_states@.len() by {
                        assert(ts[i].symbol == ts[j].symbol);
                    }
                    assert forall|i: int, j: int| 0 <= i < j < roots@.len() implies roots@[i].0@ != roots@[j].0@ by {
                        assert(rs[i].0 != rs[j].0);
                    }
                }
                if acceptable(roots@, transitions@) {
                    assert forall|i: int| 0 <= i < rs.len() implies (#[trigger] rs[i]).1 <= ONE by {
                        assert(roots@[i].1 <= ONE);
                    }
                    assert forall|i: int| 0 <= i < ts.len() implies (#[trigger] ts[i]).weight <= ONE by {
                        assert(transitions@[i].probability <= ONE);
                    }
                    assert forall|i: int, j: int|
                        0 <= i < ts.len() && 0 <= j < ts.len() && ts[i].symbol == ts[j].symbol
                        implies ts[i].targets.len() == ts[j].targets.len() by {
                        assert(transitions@[i].symbol@ == transitions@[j].symbol@);
                    }
                    assert forall|i: int, j: int| 0 <= i < j < rs.len() implies rs[i].0 != rs[j].0 by {
                        assert(roots@[i].0@ != roots@[j].0@);
                    }
                }
            }
        }
        let ghost rv = roots@;
        let ghost tv = transitions@;
        let r = PTA::new(roots, transitions);
        proof {
            if r is Ok {
                let m = r->Ok_0;
                let ts = transition_texts(tv);
                assert forall|i: int| 0 <= i < ts.len() implies #[trigger] numbers_of_text(ts[i], m.trans(i), m.state_names(), m.symbol_names()) by {
                    assert(numbers_of(tv[i], m.trans(i), m.state_names(), m.symbol_names()));
                    assert forall|k: int| 0 <= k < m.trans(i).target_states@.len() implies #[trigger] m.trans(i).target_states@[k] < m.state_names().len()
                        && m.state_names()[m.trans(i).target_states@[k] as int] == ts[i].targets[k] by {
                        assert(names_of(tv[i].target_states@)[k] == tv[i].target_states@[k]@);
                    }
                }
                assert forall|q: int| 0 <= q < m.num_states() implies #[trigger] m.roots()[q] == root_text_weight(root_texts(rv), m.state_names()[q], 0) by {
                    lemma_root_text_weight(rv, m.state_names()[q], 0);
                }
                assert forall|n: Seq<char>| #[trigger] m.state_names().contains(n)
                    implies exists|i: int| 0 <= i < ts.len() && #[trigger] text_mentions(ts[i], n) by {
                    let i = choose|i: int| 0 <= i < tv.len() && mentions_state(#[trigger] tv[i], n);
                    if n != tv[i].source_state@ {
                        let k = choose|k: int| 0 <= k < tv[i].target_states@.len() && n == #[trigger] tv[i].target_states@[k]@;
                        assert(ts[i].targets[k] == n);
                    }
                    assert(text_mentions(ts[i], n));
                }
                assert forall|n: Seq<char>| #[trigger] m.symbol_names().contains(n)
                    implies exists|i: int| 0 <= i < ts.len() && n == #[trigger] ts[i].symbol by {
                    let i = choose|i: int| 0 <= i < tv.len() && n == #[trigger] tv[i].symbol@;
                    assert(n == ts[i].symbol);
                }
            }
        }
        r
    }
}

/// The text of a tree: `σ( t1, ..., tk )`, or the label alone for a leaf.
pub open spec fn tree_text(t: crate::tree::Shape<String>) -> Seq<char>
    decreases t, 1int, 0int,
{
    if t.children.len() == 0 {
        t.label@
    } else {
        t.label@ + seq!['(', ' '] + children_text(t, t.children.len() as int) + seq![' ', ')']
    }
}

/// The texts of the first `n` children of `t`, separated by `, `.
pub open spec fn children_text(t: crate::tree::Shape<String>, n: int) -> Seq<char>
    decreases t, 0int, n,
{
    if n <= 0 || n > t.children.len() {
        Seq::empty()
    } else if n == 1 {
        tree_text(t.children[0])
    } else {
        children_text(t, n - 1) + seq![',', ' '] + tree_text(t.children[n - 1])
    }
}

/// Appends the characters of `b` to `a`.
fn append_chars(a: &mut Vec<char>, b: &Vec<char>)
    ensures
        final(a)@ == old(a)@ + b@,
{
    let mut k: usize = 0;
    let ghost a0 = a@;
    while k < b.len()
        invariant
            k <= b@.len(),
            a@ == a0 + b@.subrange(0, k as int),
        decreases b@.len() - k,
    {
        a.push(b[k]);
        k = k + 1;
        proof {
            assert(a@ =~= a0 + b@.subrange(0, k as int));
        }
    }
    proof {
        assert(b@.subrange(0, b@.len() as int) =~= b@);
    }
}

/// The characters of the text of a tree.
fn tree_chars(t: &crate::tree::Tree<String>) -> (r: Vec<char>)
    ensures
        r@ == tree_text(t@),
    decreases t,
{
    proof {
        crate::tree::lemma_view(*t);
    }
    let mut r = chars_of(t.root.as_str());
    if t.children.len() == 0 {
        return r;
    }
    r.push('(');
    r.push(' ');
    let ghost head = r@;
    let mut i: usize = 0;
    while i < t.children.len()
        invariant
            i <= t.children@.len(),
            t@.children.len() == t.children@.len(),
            forall|j: int| 0 <= j < t.children@.len() ==> #[trigger] t@.children[j] == t.children@[j]@,
            r@ == head + children_text(t@, i as int),
        decreases t.children@.len() - i,
    {
        if i > 0 {
            r.push(',');
            r.push(' ');
        }
        let c = tree_chars(&t.children[i]);
        append_chars(&mut r, &c);
        proof {
            if i == 0 {
                assert(r@ =~= head + children_text(t@, 1));
            } else {
                assert(r@ =~= head + children_text(t@, i + 1));
            }
        }
        i = i + 1;
    }
    r.push(' ');
    r.push(')');
    proof {
        assert(r@ =~= tree_text(t@));
    }
    r
}

impl crate::tree::Tree<String> {
    /// The text of the tree: `σ( t1, ..., tk )`, or the label alone for a leaf.
    pub fn to_text(&self) -> (r: String)
        ensures
            r@ == tree_text(self@),
    {
        string_of(tree_chars(self))
    }
}

/// The digit character of `d < 10`.
pub open spec fn digit_of(d: nat) -> char {
    if d == 0 { '0' } else if d == 1 { '1' } else if d == 2 { '2' } else if d == 3 { '3' } else if d == 4 { '4' }
    else if d == 5 { '5' } else if d == 6 { '6' } else if d == 7 { '7' } else if d == 8 { '8' } else { '9' }
}

/// The first `k` of the eighteen decimal digits of a fraction `frac / ONE`.
pub open spec fn frac_digits(frac: nat, k: nat) -> Seq<char>
    decreases k,
{
    if k == 0 {
        Seq::empty()
    } else {
        frac_digits(frac, (k - 1) as nat).push(digit_of((frac / pow10((18 - k) as nat)) % 10))
    }
}

/// `s` without its trailing zeros.
pub open spec fn trim_zeros(s: Seq<char>) -> Seq<char>
    decreases s.len(),
{
    if s.len() > 0 && s.last() == '0' {
        trim_zeros(s.drop_last())
    } else {
        s
    }
}

/// The text of a probability `w`: its integer digit, then, unless it is
/// whole, `.` and its fraction digits without trailing zeros.
pub open spec fn weight_chars(w: nat) -> Seq<char> {
    let whole = w / (ONE as nat);
    let frac = w % (ONE as nat);
    seq![digit_of(whole)] + if frac > 0 { seq!['.'] + trim_zeros(frac_digits(frac, 18)) } else { Seq::empty() }
}

/// The digit character of `d < 10`, computed.
fn digit_char(d: u64) -> (c: char)
    requires
        d < 10,
    ensures
        is_digit(c),
        digit_value(c) == d,
        c == digit_of(d as nat),
{
    if d == 0 { '0' } else if d == 1 { '1' } else if d == 2 { '2' } else if d == 3 { '3' } else if d == 4 { '4' }
    else if d == 5 { '5' } else if d == 6 { '6' } else if d == 7 { '7' } else if d == 8 { '8' } else { '9' }
}

/// The decimal digits of `n`, most significant first.
fn digits_of(n: u64) -> (r: Vec<char>)
    ensures
        r@.len() > 0,
        all_digits(r@),
{
    let mut rev: Vec<char> = Vec::new();
    let mut m = n;
    let mut first = true;
    while first || m > 0
        invariant
            all_digits(rev@),
            !first ==> rev@.len() > 0,
        decreases m, (if first { 1int } else { 0int }),
    {
        let c = digit_char(m % 10);
        rev.push(c);
        proof {
            assert forall|i: int| 0 <= i < rev@.len() implies is_digit(#[trigger] rev@[i]) by {
                if i < rev@.len() - 1 {
                    assert(rev@[i] == rev@.drop_last()[i]);
                }
            }
        }
        m = m / 10;
        first = false;
    }
    let mut r: Vec<char> = Vec::new();
    let mut k = rev.len();
    while k > 0
        invariant
            k <= rev@.len(),
            all_digits(rev@),
            all_digits(r@),
            r@.len() == rev@.len() - k,
        decreases k,
    {
        k = k - 1;
        r.push(rev[k]);
        proof {
            assert forall|i: int| 0 <= i < r@.len() implies is_digit(#[trigger] r@[i]) by {
                if i < r@.len() - 1 {
                    assert(r@[i] == r@.drop_last()[i]);
                }
            }
        }
    }
    r
}

/// One digit is worth its value.
proof fn lemma_one_digit(c: char)
    ensures
        digits_value(seq![c]) == digit_value(c),
{
    let d = seq![c];
    assert(d.len() == 1);
    assert(d.drop_last() =~= Seq::<char>::empty());
    assert(digits_value(Seq::<char>::empty()) == 0);
    assert(d.last() == c);
    assert(digits_value(d) == digits_value(d.drop_last()) * 10 + digit_value(d.last()));
}

/// The first `k + 1` decimal digits of a fraction extend the first `k`.
proof fn lemma_next_digit(frac: nat, k: nat)
    requires
        k < 18,
    ensures
        (frac / pow10((18 - k) as nat)) * 10 + (frac / pow10((17 - k) as nat)) % 10 == frac / pow10((17 - k) as nat),
{
    let a = pow10((17 - k) as nat);
    lemma_pow10_mono(0, (17 - k) as nat);
    assert(pow10((18 - k) as nat) == 10 * a);
    let y = frac / a;
    assert((frac as int / a as int) / 10 == frac as int / (a as int * 10)) by {
        vstd::arithmetic::div_mod::lemma_div_denominator(frac as int, a as int, 10);
    }
    assert(a * 10 == 10 * a);
    assert(y == 10 * (y / 10) + y % 10) by {
        vstd::arithmetic::div_mod::lemma_fundamental_div_mod(y as int, 10);
    }
}

/// A digit's character is a digit of that value.
proof fn lemma_digit_of(d: nat)
    requires
        d < 10,
    ensures
        is_digit(digit_of(d)),
        digit_value(digit_of(d)) == d,
{
}

/// The first `k` fraction digits are digits, worth the fraction's first `k` places.
proof fn lemma_frac_digits(frac: nat, k: nat)
    requires
        frac < ONE,
        k <= 18,
    ensures
        frac_digits(frac, k).len() == k,
        all_digits(frac_digits(frac, k)),
        digits_value(frac_digits(frac, k)) == frac / pow10((18 - k) as nat),
    decreases k,
{
    if k == 0 {
        lemma_pow10_18();
        assert(frac / pow10(18) == 0) by (nonlinear_arith)
            requires
                frac < pow10(18),
        ;
    } else {
        lemma_frac_digits(frac, (k - 1) as nat);
        let prev = frac_digits(frac, (k - 1) as nat);
        let d = (frac / pow10((18 - k) as nat)) % 10;
        lemma_digit_of(d);
        let cur = frac_digits(frac, k);
        assert(cur == prev.push(digit_of(d)));
        assert(cur.drop_last() =~= prev);
        assert forall|i: int| 0 <= i < cur.len() implies is_digit(#[trigger] cur[i]) by {
            if i < prev.len() {
                assert(cur[i] == prev[i]);
            }
        }
        lemma_next_digit(frac, (k - 1) as nat);
    }
}

/// Dropping trailing zeros divides by a power of ten.
proof fn lemma_trim_zeros(s: Seq<char>)
    requires
        all_digits(s),
    ensures
        all_digits(trim_zeros(s)),
        trim_zeros(s).len() <= s.len(),
        trim_zeros(s) == s.subrange(0, trim_zeros(s).len() as int),
        digits_value(trim_zeros(s)) * pow10((s.len() - trim_zeros(s).len()) as nat) == digits_value(s),
    decreases s.len(),
{
    if s.len() > 0 && s.last() == '0' {
        let d = s.drop_last();
        assert(all_digits(d));
        lemma_trim_zeros(d);
        let t = trim_zeros(d);
        assert(d.subrange(0, t.len() as int) =~= s.subrange(0, t.len() as int));
        let e = (d.len() - t.len()) as nat;
        assert(pow10((s.len() - t.len()) as nat) == 10 * pow10(e));
        assert(digits_value(s) == digits_value(d) * 10);
        assert(digits_value(t) * pow10((s.len() - t.len()) as nat) == digits_value(s)) by (nonlinear_arith)
            requires
                digits_value(t) * pow10(e) == digits_value(d),
                pow10((s.len() - t.len()) as nat) == 10 * pow10(e),
                digits_value(s) == digits_value(d) * 10,
        ;
        assert(trim_zeros(s) == t);
    } else {
        assert(trim_zeros(s) == s);
        assert(s.subrange(0, s.len() as int) =~= s);
        assert(pow10(0) == 1);
        assert(digits_value(s) * pow10(0) == digits_value(s));
    }
}

/// The text of a probability reads back as that probability, and holds no
/// blank, line break or carriage return.
pub proof fn lemma_weight_chars(w: nat)
    requires
        w <= ONE,
    ensures
        weight_value(weight_chars(w)) == Some(w),
        weight_chars(w).len() > 0,
        forall|i: int| 0 <= i < weight_chars(w).len() ==> #[trigger] is_digit(weight_chars(w)[i]) || weight_chars(w)[i] == '.',
{
    let one = ONE as nat;
    let whole = w / one;
    let frac = w % one;
    assert(whole <= 1 && frac < one && w == whole * one + frac) by (nonlinear_arith)
        requires
            w <= one,
            one > 0,
            whole == w / one,
            frac == w % one,
    ;
    lemma_digit_of(whole);
    lemma_one_digit(digit_of(whole));
    let head = seq![digit_of(whole)];
    let wc = weight_chars(w);
    if frac > 0 {
        lemma_frac_digits(frac, 18);
        let fd = frac_digits(frac, 18);
        lemma_trim_zeros(fd);
        let t = trim_zeros(fd);
        assert(wc == head + seq!['.'] + t);
        assert(wc[0] == digit_of(whole));
        assert(wc[1] == '.');
        assert(first_dot(wc, 1) == 1);
        assert(first_dot(wc, 0) == 1);
        assert(wc.subrange(0, 1) =~= head);
        assert(wc.subrange(2, wc.len() as int) =~= t);
        assert(pow10(0) == 1);
        assert(frac / 1 == frac);
        assert forall|i: int| 0 <= i < wc.len() implies #[trigger] is_digit(wc[i]) || wc[i] == '.' by {
            if i >= 2 {
                assert(wc[i] == t[i - 2]);
            }
        }
    } else {
        assert(wc =~= head);
        assert(first_dot(wc, 1) == 1);
        assert(first_dot(wc, 0) == 1);
        assert(digits_value(Seq::<char>::empty()) == 0);
    }
}

/// A name that can be written as a token without quotes.
pub open spec fn plain_name(n: Seq<char>) -> bool {
    n.len() > 0 && forall|i: int| 0 <= i < n.len() ==> !ends_token(#[trigger] n[i])
}

/// Blanks from `i` to `j`, then no blank, end at `j`.
proof fn lemma_blanks_end_at(s: Seq<char>, i: int, j: int)
    requires
        0 <= i <= j <= s.len(),
        forall|k: int| i <= k < j ==> is_blank(#[trigger] s[k]),
        j == s.len() || !is_blank(s[j]),
    ensures
        blanks_end(s, i) == j,
    decreases j - i,
{
    if i < j {
        lemma_blanks_end_at(s, i + 1, j);
    }
}

/// Token characters from `i` to `j`, then one that ends a token, end at `j`.
proof fn lemma_plain_end_at(s: Seq<char>, i: int, j: int)
    requires
        0 <= i <= j <= s.len(),
        forall|k: int| i <= k < j ==> !ends_token(#[trigger] s[k]),
        j == s.len() || ends_token(s[j]),
    ensures
        plain_end(s, i) == j,
    decreases j - i,
{
    if i < j {
        lemma_plain_end_at(s, i + 1, j);
    }
}

/// A weight written up to the end runs to the end.
proof fn lemma_weight_end_at(s: Seq<char>, i: int)
    requires
        0 <= i <= s.len(),
        forall|k: int| i <= k < s.len() ==> is_digit(#[trigger] s[k]) || s[k] == '.',
    ensures
        weight_end(s, i) == s.len(),
    decreases s.len() - i,
{
    if i < s.len() {
        assert(is_digit(s[i]) || s[i] == '.');
        lemma_weight_end_at(s, i + 1);
    }
}

/// A plain name at position `i`, followed by a character that ends a
/// token, reads as that token.
proof fn lemma_token_at(s: Seq<char>, i: int, n: Seq<char>)
    requires
        plain_name(n),
        0 <= i,
        i + n.len() < s.len(),
        s.subrange(i, i + n.len()) == n,
        ends_token(s[i + n.len()]),
    ensures
        token(s, i) == Some((n, i + n.len())),
{
    assert forall|k: int| i <= k < i + n.len() implies !ends_token(#[trigger] s[k]) by {
        assert(s[k] == n[k - i]);
    }
    assert(s[i] == n[0]);
    lemma_plain_end_at(s, i, i + n.len());
}

/// The text of a root line (without its line break).
pub open spec fn root_line_text(name: Seq<char>, w: nat) -> Seq<char> {
    "root: "@ + name + " # "@ + weight_chars(w)
}

/// A root line as printed reads back as its state and weight.
#[verifier::rlimit(80)]
pub proof fn lemma_root_line_round_trip(name: Seq<char>, w: nat)
    requires
        plain_name(name),
        w <= ONE,
    ensures
        root_line(root_line_text(name, w), 0) == Some((name, w)),
{
    reveal_strlit("root: ");
    reveal_strlit("root:");
    reveal_strlit(" # ");
    let l = root_line_text(name, w);
    let n = name.len() as int;
    let wc = weight_chars(w);
    lemma_weight_chars(w);
    assert(l.len() == 9 + n + wc.len());
    assert(l.subrange(0, 5) =~= "root:"@);
    assert(l[5] == ' ');
    assert(l[6] == name[0]);
    lemma_blanks_end_at(l, 5, 6);
    assert(l.subrange(6, 6 + n) =~= name);
    assert(l[6 + n] == ' ');
    lemma_token_at(l, 6, name);
    assert(l[7 + n] == '#');
    lemma_blanks_end_at(l, 6 + n, 7 + n);
    assert(l[8 + n] == ' ');
    assert(l[9 + n] == wc[0]);
    lemma_blanks_end_at(l, 8 + n, 9 + n);
    assert forall|k: int| 9 + n <= k < l.len() implies #[trigger] is_digit(l[k]) || l[k] == '.' by {
        assert(l[k] == wc[k - 9 - n]);
    }
    lemma_weight_end_at(l, 9 + n);
    assert(l.subrange(9 + n, l.len() as int) =~= wc);
}

/// The names `ts[j..]` as written in a target list: separated by `, `, with
/// `, ` also before the first of them where `j > 0`.
pub open spec fn names_after(ts: Seq<Seq<char>>, j: int) -> Seq<char>
    decreases ts.len() - j,
{
    if j < 0 || j >= ts.len() {
        Seq::empty()
    } else {
        (if j > 0 { ", "@ } else { Seq::empty() }) + ts[j] + names_after(ts, j + 1)
    }
}

/// The text of a transition line (without its line break).
pub open spec fn transition_line_text(source: Seq<char>, symbol: Seq<char>, targets: Seq<Seq<char>>, w: nat) -> Seq<char> {
    "transition: "@ + source + " -> "@ + symbol + seq!['('] + names_after(targets, 0) + ") # "@ + weight_chars(w)
}

/// A target list as printed, from the position before `ts[j]`, reads back
/// as the names `ts`, up to its `)`.
#[verifier::rlimit(80)]
proof fn lemma_targets_from_at(l: Seq<char>, k: int, ts: Seq<Seq<char>>, j: int)
    requires
        0 <= j <= ts.len(),
        forall|i: int| 0 <= i < ts.len() ==> plain_name(#[trigger] ts[i]),
        0 <= k,
        k + names_after(ts, j).len() < l.len(),
        l.subrange(k, k + names_after(ts, j).len()) == names_after(ts, j),
        l[k + names_after(ts, j).len()] == ')',
    ensures
        targets_from(l, k, ts.subrange(0, j)) == Some((ts, k + names_after(ts, j).len())),
    decreases ts.len() - j,
{
    reveal_strlit(", ");
    if j == ts.len() {
        assert(ts.subrange(0, j) =~= ts);
    } else {
        let t = ts[j];
        assert(plain_name(t));
        let pre: int = if j > 0 { 2 } else { 0 };
        let rest = names_after(ts, j + 1);
        assert(names_after(ts, j) == (if j > 0 { ", "@ } else { Seq::empty() }) + t + rest);
        assert(names_after(ts, j).len() == pre + t.len() + rest.len());
        let start = k + pre;
        if j > 0 {
            let na = names_after(ts, j);
            assert(na == ", "@ + t + rest);
            assert(", "@[0] == ',' && ", "@[1] == ' ');
            assert(na[0] == ',' && na[1] == ' ' && na[2] == t[0]);
            assert(l[k] == na[0]);
            assert(l[k + 1] == na[1]);
            assert(l[k + 2] == na[2]);
            lemma_blanks_end_at(l, k + 1, k + 2);
        } else {
            let na = names_after(ts, j);
            assert(na == Seq::<char>::empty() + t + rest);
            assert(na[0] == t[0]);
            assert(l[k] == na[0]);
            assert(!ends_token(t[0]));
            assert(l[k] != ')' && l[k] != ',');
            lemma_blanks_end_at(l, k, k);
        }
        assert forall|i: int| 0 <= i < t.len() implies l[start + i] == #[trigger] t[i] by {
            assert(l[start + i] == names_after(ts, j)[pre + i]);
        }
        assert(l.subrange(start, start + t.len()) =~= t);
        let e = start + t.len();
        assert(l.subrange(e, e + rest.len()) =~= rest) by {
            assert forall|i: int| 0 <= i < rest.len() implies l[e + i] == #[trigger] rest[i] by {
                assert(l[e + i] == names_after(ts, j)[pre + t.len() + i]);
            }
        }
        if j + 1 < ts.len() {
            assert(rest[0] == ',');
            assert(l[e] == ',');
        } else {
            assert(rest.len() == 0);
            assert(l[e] == ')');
        }
        lemma_token_at(l, start, t);
        lemma_blanks_end_at(l, e, e);
        lemma_targets_from_at(l, e, ts, j + 1);
        assert(ts.subrange(0, j).push(t) =~= ts.subrange(0, j + 1));
    }
}

/// A transition line as printed reads back as its transition.
#[verifier::rlimit(80)]
pub proof fn lemma_transition_line_round_trip(source: Seq<char>, symbol: Seq<char>, targets: Seq<Seq<char>>, w: nat)
    requires
        plain_name(source),
        plain_name(symbol),
        forall|i: int| 0 <= i < targets.len() ==> plain_name(#[trigger] targets[i]),
        w <= ONE,
    ensures
        transition_line(transition_line_text(source, symbol, targets, w), 0)
            == Some(TransitionText { source, symbol, targets, weight: w }),
{
    reveal_strlit("transition: ");
    reveal_strlit("transition:");
    reveal_strlit(" -> ");
    reveal_strlit("->");
    reveal_strlit(") # ");
    let l = transition_line_text(source, symbol, targets, w);
    let a = source.len() as int;
    let b = symbol.len() as int;
    let names = names_after(targets, 0);
    let c = names.len() as int;
    let wc = weight_chars(w);
    lemma_weight_chars(w);
    assert(l.subrange(0, 11) =~= "transition:"@);
    assert(l[11] == ' ' && l[12] == source[0]);
    lemma_blanks_end_at(l, 11, 12);
    assert(l.subrange(12, 12 + a) =~= source);
    assert(l[12 + a] == ' ');
    lemma_token_at(l, 12, source);
    assert(l[13 + a] == '-');
    lemma_blanks_end_at(l, 12 + a, 13 + a);
    assert(l.subrange(13 + a, 15 + a) =~= "->"@);
    assert(arrow_end(l, 13 + a) == Some(15 + a));
    assert(l[15 + a] == ' ' && l[16 + a] == symbol[0]);
    lemma_blanks_end_at(l, 15 + a, 16 + a);
    assert(l.subrange(16 + a, 16 + a + b) =~= symbol);
    assert(l[16 + a + b] == '(');
    lemma_token_at(l, 16 + a, symbol);
    lemma_blanks_end_at(l, 16 + a + b, 16 + a + b);
    let p = 17 + a + b;
    assert(l.subrange(p, p + c) =~= names);
    assert(l[p + c] == ')');
    if c > 0 {
        assert(l[p] == names[0]);
        if targets.len() > 0 {
            assert(names[0] == targets[0][0]);
            assert(!is_blank(targets[0][0]));
        }
    }
    lemma_blanks_end_at(l, p, p);
    lemma_targets_from_at(l, p, targets, 0);
    assert(targets.subrange(0, 0) =~= Seq::<Seq<char>>::empty());
    assert(l[p + c + 1] == ' ' && l[p + c + 2] == '#');
    lemma_blanks_end_at(l, p + c + 1, p + c + 2);
    assert(l[p + c + 3] == ' ' && l[p + c + 4] == wc[0]);
    lemma_blanks_end_at(l, p + c + 3, p + c + 4);
    assert forall|k: int| p + c + 4 <= k < l.len() implies #[trigger] is_digit(l[k]) || l[k] == '.' by {
        assert(l[k] == wc[k - (p + c + 4)]);
    }
    lemma_weight_end_at(l, p + c + 4);
    assert(l.subrange(p + c + 4, l.len() as int) =~= wc);
}

/// The decimal text of a weight: its integer part, then, unless it is
/// whole, `.` and up to eighteen fraction digits without trailing zeros.
/// Read back as a weight, the text of a probability gives it again.
pub fn weight_text(w: u64) -> (r: String)
    ensures
        r@.len() > 0,
        w <= ONE ==> r@ == weight_chars(w as nat),
        w <= ONE ==> weight_value(r@) == Some(w as nat),
{
    let whole = w / ONE;
    let mut r: Vec<char> = Vec::new();
    let ghost mut lead: char = '0';
    if whole < 10 {
        let c = digit_char(whole);
        r.push(c);
        proof {
            lead = c;
            assert(r@ =~= seq![c]);
            lemma_one_digit(c);
        }
    } else {
        r = digits_of(whole);
    }
    let ghost head = r@;
    let frac = w % ONE;
    if frac > 0 {
        let mut ds: Vec<char> = Vec::new();
        let mut scale: u64 = 100_000_000_000_000_000;
        proof {
            reveal_with_fuel(pow10, 18);
            lemma_pow10_18();
            assert(frac as nat / pow10(18) == 0) by (nonlinear_arith)
                requires
                    frac < pow10(18),
            ;
            assert(digits_value(ds@) == 0);
        }
        let mut k: usize = 0;
        while k < 18
            invariant
                k <= 18,
                frac < ONE,
                k < 18 ==> scale as nat == pow10((17 - k) as nat),
                scale >= 1,
                ds@.len() == k,
                ds@ == frac_digits(frac as nat, k as nat),
                all_digits(ds@),
                digits_value(ds@) == frac as nat / pow10((18 - k) as nat),
            decreases 18 - k,
        {
            let d = (frac / scale) % 10;
            let c = digit_char(d);
            let ghost before = ds@;
            ds.push(c);
            proof {
                lemma_next_digit(frac as nat, k as nat);
                assert(ds@.drop_last() == before);
                assert forall|i: int| 0 <= i < ds@.len() implies is_digit(#[trigger] ds@[i]) by {
                    if i < before.len() {
                        assert(ds@[i] == before[i]);
                    }
                }
                if k < 17 {
                    assert(pow10((17 - k) as nat) == 10 * pow10((16 - k) as nat));
                }
            }
            if k < 17 {
                scale = scale / 10;
            }
            k = k + 1;
        }
        proof {
            assert(pow10(0) == 1);
            assert(k == 18);
            assert(frac as nat / 1 == frac as nat);
            assert(digits_value(ds@) == frac as nat);
            assert(digits_value(ds@) * pow10((18 - ds@.len()) as nat) == frac as nat);
        }
        // drop trailing zeros
        while ds.len() > 0 && ds[ds.len() - 1] == '0'
            invariant
                ds@.len() <= 18,
                trim_zeros(ds@) == trim_zeros(frac_digits(frac as nat, 18)),
                all_digits(ds@),
                digits_value(ds@) * pow10((18 - ds@.len()) as nat) == frac as nat,
            decreases ds@.len(),
        {
            let ghost before = ds@;
            ds.pop();
            proof {
                assert(ds@ == before.drop_last());
                assert(digits_value(before) == digits_value(ds@) * 10);
                assert(pow10((18 - ds@.len()) as nat) == 10 * pow10((18 - before.len()) as nat));
                assert(digits_value(ds@) * pow10((18 - ds@.len()) as nat) == digits_value(before) * pow10((18 - before.len()) as nat)) by (nonlinear_arith)
                    requires
                        digits_value(before) == digits_value(ds@) * 10,
                        pow10((18 - ds@.len()) as nat) == 10 * pow10((18 - before.len()) as nat),
                ;
                assert forall|i: int| 0 <= i < ds@.len() implies is_digit(#[trigger] ds@[i]) by {
                    assert(ds@[i] == before[i]);
                }
            }
        }
        r.push('.');
        let ghost with_dot = r@;
        append_chars(&mut r, &ds);
        proof {
            if w <= ONE {
                assert(whole <= 1) by (nonlinear_arith)
                    requires
                        w <= ONE,
                        whole == w / ONE,
                ;
                assert(head == seq![lead]);
                assert(r@[0] == head[0]);
                assert(r@[1] == '.');
                assert(first_dot(r@, 1) == 1);
                assert(first_dot(r@, 0) == 1);
                assert(r@.subrange(0, 1) =~= head);
                assert(r@.subrange(2, r@.len() as int) =~= ds@);
                assert(head.drop_last() =~= Seq::<char>::empty());
                assert(digits_value(head) == whole);
                assert(all_digits(head));
                vstd::arithmetic::div_mod::lemma_fundamental_div_mod(w as int, ONE as int);
                assert(w == whole * ONE + frac);
            }
        }
    } else {
        proof {
            if w <= ONE {
                assert(whole <= 1) by (nonlinear_arith)
                    requires
                        w <= ONE,
                        whole == w / ONE,
                ;
                assert(head == seq![lead]);
                assert(r@ == head);
                assert(head.len() == 1);
                assert(first_dot(r@, 1) == 1);
                assert(first_dot(r@, 0) == 1);
                assert(head.drop_last() =~= Seq::<char>::empty());
                assert(digits_value(head) == whole);
                assert(digits_value(Seq::<char>::empty()) == 0);
                vstd::arithmetic::div_mod::lemma_fundamental_div_mod(w as int, ONE as int);
                assert(w == whole * ONE);
            }
        }
    }
    string_of(r)
}

impl PTA {
    /// The lines of the non-zero root weights of the first `n` states.
    pub open spec fn root_lines(&self, n: int) -> Seq<char>
        decreases n,
    {
        if n <= 0 {
            Seq::empty()
        } else {
            self.root_lines(n - 1) + if self.roots()[n - 1] > 0 {
                "root: "@ + self.state_names()[n - 1] + " # "@ + weight_chars(self.roots()[n - 1] as nat) + seq!['\n']
            } else {
                Seq::empty()
            }
        }
    }

    /// The names of the first `k` target states of `tr`, separated by `, `.
    pub open spec fn targets_text(&self, tr: Transition<usize, usize>, k: int) -> Seq<char>
        decreases k,
    {
        if k <= 0 {
            Seq::empty()
        } else if k == 1 {
            self.state_names()[tr.target_states@[0] as int]
        } else {
            self.targets_text(tr, k - 1) + ", "@ + self.state_names()[tr.target_states@[k - 1] as int]
        }
    }

    /// The line of a transition.
    pub open spec fn transition_line(&self, tr: Transition<usize, usize>) -> Seq<char> {
        "transition: "@ + self.state_names()[tr.source_state as int] + " -> "@ + self.symbol_names()[tr.symbol as int]
            + seq!['('] + self.targets_text(tr, tr.target_states@.len() as int) + ") # "@
            + weight_chars(tr.probability as nat) + seq!['\n']
    }

    /// The lines of the first `j` transitions for symbol `s` from state `q`.
    pub open spec fn bucket_lines(&self, s: int, q: int, j: int) -> Seq<char>
        decreases j,
    {
        if j <= 0 {
            Seq::empty()
        } else {
            self.bucket_lines(s, q, j - 1) + self.transition_line(self.trans(self.bucket(s, q)[j - 1] as int))
        }
    }

    /// The lines of the transitions for symbol `s` from the first `q` states.
    pub open spec fn symbol_lines(&self, s: int, q: int) -> Seq<char>
        decreases q,
    {
        if q <= 0 {
            Seq::empty()
        } else {
            self.symbol_lines(s, q - 1) + self.bucket_lines(s, q - 1, self.bucket(s, q - 1).len() as int)
        }
    }

    /// The lines of the transitions for the first `s` symbols.
    pub open spec fn transition_lines(&self, s: int) -> Seq<char>
        decreases s,
    {
        if s <= 0 {
            Seq::empty()
        } else {
            self.transition_lines(s - 1) + self.symbol_lines(s - 1, self.num_states() as int)
        }
    }

    /// The text form of the automaton.
    pub open spec fn model_text(&self) -> Seq<char> {
        self.root_lines(self.num_states() as int) + self.transition_lines(self.rank().len() as int)
    }

    /// The text form of the automaton: a line `root: <state> # <weight>` for
    /// each state of non-zero root weight, then a line
    /// `transition: <state> -> <symbol>(<state>, ...) # <weight>` for each
    /// transition, grouped by symbol and then by source state.
    pub fn to_text(&self) -> (r: String)
        requires
            self.wf(),
        ensures
            r@ == self.model_text(),
    {
        let mut out: Vec<char> = Vec::new();
        let nq = self.num_states_exec();
        let mut q: usize = 0;
        while q < nq
            invariant
                self.wf(),
                nq == self.num_states(),
                q <= nq,
                out@ == self.root_lines(q as int),
            decreases nq - q,
        {
            let w = self.root_weight_exec(q);
            if w > 0 {
                append_chars(&mut out, &chars_of("root: "));
                append_chars(&mut out, &chars_of(self.state_name(q).as_str()));
                append_chars(&mut out, &chars_of(" # "));
                append_chars(&mut out, &chars_of(weight_text(w).as_str()));
                out.push('\n');
            }
            proof {
                assert(out@ =~= self.root_lines(q + 1));
            }
            q = q + 1;
        }
        let ghost roots_text = out@;
        let nsym = self.num_symbols_exec();
        let mut s: usize = 0;
        while s < nsym
            invariant
                self.wf(),
                nq == self.num_states(),
                nsym == self.rank().len(),
                s <= nsym,
                out@ == roots_text + self.transition_lines(s as int),
            decreases nsym - s,
        {
            let ghost before_symbol = out@;
            let mut q: usize = 0;
            while q < nq
                invariant
                    self.wf(),
                    nq == self.num_states(),
                    nsym == self.rank().len(),
                    s < nsym,
                    q <= nq,
                    out@ == before_symbol + self.symbol_lines(s as int, q as int),
                decreases nq - q,
            {
                let ghost before_state = out@;
                let bucket = self.bucket_exec(s, q);
                let mut j: usize = 0;
                while j < bucket.len()
                    invariant
                        self.wf(),
                        nq == self.num_states(),
                        nsym == self.rank().len(),
                        s < nsym,
                        q < nq,
                        bucket@ == self.bucket(s as int, q as int),
                        j <= bucket@.len(),
                        out@ == before_state + self.bucket_lines(s as int, q as int, j as int),
                    decreases bucket@.len() - j,
                {
                    let ghost before_line = out@;
                    let tr = self.trans_exec(bucket[j]);
                    proof {
                        assert(self.trans_ok(*tr));
                    }
                    append_chars(&mut out, &chars_of("transition: "));
                    append_chars(&mut out, &chars_of(self.state_name(tr.source_state).as_str()));
                    append_chars(&mut out, &chars_of(" -> "));
                    append_chars(&mut out, &chars_of(self.symbol_name(tr.symbol).as_str()));
                    out.push('(');
                    let ghost before_targets = out@;
                    let mut k: usize = 0;
                    while k < tr.target_states.len()
                        invariant
                            self.wf(),
                            self.trans_ok(*tr),
                            k <= tr.target_states@.len(),
                            out@ == before_targets + self.targets_text(*tr, k as int),
                        decreases tr.target_states@.len() - k,
                    {
                        if k > 0 {
                            append_chars(&mut out, &chars_of(", "));
                        }
                        append_chars(&mut out, &chars_of(self.state_name(tr.target_states[k]).as_str()));
                        proof {
                            if k == 0 {
                                assert(out@ =~= before_targets + self.targets_text(*tr, 1));
                            } else {
                                assert(out@ =~= before_targets + self.targets_text(*tr, k + 1));
                            }
                        }
                        k = k + 1;
                    }
                    append_chars(&mut out, &chars_of(") # "));
                    append_chars(&mut out, &chars_of(weight_text(tr.probability).as_str()));
                    out.push('\n');
                    proof {
                        assert(out@ =~= before_line + self.transition_line(*tr));
                        assert(out@ =~= before_state + self.bucket_lines(s as int, q as int, j + 1));
                    }
                    j = j + 1;
                }
                proof {
                    assert(out@ =~= before_symbol + self.symbol_lines(s as int, q + 1));
                }
                q = q + 1;
            }
            proof {
                assert(out@ =~= roots_text + self.transition_lines(s + 1));
            }
            s = s + 1;
        }
        string_of(out)
    }
}

/// `names_after` of names with one more at the end.
proof fn lemma_names_after_push(ts: Seq<Seq<char>>, x: Seq<char>, j: int)
    requires
        0 <= j <= ts.len(),
    ensures
        names_after(ts.push(x), j) == names_after(ts, j) + (if ts.len() > 0 { ", "@ } else { Seq::empty() }) + x,
    decreases ts.len() - j,
{
    let u = ts.push(x);
    if j == ts.len() {
        assert(names_after(u, j + 1) == Seq::<char>::empty());
        assert(names_after(ts, j) == Seq::<char>::empty());
        if j > 0 {
            assert(names_after(u, j) =~= Seq::<char>::empty() + (", "@ + x));
        } else {
            assert(names_after(u, j) =~= Seq::<char>::empty() + x);
        }
        assert(names_after(u, j) =~= names_after(ts, j) + (if ts.len() > 0 { ", "@ } else { Seq::empty() }) + x);
    } else {
        lemma_names_after_push(ts, x, j + 1);
        assert(u[j] == ts[j]);
        assert(names_after(u, j) =~= names_after(ts, j) + (if ts.len() > 0 { ", "@ } else { Seq::empty() }) + x);
    }
}

/// No line break in `l`.
pub open spec fn one_line(l: Seq<char>) -> bool {
    forall|i: int| 0 <= i < l.len() ==> #[trigger] l[i] != '\n'
}

/// A line without a break, followed by one, ends there.
proof fn lemma_line_end_at(s: Seq<char>, i: int, j: int)
    requires
        0 <= i <= j < s.len(),
        forall|k: int| i <= k < j ==> #[trigger] s[k] != '\n',
        s[j] == '\n',
    ensures
        line_end(s, i) == j,
    decreases j - i,
{
    if i < j {
        lemma_line_end_at(s, i + 1, j);
    }
}

/// Two texts without breaks make one without.
proof fn lemma_one_line_add(a: Seq<char>, b: Seq<char>)
    requires
        one_line(a),
        one_line(b),
    ensures
        one_line(a + b),
{
    assert forall|i: int| 0 <= i < (a + b).len() implies #[trigger] (a + b)[i] != '\n' by {
        if i < a.len() {
            assert((a + b)[i] == a[i]);
        } else {
            assert((a + b)[i] == b[i - a.len()]);
        }
    }
}

/// A plain name holds no break.
proof fn lemma_plain_one_line(n: Seq<char>)
    requires
        plain_name(n),
    ensures
        one_line(n),
{
    assert forall|i: int| 0 <= i < n.len() implies #[trigger] n[i] != '\n' by {
        assert(!ends_token(n[i]));
    }
}

/// The text of a probability holds no break.
proof fn lemma_weight_one_line(w: nat)
    requires
        w <= ONE,
    ensures
        one_line(weight_chars(w)),
{
    lemma_weight_chars(w);
    assert forall|i: int| 0 <= i < weight_chars(w).len() implies #[trigger] weight_chars(w)[i] != '\n' by {
        assert(is_digit(weight_chars(w)[i]) || weight_chars(w)[i] == '.');
    }
}

/// The fixed pieces of the printed lines hold no break.
proof fn lemma_literals_one_line()
    ensures
        one_line("root: "@),
        one_line(" # "@),
        one_line("transition: "@),
        one_line(" -> "@),
        one_line(") # "@),
        one_line(", "@),
        one_line(seq!['(']),
{
    reveal_strlit("root: ");
    reveal_strlit(" # ");
    reveal_strlit("transition: ");
    reveal_strlit(" -> ");
    reveal_strlit(") # ");
    reveal_strlit(", ");
    assert("root: "@ =~= seq!['r', 'o', 'o', 't', ':', ' ']);
    assert(" # "@ =~= seq![' ', '#', ' ']);
    assert("transition: "@ =~= seq!['t', 'r', 'a', 'n', 's', 'i', 't', 'i', 'o', 'n', ':', ' ']);
    assert(" -> "@ =~= seq![' ', '-', '>', ' ']);
    assert(") # "@ =~= seq![')', ' ', '#', ' ']);
    assert(", "@ =~= seq![',', ' ']);
}

/// Where `s` holds `x + y` at `p`, it holds `x` at `p` and `y` after it.
proof fn lemma_holds_split(s: Seq<char>, p: int, x: Seq<char>, y: Seq<char>)
    requires
        0 <= p,
        p + x.len() + y.len() <= s.len(),
        s.subrange(p, p + x.len() + y.len()) == x + y,
    ensures
        s.subrange(p, p + x.len()) == x,
        s.subrange(p + x.len(), p + x.len() + y.len()) == y,
{
    assert forall|i: int| 0 <= i < x.len() implies s.subrange(p, p + x.len())[i] == #[trigger] x[i] by {
        assert(s[p + i] == (x + y)[i]);
    }
    assert forall|i: int| 0 <= i < y.len() implies s.subrange(p + x.len(), p + x.len() + y.len())[i] == #[trigger] y[i] by {
        assert(s[p + x.len() + i] == (x + y)[x.len() + i]);
    }
    assert(s.subrange(p, p + x.len()) =~= x);
    assert(s.subrange(p + x.len(), p + x.len() + y.len()) =~= y);
}

/// A line `l` followed by its break at `p`.
proof fn lemma_holds_line(s: Seq<char>, p: int, l: Seq<char>)
    requires
        0 <= p,
        p + l.len() + 1 <= s.len(),
        s.subrange(p, p + l.len() + 1) == l + seq!['\n'],
    ensures
        s.subrange(p, p + l.len()) == l,
        s[p + l.len()] == '\n',
{
    lemma_holds_split(s, p, l, seq!['\n']);
    assert(s[p + l.len()] == s.subrange(p + l.len(), p + l.len() + 1)[0]);
}

/// One line `l` of `s` at `p`, followed by its break, that declares `decl`
/// as root weight or transition.
proof fn lemma_declaration_line(
    s: Seq<char>,
    p: int,
    l: Seq<char>,
    rs: Seq<(Seq<char>, nat)>,
    ts: Seq<TransitionText>,
    nrs: Seq<(Seq<char>, nat)>,
    nts: Seq<TransitionText>,
)
    requires
        0 <= p,
        p + l.len() < s.len(),
        s.subrange(p, p + l.len()) == l,
        s[p + l.len()] == '\n',
        one_line(l),
        l.len() > 0,
        !is_blank(l[0]) && l[0] != '%' && l[0] != '\r',
        (root_line(l, 0) is Some && nrs == rs.push(root_line(l, 0)->0) && nts == ts)
            || (root_line(l, 0) is None && transition_line(l, 0) is Some && nrs == rs && nts == ts.push(transition_line(l, 0)->0)),
    ensures
        declarations(s, p, rs, ts) == declarations(s, p + l.len() + 1, nrs, nts),
{
    assert forall|k: int| p <= k < p + l.len() implies #[trigger] s[k] != '\n' by {
        assert(s[k] == l[k - p]);
    }
    lemma_line_end_at(s, p, p + l.len());
    lemma_blanks_end_at(l, 0, 0);
}

/// The text of a root line holds no break and starts with `r`.
proof fn lemma_root_line_shape(name: Seq<char>, w: nat)
    requires
        plain_name(name),
        w <= ONE,
    ensures
        one_line(root_line_text(name, w)),
        root_line_text(name, w)[0] == 'r',
{
    reveal_strlit("root: ");
    lemma_literals_one_line();
    lemma_plain_one_line(name);
    lemma_weight_one_line(w);
    lemma_one_line_add("root: "@, name);
    lemma_one_line_add("root: "@ + name, " # "@);
    lemma_one_line_add("root: "@ + name + " # "@, weight_chars(w));
}

/// The text of a transition line holds no break, starts with `t`, and is
/// no root line.
#[verifier::rlimit(80)]
proof fn lemma_transition_line_shape(source: Seq<char>, symbol: Seq<char>, targets: Seq<Seq<char>>, w: nat)
    requires
        plain_name(source),
        plain_name(symbol),
        forall|i: int| 0 <= i < targets.len() ==> plain_name(#[trigger] targets[i]),
        w <= ONE,
    ensures
        one_line(transition_line_text(source, symbol, targets, w)),
        transition_line_text(source, symbol, targets, w)[0] == 't',
        root_line(transition_line_text(source, symbol, targets, w), 0) is None,
{
    reveal_strlit("transition: ");
    reveal_strlit(" -> ");
    reveal_strlit(") # ");
    reveal_strlit("root:");
    lemma_weight_chars(w);
    lemma_names_after_one_line(targets, 0);
    let l = transition_line_text(source, symbol, targets, w);
    lemma_literals_one_line();
    lemma_plain_one_line(source);
    lemma_plain_one_line(symbol);
    lemma_weight_one_line(w);
    let x1 = "transition: "@ + source;
    lemma_one_line_add("transition: "@, source);
    lemma_one_line_add(x1, " -> "@);
    lemma_one_line_add(x1 + " -> "@, symbol);
    let x2 = x1 + " -> "@ + symbol;
    lemma_one_line_add(x2, seq!['(']);
    lemma_one_line_add(x2 + seq!['('], names_after(targets, 0));
    let x3 = x2 + seq!['('] + names_after(targets, 0);
    lemma_one_line_add(x3, ") # "@);
    lemma_one_line_add(x3 + ") # "@, weight_chars(w));
    assert(l.subrange(0, 5) != "root:"@) by {
        assert(l.subrange(0, 5)[0] == 't');
    }
}

/// A target list of plain names holds no break.
proof fn lemma_names_after_one_line(ts: Seq<Seq<char>>, j: int)
    requires
        0 <= j,
        forall|i: int| 0 <= i < ts.len() ==> plain_name(#[trigger] ts[i]),
    ensures
        one_line(names_after(ts, j)),
    decreases ts.len() - j,
{
    reveal_strlit(", ");
    if j < ts.len() {
        lemma_names_after_one_line(ts, j + 1);
        let pre: Seq<char> = if j > 0 { ", "@ } else { Seq::empty() };
        lemma_literals_one_line();
        assert(one_line(Seq::<char>::empty()));
        assert(one_line(pre));
        lemma_plain_one_line(ts[j]);
        lemma_one_line_add(pre, ts[j]);
        lemma_one_line_add(pre + ts[j], names_after(ts, j + 1));
    }
}

impl PTA {
    /// Every state and symbol name can be written as a token without quotes.
    pub open spec fn plain_names(&self) -> bool {
        &&& forall|q: int| 0 <= q < self.state_names().len() ==> plain_name(#[trigger] self.state_names()[q])
        &&& forall|s: int| 0 <= s < self.symbol_names().len() ==> plain_name(#[trigger] self.symbol_names()[s])
    }

    /// The root weights declared for the first `n` states: those not 0.
    pub open spec fn root_decls(&self, n: int) -> Seq<(Seq<char>, nat)>
        decreases n,
    {
        if n <= 0 {
            Seq::empty()
        } else {
            self.root_decls(n - 1) + if self.roots()[n - 1] > 0 {
                seq![(self.state_names()[n - 1], self.roots()[n - 1] as nat)]
            } else {
                Seq::empty()
            }
        }
    }

    /// A transition of the automaton as written.
    pub open spec fn decl_of(&self, tr: Transition<usize, usize>) -> TransitionText {
        TransitionText {
            source: self.state_names()[tr.source_state as int],
            symbol: self.symbol_names()[tr.symbol as int],
            targets: tr.target_states@.map_values(|q: usize| self.state_names()[q as int]),
            weight: tr.probability as nat,
        }
    }

    /// The transitions declared for symbol `s` from state `q`, first `j`.
    pub open spec fn bucket_decls(&self, s: int, q: int, j: int) -> Seq<TransitionText>
        decreases j,
    {
        if j <= 0 {
            Seq::empty()
        } else {
            self.bucket_decls(s, q, j - 1).push(self.decl_of(self.trans(self.bucket(s, q)[j - 1] as int)))
        }
    }

    /// The transitions declared for symbol `s` from the first `q` states.
    pub open spec fn symbol_decls(&self, s: int, q: int) -> Seq<TransitionText>
        decreases q,
    {
        if q <= 0 {
            Seq::empty()
        } else {
            self.symbol_decls(s, q - 1) + self.bucket_decls(s, q - 1, self.bucket(s, q - 1).len() as int)
        }
    }

    /// The transitions declared for the first `s` symbols.
    pub open spec fn transition_decls(&self, s: int) -> Seq<TransitionText>
        decreases s,
    {
        if s <= 0 {
            Seq::empty()
        } else {
            self.transition_decls(s - 1) + self.symbol_decls(s - 1, self.num_states() as int)
        }
    }

    /// The printed target list is `names_after` of the target names.
    proof fn lemma_targets_text(&self, tr: Transition<usize, usize>, k: int)
        requires
            0 <= k <= tr.target_states@.len(),
        ensures
            self.targets_text(tr, k) == names_after(self.decl_of(tr).targets.subrange(0, k), 0),
        decreases k,
    {
        let ts = self.decl_of(tr).targets;
        if k == 0 {
            assert(ts.subrange(0, 0) =~= Seq::<Seq<char>>::empty());
        } else {
            self.lemma_targets_text(tr, k - 1);
            lemma_names_after_push(ts.subrange(0, k - 1), ts[k - 1], 0);
            assert(ts.subrange(0, k - 1).push(ts[k - 1]) =~= ts.subrange(0, k));
            if k == 1 {
                assert(ts.subrange(0, 0) =~= Seq::<Seq<char>>::empty());
                assert(names_after(Seq::<Seq<char>>::empty(), 0) == Seq::<char>::empty());
                assert(self.targets_text(tr, 1) =~= Seq::<char>::empty() + Seq::<char>::empty() + ts[0]);
            }
        }
    }

    /// A printed transition line is the text of its declaration.
    proof fn lemma_transition_line_text(&self, tr: Transition<usize, usize>)
        ensures
            self.transition_line(tr) == transition_line_text(self.decl_of(tr).source, self.decl_of(tr).symbol,
                self.decl_of(tr).targets, tr.probability as nat) + seq!['\n'],
    {
        self.lemma_targets_text(tr, tr.target_states@.len() as int);
        assert(self.decl_of(tr).targets.subrange(0, tr.target_states@.len() as int) =~= self.decl_of(tr).targets);
    }

    /// The declarations of one printed transition line.
    proof fn lemma_transition_decl(&self, s: Seq<char>, p: int, tr: Transition<usize, usize>, rs: Seq<(Seq<char>, nat)>, ts: Seq<TransitionText>)
        requires
            self.wf(),
            self.plain_names(),
            self.trans_ok(tr),
            0 <= p,
            p + self.transition_line(tr).len() <= s.len(),
            s.subrange(p, p + self.transition_line(tr).len()) == self.transition_line(tr),
        ensures
            declarations(s, p, rs, ts) == declarations(s, p + self.transition_line(tr).len(), rs, ts.push(self.decl_of(tr))),
    {
        let d = self.decl_of(tr);
        self.lemma_transition_line_text(tr);
        assert forall|i: int| 0 <= i < d.targets.len() implies plain_name(#[trigger] d.targets[i]) by {
            assert(tr.target_states@[i] < self.num_states());
        }
        let l = transition_line_text(d.source, d.symbol, d.targets, tr.probability as nat);
        lemma_transition_line_round_trip(d.source, d.symbol, d.targets, tr.probability as nat);
        lemma_transition_line_shape(d.source, d.symbol, d.targets, tr.probability as nat);
        assert(s.subrange(p, p + l.len()) =~= l);
        assert(s[p + l.len()] == self.transition_line(tr)[l.len() as int]);
        lemma_declaration_line(s, p, l, rs, ts, rs, ts.push(d));
    }

    /// The root lines of the first `n` states declare their root weights.
    proof fn lemma_root_block(&self, s: Seq<char>, p: int, n: int, rs: Seq<(Seq<char>, nat)>, ts: Seq<TransitionText>)
        requires
            self.wf(),
            self.plain_names(),
            0 <= n <= self.num_states(),
            0 <= p,
            p + self.root_lines(n).len() <= s.len(),
            s.subrange(p, p + self.root_lines(n).len()) == self.root_lines(n),
        ensures
            declarations(s, p, rs, ts) == declarations(s, p + self.root_lines(n).len(), rs + self.root_decls(n), ts),
        decreases n,
    {
        if n == 0 {
            assert(rs + Seq::<(Seq<char>, nat)>::empty() =~= rs);
        } else {
            let prev = self.root_lines(n - 1);
            let p2 = p + prev.len();
            if self.roots()[n - 1] > 0 {
                let name = self.state_names()[n - 1];
                let w = self.roots()[n - 1] as nat;
                let l = root_line_text(name, w);
                assert(self.root_lines(n) == prev + (l + seq!['\n']));
                lemma_holds_split(s, p, prev, l + seq!['\n']);
                self.lemma_root_block(s, p, n - 1, rs, ts);
                lemma_holds_line(s, p2, l);
                lemma_root_line_round_trip(name, w);
                lemma_root_line_shape(name, w);
                let r0 = rs + self.root_decls(n - 1);
                lemma_declaration_line(s, p2, l, r0, ts, r0.push((name, w)), ts);
                assert(r0.push((name, w)) =~= rs + self.root_decls(n));
            } else {
                assert(self.root_lines(n) =~= prev);
                assert(self.root_decls(n) =~= self.root_decls(n - 1));
                self.lemma_root_block(s, p, n - 1, rs, ts);
            }
        }
    }
    /// The lines of the first `j` transitions of a bucket declare them.
    proof fn lemma_bucket_block(&self, s: Seq<char>, p: int, sy: int, q: int, j: int, rs: Seq<(Seq<char>, nat)>, ts: Seq<TransitionText>)
        requires
            self.wf(),
            self.plain_names(),
            0 <= sy < self.rank().len(),
            0 <= q < self.num_states(),
            0 <= j <= self.bucket(sy, q).len(),
            0 <= p,
            p + self.bucket_lines(sy, q, j).len() <= s.len(),
            s.subrange(p, p + self.bucket_lines(sy, q, j).len()) == self.bucket_lines(sy, q, j),
        ensures
            declarations(s, p, rs, ts) == declarations(s, p + self.bucket_lines(sy, q, j).len(), rs, ts + self.bucket_decls(sy, q, j)),
        decreases j,
    {
        if j == 0 {
            assert(ts + Seq::<TransitionText>::empty() =~= ts);
        } else {
            let prev = self.bucket_lines(sy, q, j - 1);
            let tr = self.trans(self.bucket(sy, q)[j - 1] as int);
            let l = self.transition_line(tr);
            lemma_holds_split(s, p, prev, l);
            self.lemma_bucket_block(s, p, sy, q, j - 1, rs, ts);
            assert(self.trans_ok(tr));
            let t0 = ts + self.bucket_decls(sy, q, j - 1);
            self.lemma_transition_decl(s, p + prev.len(), tr, rs, t0);
            assert(t0.push(self.decl_of(tr)) =~= ts + self.bucket_decls(sy, q, j));
        }
    }

    /// The lines of symbol `sy` from the first `q` states declare its transitions.
    proof fn lemma_symbol_block(&self, s: Seq<char>, p: int, sy: int, q: int, rs: Seq<(Seq<char>, nat)>, ts: Seq<TransitionText>)
        requires
            self.wf(),
            self.plain_names(),
            0 <= sy < self.rank().len(),
            0 <= q <= self.num_states(),
            0 <= p,
            p + self.symbol_lines(sy, q).len() <= s.len(),
            s.subrange(p, p + self.symbol_lines(sy, q).len()) == self.symbol_lines(sy, q),
        ensures
            declarations(s, p, rs, ts) == declarations(s, p + self.symbol_lines(sy, q).len(), rs, ts + self.symbol_decls(sy, q)),
        decreases q,
    {
        if q == 0 {
            assert(ts + Seq::<TransitionText>::empty() =~= ts);
        } else {
            let prev = self.symbol_lines(sy, q - 1);
            let b = self.bucket_lines(sy, q - 1, self.bucket(sy, q - 1).len() as int);
            lemma_holds_split(s, p, prev, b);
            self.lemma_symbol_block(s, p, sy, q - 1, rs, ts);
            let t0 = ts + self.symbol_decls(sy, q - 1);
            self.lemma_bucket_block(s, p + prev.len(), sy, q - 1, self.bucket(sy, q - 1).len() as int, rs, t0);
            assert(t0 + self.bucket_decls(sy, q - 1, self.bucket(sy, q - 1).len() as int) =~= ts + self.symbol_decls(sy, q));
        }
    }

    /// The lines of the first `sy` symbols declare their transitions.
    proof fn lemma_transitions_block(&self, s: Seq<char>, p: int, sy: int, rs: Seq<(Seq<char>, nat)>, ts: Seq<TransitionText>)
        requires
            self.wf(),
            self.plain_names(),
            0 <= sy <= self.rank().len(),
            0 <= p,
            p + self.transition_lines(sy).len() <= s.len(),
            s.subrange(p, p + self.transition_lines(sy).len()) == self.transition_lines(sy),
        ensures
            declarations(s, p, rs, ts) == declarations(s, p + self.transition_lines(sy).len(), rs, ts + self.transition_decls(sy)),
        decreases sy,
    {
        if sy == 0 {
            assert(ts + Seq::<TransitionText>::empty() =~= ts);
        } else {
            let prev = self.transition_lines(sy - 1);
            let b = self.symbol_lines(sy - 1, self.num_states() as int);
            lemma_holds_split(s, p, prev, b);
            self.lemma_transitions_block(s, p, sy - 1, rs, ts);
            let t0 = ts + self.transition_decls(sy - 1);
            self.lemma_symbol_block(s, p + prev.len(), sy - 1, self.num_states() as int, rs, t0);
            assert(t0 + self.symbol_decls(sy - 1, self.num_states() as int) =~= ts + self.transition_decls(sy));
        }
    }
}

/// Reading the text form of an automaton back gives its declarations: the
/// non-zero root weights in state order, and every transition (names,
/// targets and weight) in the order printed. So `from_text` of `to_text`
/// rebuilds an automaton with the same states, symbols and weights,
/// wherever those declarations make an automaton (`acceptable_text`).
/// Names must be writable as tokens without quotes.
pub proof fn lemma_text_round_trip(m: &PTA)
    requires
        m.wf(),
        m.plain_names(),
    ensures
        declarations(m.model_text(), 0, Seq::empty(), Seq::empty())
            == Some((m.root_decls(m.num_states() as int), m.transition_decls(m.rank().len() as int))),
{
    let s = m.model_text();
    let r = m.root_lines(m.num_states() as int);
    let t = m.transition_lines(m.rank().len() as int);
    assert(s.subrange(0, s.len() as int) =~= s);
    lemma_holds_split(s, 0, r, t);
    m.lemma_root_block(s, 0, m.num_states() as int, Seq::empty(), Seq::empty());
    m.lemma_transitions_block(s, r.len() as int, m.rank().len() as int, Seq::empty() + m.root_decls(m.num_states() as int), Seq::empty());
    assert(Seq::<(Seq<char>, nat)>::empty() + m.root_decls(m.num_states() as int) =~= m.root_decls(m.num_states() as int));
    assert(Seq::<TransitionText>::empty() + m.transition_decls(m.rank().len() as int) =~= m.transition_decls(m.rank().len() as int));
}

} // verus!
