//! Laws relating the evaluator, the search bound and the best parse.
use crate::pta::PTA;
use crate::query::{children_below, labels_below, lemma_children_below};
use crate::tree::{
    children_hole_depth, children_height, fill, first_child_with_hole, height, hole_depth, is_complete, leaf,
    lemma_children_height_grows, lemma_first_child_with_hole_exists, open_at_root, Shape,
};
use crate::weight::{lemma_wmul_bounded, lemma_wmul_monotone, wmul, ONE};
use vstd::prelude::*;

verus! {

/// The summed root weights of the first `n` states stay within probability 1.
proof fn lemma_root_sum_bounded(m: &PTA, t: Shape<usize>, prefix: bool, n: int)
    ensures
        m.root_sum(t, prefix, n) <= ONE,
    decreases n,
{
}

/// Every tree has a probability between 0 and 1, in both modes.
pub proof fn lemma_probability_bounded(m: &PTA, t: Shape<usize>)
    requires
        m.wf(),
    ensures
        m.tree_probability(t) <= ONE,
        m.tree_prefix_probability(t) <= ONE,
        m.tree_potential(t) <= ONE,
{
    lemma_root_sum_bounded(m, t, false, m.num_states() as int);
    lemma_root_sum_bounded(m, t, true, m.num_states() as int);
}

/// `u` is `t` with holes filled in: the same labels, and every node of `t`
/// keeps its children in `u`, perhaps with more after them.
pub open spec fn extends(t: Shape<usize>, u: Shape<usize>) -> bool
    decreases t, 1int, 0int,
{
    t.label == u.label && t.children.len() <= u.children.len() && extends_children(t, u, t.children.len() as int)
}

/// The first `n` children of `t` are extended by those of `u`.
pub open spec fn extends_children(t: Shape<usize>, u: Shape<usize>, n: int) -> bool
    decreases t, 0int, n,
{
    if n <= 0 || n > t.children.len() {
        true
    } else {
        extends_children(t, u, n - 1) && n - 1 < u.children.len() && extends(t.children[n - 1], u.children[n - 1])
    }
}

/// The trees reached from `t` by filling its first hole with `syms[0]`,
/// then with `syms[1]`, and so on.
pub open spec fn fill_all(t: Shape<usize>, syms: Seq<usize>, rank: Seq<usize>) -> Shape<usize>
    decreases syms.len(),
{
    if syms.len() == 0 {
        t
    } else {
        fill_all(fill(t, syms[0], rank), syms.drop_first(), rank)
    }
}

/// Extended children: each of them is extended.
proof fn lemma_extends_children(t: Shape<usize>, u: Shape<usize>, n: int)
    requires
        0 <= n <= t.children.len(),
        t.children.len() <= u.children.len(),
    ensures
        extends_children(t, u, n) <==> forall|i: int| 0 <= i < n ==> #[trigger] extends(t.children[i], u.children[i]),
    decreases n,
{
    if n > 0 {
        lemma_extends_children(t, u, n - 1);
        if forall|i: int| 0 <= i < n ==> #[trigger] extends(t.children[i], u.children[i]) {
            assert(extends(t.children[n - 1], u.children[n - 1]));
            assert(forall|i: int| 0 <= i < n - 1 ==> #[trigger] extends(t.children[i], u.children[i]));
        }
    }
}

/// Every tree extends itself.
proof fn lemma_extends_refl(t: Shape<usize>)
    ensures
        extends(t, t),
    decreases t,
{
    assert forall|i: int| 0 <= i < t.children.len() implies #[trigger] extends(t.children[i], t.children[i]) by {
        lemma_extends_refl(t.children[i]);
    }
    lemma_extends_children(t, t, t.children.len() as int);
}

/// Extension is transitive.
proof fn lemma_extends_trans(t: Shape<usize>, u: Shape<usize>, v: Shape<usize>)
    requires
        extends(t, u),
        extends(u, v),
    ensures
        extends(t, v),
    decreases t,
{
    lemma_extends_children(t, u, t.children.len() as int);
    lemma_extends_children(u, v, u.children.len() as int);
    assert forall|i: int| 0 <= i < t.children.len() implies #[trigger] extends(t.children[i], v.children[i]) by {
        assert(extends(t.children[i], u.children[i]));
        assert(extends(u.children[i], v.children[i]));
        lemma_extends_trans(t.children[i], u.children[i], v.children[i]);
    }
    lemma_extends_children(t, v, t.children.len() as int);
}

/// Filling a hole extends a tree.
proof fn lemma_fill_extends(t: Shape<usize>, s: usize, rank: Seq<usize>)
    ensures
        extends(t, fill(t, s, rank)),
    decreases t,
{
    let u = fill(t, s, rank);
    if crate::tree::open_at_root(t, rank) {
        assert forall|i: int| 0 <= i < t.children.len() implies #[trigger] extends(t.children[i], u.children[i]) by {
            assert(u.children[i] == t.children[i]);
            lemma_extends_refl(t.children[i]);
        }
        lemma_extends_children(t, u, t.children.len() as int);
    } else {
        match crate::tree::hole_depth(t, rank) {
            None => {
                lemma_extends_refl(t);
            },
            Some(d) => {
                let k = crate::tree::first_child_with_hole(t, rank, (d - 1) as nat, t.children.len() as int);
                if 0 <= k < t.children.len() {
                    assert forall|i: int| 0 <= i < t.children.len() implies #[trigger] extends(t.children[i], u.children[i]) by {
                        if i == k {
                            lemma_fill_extends(t.children[i], s, rank);
                        } else {
                            assert(u.children[i] == t.children[i]);
                            lemma_extends_refl(t.children[i]);
                        }
                    }
                    lemma_extends_children(t, u, t.children.len() as int);
                } else {
                    lemma_extends_refl(t);
                }
            },
        }
    }
}

/// Filling holes one after another extends a tree.
proof fn lemma_fill_all_extends(t: Shape<usize>, syms: Seq<usize>, rank: Seq<usize>)
    ensures
        extends(t, fill_all(t, syms, rank)),
    decreases syms.len(),
{
    if syms.len() == 0 {
        lemma_extends_refl(t);
    } else {
        let u = fill(t, syms[0], rank);
        lemma_fill_extends(t, syms[0], rank);
        lemma_fill_all_extends(u, syms.drop_first(), rank);
        lemma_extends_trans(t, u, fill_all(u, syms.drop_first(), rank));
    }
}

/// A weight is a probability.
proof fn lemma_weight_bounded(m: &PTA, t: Shape<usize>, q: int, prefix: bool)
    ensures
        m.weight(t, q, prefix) <= ONE,
{
}

/// The complete-mode weight of an extension is at most the prefix-mode
/// weight of the tree it extends.
proof fn lemma_weight_extends(m: &PTA, t: Shape<usize>, u: Shape<usize>, q: int)
    requires
        m.wf(),
        extends(t, u),
    ensures
        m.weight(u, q, false) <= m.weight(t, q, true),
    decreases t, 2int, 0int,
{
    if 0 <= t.label < m.rank().len() && 0 <= q < m.num_states() {
        lemma_bucket_sum_extends(m, t, u, q, m.bucket(t.label as int, q).len() as int);
    }
}

/// The same, for the runs through the first `n` transitions of a bucket.
proof fn lemma_bucket_sum_extends(m: &PTA, t: Shape<usize>, u: Shape<usize>, q: int, n: int)
    requires
        m.wf(),
        extends(t, u),
    ensures
        m.bucket_sum(u, q, false, n) <= m.bucket_sum(t, q, true, n),
    decreases t, 1int, n,
{
    if n > 0 && 0 <= t.label < m.rank().len() && 0 <= q < m.num_states() && n <= m.bucket(t.label as int, q).len() {
        let tr = m.trans(m.bucket(t.label as int, q)[n - 1] as int);
        lemma_bucket_sum_extends(m, t, u, q, n - 1);
        lemma_run_weight_extends(m, t, u, tr, tr.target_states@.len() as int);
    }
}

/// The same, for one transition and the first `n` children.
proof fn lemma_run_weight_extends(m: &PTA, t: Shape<usize>, u: Shape<usize>, tr: crate::transition::Transition<usize, usize>, n: int)
    requires
        m.wf(),
        extends(t, u),
    ensures
        m.run_weight(u, tr, false, n) <= m.run_weight(t, tr, true, n),
    decreases t, 0int, n,
{
    if n > 0 {
        lemma_run_weight_extends(m, t, u, tr, n - 1);
        let k = n - 1;
        let p1 = m.run_weight(t, tr, true, k);
        let p2 = m.run_weight(u, tr, false, k);
        if k < tr.target_states@.len() {
            if k < t.children.len() {
                lemma_extends_children(t, u, t.children.len() as int);
                assert(extends(t.children[k], u.children[k]));
                lemma_weight_extends(m, t.children[k], u.children[k], tr.target_states@[k] as int);
                lemma_wmul_monotone(
                    p2,
                    m.weight(u.children[k], tr.target_states@[k] as int, false),
                    p1,
                    m.weight(t.children[k], tr.target_states@[k] as int, true),
                );
            } else if k < u.children.len() {
                lemma_weight_bounded(m, u.children[k], tr.target_states@[k] as int, false);
                lemma_wmul_bounded(p2, m.weight(u.children[k], tr.target_states@[k] as int, false));
            }
        }
    }
}

/// Summing weighted states keeps the order of the weights.
proof fn lemma_root_sum_extends(m: &PTA, t: Shape<usize>, u: Shape<usize>, n: int)
    requires
        m.wf(),
        extends(t, u),
    ensures
        m.root_sum(u, false, n) <= m.root_sum(t, true, n),
    decreases n,
{
    if n > 0 && n <= m.num_states() {
        lemma_root_sum_extends(m, t, u, n - 1);
        lemma_weight_extends(m, t, u, n - 1);
        lemma_wmul_monotone(m.weight(u, n - 1, false), m.roots()[n - 1] as nat, m.weight(t, n - 1, true), m.roots()[n - 1] as nat);
    }
}

/// Filling the holes of a tree, one after another, never yields a complete
/// tree more probable than the prefix probability of the tree: the
/// prefix-probability half of the search bound is admissible.
pub proof fn lemma_prefix_probability_bounds_fillings(m: &PTA, t: Shape<usize>, syms: Seq<usize>)
    requires
        m.wf(),
    ensures
        m.tree_probability(fill_all(t, syms, m.rank())) <= m.tree_prefix_probability(t),
{
    lemma_fill_all_extends(t, syms, m.rank());
    lemma_root_sum_extends(m, t, fill_all(t, syms, m.rank()), m.num_states() as int);
}

/// A run's weight is at most the summed weight of all runs at its state.
proof fn lemma_run_below_weight(m: &PTA, t: Shape<usize>, run: Shape<usize>, q: int)
    requires
        m.wf(),
        m.run_weight_of(t, run, q) is Some,
    ensures
        m.run_weight_of(t, run, q)->0 <= m.weight(t, q, false),
    decreases t, 2int, 0int,
{
    let i = run.label as int;
    let tr = m.trans(i);
    assert(m.trans_ok(tr));
    let b = m.bucket(t.label as int, q);
    assert(b.contains(i as usize));
    let j = choose|j: int| 0 <= j < b.len() && b[j] == i as usize;
    lemma_run_prod_below(m, t, run, tr, t.children.len() as int);
    lemma_bucket_sum_term(m, t, q, b.len() as int, j);
}

/// A bucket's capped sum is at least each of its terms.
proof fn lemma_bucket_sum_term(m: &PTA, t: Shape<usize>, q: int, n: int, j: int)
    requires
        m.wf(),
        0 <= t.label < m.rank().len(),
        0 <= q < m.num_states(),
        0 <= j < n <= m.bucket(t.label as int, q).len(),
    ensures
        m.run_weight(t, m.trans(m.bucket(t.label as int, q)[j] as int), false,
            m.trans(m.bucket(t.label as int, q)[j] as int).target_states@.len() as int)
            <= m.bucket_sum(t, q, false, n),
    decreases n,
{
    let tr = m.trans(m.bucket(t.label as int, q)[n - 1] as int);
    assert(m.trans_ok(tr));
    lemma_run_weight_bounded(m, t, tr, tr.target_states@.len() as int);
    if j < n - 1 {
        lemma_bucket_sum_term(m, t, q, n - 1, j);
    }
}

/// The weight of a transition times some children's weights is a probability.
proof fn lemma_run_weight_bounded(m: &PTA, t: Shape<usize>, tr: crate::transition::Transition<usize, usize>, n: int)
    requires
        m.trans_ok(tr),
    ensures
        m.run_weight(t, tr, false, n) <= ONE,
    decreases n,
{
    if n > 0 {
        lemma_run_weight_bounded(m, t, tr, n - 1);
        if n - 1 < tr.target_states@.len() && n - 1 < t.children.len() {
            lemma_weight_bounded(m, t.children[n - 1], tr.target_states@[n - 1] as int, false);
            lemma_wmul_bounded(m.run_weight(t, tr, false, n - 1), m.weight(t.children[n - 1], tr.target_states@[n - 1] as int, false));
        }
    }
}

/// Along one run, the product is at most the product of the children's
/// summed weights.
proof fn lemma_run_prod_below(m: &PTA, t: Shape<usize>, run: Shape<usize>, tr: crate::transition::Transition<usize, usize>, n: int)
    requires
        m.wf(),
        m.trans_ok(tr),
        t.children.len() == tr.target_states@.len(),
        m.run_prod(t, run, tr, n) is Some,
    ensures
        m.run_prod(t, run, tr, n)->0 <= m.run_weight(t, tr, false, n),
    decreases t, 1int, n,
{
    if n > 0 {
        lemma_run_prod_below(m, t, run, tr, n - 1);
        let k = n - 1;
        lemma_run_below_weight(m, t.children[k], run.children[k], tr.target_states@[k] as int);
        lemma_wmul_monotone(
            m.run_prod(t, run, tr, k)->0,
            m.run_weight_of(t.children[k], run.children[k], tr.target_states@[k] as int)->0,
            m.run_weight(t, tr, false, k),
            m.weight(t.children[k], tr.target_states@[k] as int, false),
        );
    }
}

/// The root-weighted sum over the first `n` states is at least each of its terms.
proof fn lemma_root_sum_term(m: &PTA, t: Shape<usize>, n: int, q: int)
    requires
        m.wf(),
        0 <= q < n <= m.num_states(),
    ensures
        wmul(m.weight(t, q, false), m.roots()[q] as nat) <= m.root_sum(t, false, n),
    decreases n,
{
    lemma_weight_bounded(m, t, n - 1, false);
    lemma_wmul_bounded(m.weight(t, n - 1, false), m.roots()[n - 1] as nat);
    if q < n - 1 {
        lemma_root_sum_term(m, t, n - 1, q);
    }
}

/// A single run, weighted by its root state, is at most the probability of
/// its tree (the sum over all runs).
pub proof fn lemma_single_run_below_probability(m: &PTA, t: Shape<usize>, q: int, d: nat)
    requires
        m.wf(),
        0 <= q < m.num_states(),
        m.derives(t, q, d),
    ensures
        wmul(d, m.roots()[q] as nat) <= m.tree_probability(t),
{
    let run = choose|run: Shape<usize>| #[trigger] m.run_weight_of(t, run, q) == Some(d);
    lemma_run_below_weight(m, t, run, q);
    lemma_wmul_monotone(d, m.roots()[q] as nat, m.weight(t, q, false), m.roots()[q] as nat);
    lemma_root_sum_term(m, t, m.num_states() as int, q);
}

/// The probability of a best parse is at most the probability of its tree.
pub proof fn lemma_best_parse_below_probability(m: &PTA, t: crate::tree::Tree<String>, p: u64)
    requires
        m.wf(),
        m.parse_of(t, p),
    ensures
        p <= m.tree_probability(crate::query::numbered(t@, m.symbol_names())),
{
    let t_ids = crate::query::numbered(t@, m.symbol_names());
    let (q, d) = choose|q: int, d: nat|
        0 <= q < m.num_states() && m.roots()[q] > 0 && #[trigger] m.derives(t_ids, q, d)
            && p == wmul(d, m.roots()[q] as nat);
    lemma_single_run_below_probability(m, t_ids, q, d);
}

/// Every complete tree over the symbols is at most as probable as the
/// height bound of the search allows: `Pr(u) <= |Q|² / height(u)`.
pub open spec fn bound_admissible(m: &PTA) -> bool {
    forall|u: Shape<usize>|
        labels_below(u, m.rank().len()) && is_complete(u, m.rank())
            ==> #[trigger] m.tree_probability(u) <= m.height_bound(height(u))
}

/// The children of a complete tree are complete, and its root misses no child.
pub proof fn lemma_complete_children(u: Shape<usize>, rank: Seq<usize>)
    requires
        is_complete(u, rank),
    ensures
        !open_at_root(u, rank),
        forall|i: int| 0 <= i < u.children.len() ==> #[trigger] is_complete(u.children[i], rank),
{
    lemma_children_complete(u, rank, u.children.len() as int);
}

/// Without a hole among the first `n` children, each of them is complete.
proof fn lemma_children_complete(u: Shape<usize>, rank: Seq<usize>, n: int)
    requires
        0 <= n <= u.children.len(),
        children_hole_depth(u, rank, n) is None,
    ensures
        forall|i: int| 0 <= i < n ==> #[trigger] is_complete(u.children[i], rank),
    decreases n,
{
    if n > 0 {
        lemma_children_complete(u, rank, n - 1);
    }
}

/// The first child with a hole at depth `d`, where found, has one there.
proof fn lemma_first_child_prop(t: Shape<usize>, rank: Seq<usize>, d: nat, n: int)
    requires
        first_child_with_hole(t, rank, d, n) < n,
    ensures
        0 <= first_child_with_hole(t, rank, d, n) < t.children.len(),
        hole_depth(t.children[first_child_with_hole(t, rank, d, n)], rank) == Some(d),
    decreases n,
{
    if n > 0 && first_child_with_hole(t, rank, d, n - 1) < n - 1 {
        lemma_first_child_prop(t, rank, d, n - 1);
    }
}

/// A tree with a hole that a complete tree `u` extends can be filled, with
/// some symbol, so that `u` still extends it.
pub proof fn lemma_fill_toward(a: Shape<usize>, u: Shape<usize>, rank: Seq<usize>)
    requires
        extends(a, u),
        is_complete(u, rank),
        labels_below(u, rank.len()),
        hole_depth(a, rank) is Some,
    ensures
        exists|s: usize| s < rank.len() && #[trigger] extends(fill(a, s, rank), u),
    decreases a,
{
    lemma_complete_children(u, rank);
    lemma_children_below(u, rank.len(), u.children.len() as int);
    lemma_extends_children(a, u, a.children.len() as int);
    if open_at_root(a, rank) {
        let k = a.children.len() as int;
        assert(u.label < rank.len());
        assert(k < u.children.len());
        assert(labels_below(u.children[k], rank.len()));
        let s = u.children[k].label;
        assert(s < rank.len());
        let f = fill(a, s, rank);
        assert(extends(leaf(s), u.children[k])) by {
            assert(extends_children(leaf(s), u.children[k], 0));
        }
        assert forall|i: int| 0 <= i < f.children.len() implies #[trigger] extends(f.children[i], u.children[i]) by {
            if i < k {
                assert(f.children[i] == a.children[i]);
            }
        }
        lemma_extends_children(f, u, f.children.len() as int);
        assert(extends(f, u));
    } else {
        let d = hole_depth(a, rank)->0;
        let i = first_child_with_hole(a, rank, (d - 1) as nat, a.children.len() as int);
        lemma_first_child_with_hole_exists(a, rank, a.children.len() as int);
        lemma_first_child_prop(a, rank, (d - 1) as nat, a.children.len() as int);
        assert(extends(a.children[i], u.children[i]));
        assert(is_complete(u.children[i], rank));
        assert(labels_below(u.children[i], rank.len()));
        lemma_fill_toward(a.children[i], u.children[i], rank);
        let s = choose|s: usize| s < rank.len() && #[trigger] extends(fill(a.children[i], s, rank), u.children[i]);
        let f = fill(a, s, rank);
        assert forall|j: int| 0 <= j < f.children.len() implies #[trigger] extends(f.children[j], u.children[j]) by {
            if j != i {
                assert(f.children[j] == a.children[j]);
            }
        }
        lemma_extends_children(f, u, f.children.len() as int);
        assert(extends(f, u));
        assert(s < rank.len());
    }
}

/// On a complete tree, both modes give the same weights.
pub proof fn lemma_complete_weight(m: &PTA, a: Shape<usize>, q: int)
    requires
        m.wf(),
        is_complete(a, m.rank()),
    ensures
        m.weight(a, q, true) == m.weight(a, q, false),
    decreases a, 2int, 0int,
{
    if 0 <= a.label < m.rank().len() && 0 <= q < m.num_states() {
        lemma_complete_bucket(m, a, q, m.bucket(a.label as int, q).len() as int);
    }
}

/// The same, for the runs through the first `n` transitions of a bucket.
proof fn lemma_complete_bucket(m: &PTA, a: Shape<usize>, q: int, n: int)
    requires
        m.wf(),
        is_complete(a, m.rank()),
        0 <= a.label < m.rank().len(),
        0 <= q < m.num_states(),
    ensures
        m.bucket_sum(a, q, true, n) == m.bucket_sum(a, q, false, n),
    decreases a, 1int, n,
{
    if n > 0 && n <= m.bucket(a.label as int, q).len() {
        lemma_complete_bucket(m, a, q, n - 1);
        let tr = m.trans(m.bucket(a.label as int, q)[n - 1] as int);
        assert(m.trans_ok(tr));
        lemma_complete_children(a, m.rank());
        lemma_complete_run(m, a, tr, tr.target_states@.len() as int);
    }
}

/// The same, for one transition of the node's symbol and its first `n` children.
proof fn lemma_complete_run(m: &PTA, a: Shape<usize>, tr: crate::transition::Transition<usize, usize>, n: int)
    requires
        m.wf(),
        is_complete(a, m.rank()),
        tr.target_states@.len() <= a.children.len(),
    ensures
        m.run_weight(a, tr, true, n) == m.run_weight(a, tr, false, n),
    decreases a, 0int, n,
{
    if n > 0 {
        lemma_complete_run(m, a, tr, n - 1);
        lemma_complete_children(a, m.rank());
        if n - 1 < tr.target_states@.len() {
            lemma_complete_weight(m, a.children[n - 1], tr.target_states@[n - 1] as int);
        }
    }
}

/// The root sums of both modes agree on a complete tree.
proof fn lemma_complete_root_sum(m: &PTA, a: Shape<usize>, n: int)
    requires
        m.wf(),
        is_complete(a, m.rank()),
    ensures
        m.root_sum(a, true, n) == m.root_sum(a, false, n),
    decreases n,
{
    if n > 0 && n <= m.num_states() {
        lemma_complete_root_sum(m, a, n - 1);
        lemma_complete_weight(m, a, n - 1);
    }
}

/// A tree extended by `u` is at most as high as `u`.
proof fn lemma_extends_height(a: Shape<usize>, u: Shape<usize>)
    requires
        extends(a, u),
    ensures
        height(a) <= height(u),
    decreases a,
{
    lemma_extends_children(a, u, a.children.len() as int);
    assert forall|i: int| 0 <= i < a.children.len() implies #[trigger] height(a.children[i]) <= height(u.children[i]) by {
        lemma_extends_height(a.children[i], u.children[i]);
    }
    lemma_children_height_le(a, u, a.children.len() as int);
}

/// The largest height among the first `n` children of `a` is at most that of `u`.
proof fn lemma_children_height_le(a: Shape<usize>, u: Shape<usize>, n: int)
    requires
        0 <= n <= a.children.len() <= u.children.len(),
        forall|i: int| 0 <= i < a.children.len() ==> #[trigger] height(a.children[i]) <= height(u.children[i]),
    ensures
        children_height(a, n) <= children_height(u, u.children.len() as int),
    decreases n,
{
    if n > 0 {
        lemma_children_height_le(a, u, n - 1);
        assert(height(a.children[n - 1]) <= height(u.children[n - 1]));
        assert(height(u.children[n - 1]) <= children_height(u, n));
        lemma_children_height_grows(u, n, u.children.len() as int);
    }
}

/// The height bound shrinks as trees grow higher.
proof fn lemma_height_bound_antitone(m: &PTA, h1: nat, h2: nat)
    requires
        1 <= h1 <= h2,
    ensures
        m.height_bound(h2) <= m.height_bound(h1),
{
    let qq = m.num_states() * m.num_states();
    let one = ONE as nat;
    if qq < h2 {
        assert((qq * one) / h2 <= one) by (nonlinear_arith)
            requires
                qq < h2,
                h2 >= 1,
        ;
        if qq < h1 {
            vstd::arithmetic::div_mod::lemma_div_is_ordered_by_denominator((qq * one) as int, h1 as int, h2 as int);
        }
    }
}

/// Under an admissible height bound, the potential of a tree bounds the
/// probability of every complete tree that extends it.
pub proof fn lemma_potential_bounds_extension(m: &PTA, a: Shape<usize>, u: Shape<usize>)
    requires
        m.wf(),
        bound_admissible(m),
        extends(a, u),
        is_complete(u, m.rank()),
        labels_below(u, m.rank().len()),
    ensures
        m.tree_probability(u) <= m.tree_potential(a),
{
    lemma_root_sum_extends(m, a, u, m.num_states() as int);
    lemma_extends_height(a, u);
    assert(m.tree_probability(u) <= m.height_bound(height(u)));
    lemma_height_bound_antitone(m, height(a), height(u));
}

/// A complete tree extended by `u` is at least as probable as `u`.
pub proof fn lemma_complete_extension(m: &PTA, a: Shape<usize>, u: Shape<usize>)
    requires
        m.wf(),
        extends(a, u),
        is_complete(a, m.rank()),
    ensures
        m.tree_probability(u) <= m.tree_probability(a),
{
    lemma_root_sum_extends(m, a, u, m.num_states() as int);
    lemma_complete_root_sum(m, a, m.num_states() as int);
}

/// A leaf extends every tree with its label.
pub proof fn lemma_leaf_extends(u: Shape<usize>)
    ensures
        extends(leaf(u.label), u),
{
    assert(extends_children(leaf(u.label), u, 0));
}

/// Complete children under a node that misses none make a complete tree.
proof fn lemma_complete_of_children(t: Shape<usize>, rank: Seq<usize>, n: int)
    requires
        0 <= n <= t.children.len(),
        forall|i: int| 0 <= i < t.children.len() ==> #[trigger] is_complete(t.children[i], rank),
    ensures
        children_hole_depth(t, rank, n) is None,
    decreases n,
{
    if n > 0 {
        lemma_complete_of_children(t, rank, n - 1);
        assert(is_complete(t.children[n - 1], rank));
    }
}

/// A tree with a run is a complete tree over the symbols.
pub proof fn lemma_run_complete(m: &PTA, t: Shape<usize>, run: Shape<usize>, q: int)
    requires
        m.wf(),
        m.run_weight_of(t, run, q) is Some,
    ensures
        is_complete(t, m.rank()),
        labels_below(t, m.rank().len()),
    decreases t,
{
    let tr = m.trans(run.label as int);
    assert(m.trans_ok(tr));
    m.lemma_run_prod_children(t, run, tr, t.children.len() as int);
    assert forall|i: int| 0 <= i < t.children.len() implies #[trigger] is_complete(t.children[i], m.rank())
        && labels_below(t.children[i], m.rank().len()) by {
        assert(m.run_weight_of(t.children[i], run.children[i], tr.target_states@[i] as int) is Some);
        lemma_run_complete(m, t.children[i], run.children[i], tr.target_states@[i] as int);
    }
    lemma_complete_of_children(t, m.rank(), t.children.len() as int);
    lemma_children_below(t, m.rank().len(), t.children.len() as int);
    assert(t.label == tr.symbol && t.children.len() == tr.target_states@.len());
    assert(!open_at_root(t, m.rank()));
    assert(hole_depth(t, m.rank()) is None);
    assert forall|i: int| 0 <= i < t.children.len() implies #[trigger] labels_below(t.children[i], m.rank().len()) by {
        assert(is_complete(t.children[i], m.rank()));
    }
    lemma_children_below(t, m.rank().len(), t.children.len() as int);
    assert(children_below(t, m.rank().len(), t.children.len() as int));
    assert(t.label < m.rank().len());
}

/// The best parse is at most a probability that no complete tree beats,
/// such as the result of the most-probable-tree search where
/// `bound_admissible` holds: a single run weighs at most its tree.
pub proof fn lemma_best_parse_below_most_probable(m: &PTA, tb: crate::tree::Tree<String>, pb: u64, pm: u64)
    requires
        m.wf(),
        m.parse_of(tb, pb),
        forall|u: Shape<usize>|
            labels_below(u, m.rank().len()) && is_complete(u, m.rank()) ==> #[trigger] m.tree_probability(u) <= pm,
    ensures
        pb <= pm,
{
    let t_ids = crate::query::numbered(tb@, m.symbol_names());
    let (q, d) = choose|q: int, d: nat|
        0 <= q < m.num_states() && m.roots()[q] > 0 && #[trigger] m.derives(t_ids, q, d)
            && pb == wmul(d, m.roots()[q] as nat);
    let run = choose|run: Shape<usize>| #[trigger] m.run_weight_of(t_ids, run, q) == Some(d);
    lemma_run_complete(m, t_ids, run, q);
    lemma_best_parse_below_probability(m, tb, pb);
    assert(m.tree_probability(t_ids) <= pm);
}

/// Two finished searches on one automaton that no complete tree beats (as
/// `most_probable_tree` ensures where `bound_admissible` holds) agree on
/// the probability; their trees may differ among ties.
pub proof fn lemma_searches_agree(
    m: &PTA,
    t1: crate::tree::Tree<String>,
    p1: u64,
    n1: usize,
    t2: crate::tree::Tree<String>,
    p2: u64,
    n2: usize,
    max_insertions: usize,
)
    requires
        m.wf(),
        m.search_result(t1, p1, n1, max_insertions),
        m.search_result(t2, p2, n2, max_insertions),
        forall|u: Shape<usize>|
            labels_below(u, m.rank().len()) && is_complete(u, m.rank()) ==> #[trigger] m.tree_probability(u) <= p1,
        forall|u: Shape<usize>|
            labels_below(u, m.rank().len()) && is_complete(u, m.rank()) ==> #[trigger] m.tree_probability(u) <= p2,
    ensures
        p1 == p2,
{
    let u1 = crate::query::numbered(t1@, m.symbol_names());
    let u2 = crate::query::numbered(t2@, m.symbol_names());
    if p1 > 0 {
        assert(m.tree_probability(u1) <= p2);
    }
    if p2 > 0 {
        assert(m.tree_probability(u2) <= p1);
    }
}

} // verus!
