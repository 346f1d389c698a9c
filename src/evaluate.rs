//! The weighted evaluator: per-state weights of a tree, bottom-up, in two
//! modes. In prefix mode a hole counts as weight 1 (it could still be filled
//! in); in complete mode a run through a hole has weight 0.
//!
//! The weight vectors of all subtrees are kept in a `RunTree` beside the
//! tree, one per mode and query; when a hole is filled only the nodes on the
//! way to it are evaluated again.
use crate::pta::PTA;
use crate::tree::{
    children_height, fill, first_child_with_hole, height, hole_depth, is_complete, leaf as leaf_shape, lemma_children_height_grows,
    lemma_fill_height, lemma_first_child_with_hole_exists, lemma_first_child_with_hole_stays, lemma_view, open_at_root, Shape, Tree,
};
use crate::weight::{prob_add, prob_mul, wadd, wmin, wmul, ONE};
use vstd::prelude::*;

verus! {

/// The weight vectors of a tree and of all its subtrees, node by node: the
/// memo of the evaluator, kept beside a tree while the tree grows.
pub struct RunTree {
    pub run: Vec<u64>,
    pub children: Vec<RunTree>,
}

impl PTA {
    /// `w(t, q)`: the summed weight of all runs on `t` with state `q` at the root.
    pub open spec fn weight(&self, t: Shape<usize>, q: int, prefix: bool) -> nat
        decreases t, 2int, 0int,
    {
        if 0 <= t.label < self.rank().len() && 0 <= q < self.num_states() {
            self.bucket_sum(t, q, prefix, self.bucket(t.label as int, q).len() as int)
        } else {
            0
        }
    }

    /// The runs through the first `n` transitions of the bucket of `t`'s label and `q`.
    pub open spec fn bucket_sum(&self, t: Shape<usize>, q: int, prefix: bool, n: int) -> nat
        decreases t, 1int, n,
    {
        if n <= 0 || !(0 <= t.label < self.rank().len() && 0 <= q < self.num_states())
            || n > self.bucket(t.label as int, q).len() {
            0
        } else {
            let tr = self.trans(self.bucket(t.label as int, q)[n - 1] as int);
            wadd(
                self.bucket_sum(t, q, prefix, n - 1),
                self.run_weight(t, tr, prefix, tr.target_states@.len() as int),
            )
        }
    }

    /// The weight of transition `tr` at the root of `t` times the weights of
    /// its first `n` children at the target states of `tr`.
    pub open spec fn run_weight(&self, t: Shape<usize>, tr: crate::transition::Transition<usize, usize>, prefix: bool, n: int) -> nat
        decreases t, 0int, n,
    {
        if n <= 0 {
            tr.probability as nat
        } else {
            let p = self.run_weight(t, tr, prefix, n - 1);
            if n - 1 >= tr.target_states@.len() {
                p
            } else if n - 1 < t.children.len() {
                wmul(p, self.weight(t.children[n - 1], tr.target_states@[n - 1] as int, prefix))
            } else if prefix {
                p
            } else {
                0
            }
        }
    }

    /// The weights of the first `n` states, each times its root weight.
    pub open spec fn root_sum(&self, t: Shape<usize>, prefix: bool, n: int) -> nat
        decreases n,
    {
        if n <= 0 || n > self.num_states() {
            0
        } else {
            wadd(self.root_sum(t, prefix, n - 1), wmul(self.weight(t, n - 1, prefix), self.roots()[n - 1] as nat))
        }
    }

    /// Pr(t): the probability of a complete tree (runs through holes count 0).
    pub open spec fn tree_probability(&self, t: Shape<usize>) -> nat {
        self.root_sum(t, false, self.num_states() as int)
    }

    /// The probability of `t` with every hole counted as weight 1.
    pub open spec fn tree_prefix_probability(&self, t: Shape<usize>) -> nat {
        self.root_sum(t, true, self.num_states() as int)
    }

    /// `|Q|² / h` as a probability, or 1 where it is at least 1.
    pub open spec fn height_bound(&self, h: nat) -> nat {
        let qq = self.num_states() * self.num_states();
        if qq >= h {
            ONE as nat
        } else {
            (qq * ONE as nat) / h
        }
    }

    /// PP(t) = min(prefix probability, |Q|² / height(t)).
    pub open spec fn tree_potential(&self, t: Shape<usize>) -> nat {
        wmin(self.tree_prefix_probability(t), self.height_bound(height(t)))
    }

    /// Σ_q w(t, q) · ν(q) over the vector `w` of weights.
    fn root_total(&self, w: &Vec<u64>, Ghost(t): Ghost<Shape<usize>>, prefix: bool) -> (r: u64)
        requires
            self.wf(),
            w@.len() == self.num_states(),
            forall|q: int| 0 <= q < self.num_states() ==> #[trigger] w@[q] == self.weight(t, q, prefix),
            forall|q: int| 0 <= q < self.num_states() ==> #[trigger] w@[q] <= ONE,
        ensures
            r == self.root_sum(t, prefix, self.num_states() as int),
            r <= ONE,
    {
        let nq = self.num_states_exec();
        let mut acc: u64 = 0;
        let mut q: usize = 0;
        while q < nq
            invariant
                self.wf(),
                nq == self.num_states(),
                q <= nq,
                w@.len() == nq,
                forall|p: int| 0 <= p < nq ==> #[trigger] w@[p] == self.weight(t, p, prefix),
                forall|p: int| 0 <= p < nq ==> #[trigger] w@[p] <= ONE,
                acc == self.root_sum(t, prefix, q as int),
                acc <= ONE,
            decreases nq - q,
        {
            let r = self.root_weight_exec(q);
            acc = prob_add(acc, prob_mul(w[q], r));
            q = q + 1;
        }
        acc
    }

    /// Pr(t) of a tree over symbol numbers (complete mode).
    pub fn probability_ids(&self, t: &Tree<usize>) -> (r: u64)
        requires
            self.wf(),
        ensures
            r == self.tree_probability(t@),
            r <= ONE,
    {
        let w = self.weights(t, false);
        self.root_total(&w, Ghost(t@), false)
    }

    /// The prefix probability of a tree over symbol numbers.
    pub fn prefix_probability_ids(&self, t: &Tree<usize>) -> (r: u64)
        requires
            self.wf(),
        ensures
            r == self.tree_prefix_probability(t@),
            r <= ONE,
    {
        let w = self.weights(t, true);
        self.root_total(&w, Ghost(t@), true)
    }

    /// `|Q|² / h` as a probability (1 where it is at least 1).
    pub fn height_bound_exec(&self, h: usize) -> (r: u64)
        requires
            h >= 1,
        ensures
            r == self.height_bound(h as nat),
    {
        let nq = self.num_states_exec() as u128;
        assert(nq * nq <= 0xffff_ffff_ffff_ffff * 0xffff_ffff_ffff_ffffu128) by (nonlinear_arith)
            requires
                nq <= 0xffff_ffff_ffff_ffff,
        ;
        let qq: u128 = nq * nq;
        if qq >= h as u128 {
            ONE
        } else {
            proof {
                let one = ONE as nat;
                assert(qq * one <= qq * one);
                assert((qq as nat * one) / (h as nat) <= one) by (nonlinear_arith)
                    requires
                        (qq as nat) < (h as nat),
                        h >= 1,
                ;
                assert(qq as nat * one < 0x1_0000_0000_0000_0000_0000_0000_0000_0000) by (nonlinear_arith)
                    requires
                        (qq as nat) < (h as nat),
                        h <= usize::MAX,
                        one == 1_000_000_000_000_000_000,
                ;
            }
            ((qq * (ONE as u128)) / (h as u128)) as u64
        }
    }

    /// PP(t) = min(prefix probability, |Q|² / height(t)).
    pub fn potential_probability_ids(&self, t: &Tree<usize>) -> (r: u64)
        requires
            self.wf(),
            height(t@) < usize::MAX,
        ensures
            r == self.tree_potential(t@),
    {
        let p = self.prefix_probability_ids(t);
        let h = t.get_height();
        let b = self.height_bound_exec(h);
        if p <= b {
            p
        } else {
            b
        }
    }

    /// `c` holds the weight vector of every subtree of `t`, node by node.
    pub open spec fn caches(&self, t: Shape<usize>, c: RunTree, prefix: bool) -> bool
        decreases t, 1int, 0int,
    {
        &&& c.run@.len() == self.num_states()
        &&& forall|q: int| 0 <= q < self.num_states() ==> #[trigger] c.run@[q] == self.weight(t, q, prefix)
        &&& c.children@.len() == t.children.len()
        &&& self.caches_children(t, c, prefix, t.children.len() as int)
    }

    /// The first `n` children of `c` hold the vectors of those of `t`.
    pub open spec fn caches_children(&self, t: Shape<usize>, c: RunTree, prefix: bool, n: int) -> bool
        decreases t, 0int, n,
    {
        if n <= 0 || n > t.children.len() {
            true
        } else {
            self.caches_children(t, c, prefix, n - 1) && n - 1 < c.children@.len()
                && self.caches(t.children[n - 1], c.children@[n - 1], prefix)
        }
    }

    /// The children's caches: each child is cached.
    pub proof fn lemma_caches_children(&self, t: Shape<usize>, c: RunTree, prefix: bool, n: int)
        requires
            0 <= n <= t.children.len(),
            t.children.len() <= c.children@.len(),
        ensures
            self.caches_children(t, c, prefix, n) <==> forall|j: int| 0 <= j < n ==> #[trigger] self.caches(t.children[j], c.children@[j], prefix),
        decreases n,
    {
        if n > 0 {
            self.lemma_caches_children(t, c, prefix, n - 1);
            if forall|j: int| 0 <= j < n ==> #[trigger] self.caches(t.children[j], c.children@[j], prefix) {
                assert(self.caches(t.children[n - 1], c.children@[n - 1], prefix));
                assert(forall|j: int| 0 <= j < n - 1 ==> #[trigger] self.caches(t.children[j], c.children@[j], prefix));
            }
        }
    }

    /// A weight is a probability.
    pub proof fn lemma_weight_le_one(&self, t: Shape<usize>, q: int, prefix: bool)
        ensures
            self.weight(t, q, prefix) <= ONE,
    {
    }

    /// The weight vector of a node labelled `root` whose children have the
    /// weight vectors `kids[j].run`; `t` is the node's shape.
    fn combine(&self, root: usize, kids: &Vec<RunTree>, prefix: bool, Ghost(t): Ghost<Shape<usize>>) -> (r: Vec<u64>)
        requires
            self.wf(),
            t.label == root,
            kids@.len() == t.children.len(),
            forall|j: int| 0 <= j < kids@.len() ==> (#[trigger] kids@[j]).run@.len() == self.num_states(),
            forall|j: int, q: int| 0 <= j < kids@.len() && 0 <= q < self.num_states()
                ==> #[trigger] kids@[j].run@[q] == self.weight(t.children[j], q, prefix),
        ensures
            r@.len() == self.num_states(),
            forall|q: int| 0 <= q < self.num_states() ==> #[trigger] r@[q] == self.weight(t, q, prefix),
    {
        let nq = self.num_states_exec();
        let mut ret: Vec<u64> = Vec::new();
        let known = root < self.num_symbols_exec();
        let mut q: usize = 0;
        while q < nq
            invariant
                self.wf(),
                nq == self.num_states(),
                q <= nq,
                known == (root < self.rank().len()),
                t.label == root,
                kids@.len() == t.children.len(),
                forall|j: int| 0 <= j < kids@.len() ==> (#[trigger] kids@[j]).run@.len() == nq,
                forall|j: int, p: int| 0 <= j < kids@.len() && 0 <= p < nq ==> #[trigger] kids@[j].run@[p] == self.weight(t.children[j], p, prefix),
                ret@.len() == q,
                forall|p: int| 0 <= p < q ==> #[trigger] ret@[p] == self.weight(t, p, prefix),
            decreases nq - q,
        {
            let mut p_q: u64 = 0;
            if known {
                let bucket = self.bucket_exec(root, q);
                let mut j: usize = 0;
                while j < bucket.len()
                    invariant
                        self.wf(),
                        nq == self.num_states(),
                        q < nq,
                        root < self.rank().len(),
                        t.label == root,
                        kids@.len() == t.children.len(),
                        forall|j: int| 0 <= j < kids@.len() ==> (#[trigger] kids@[j]).run@.len() == nq,
                        forall|j: int, p: int| 0 <= j < kids@.len() && 0 <= p < nq ==> #[trigger] kids@[j].run@[p] == self.weight(t.children[j], p, prefix),
                        bucket@ == self.bucket(root as int, q as int),
                        j <= bucket@.len(),
                        p_q == self.bucket_sum(t, q as int, prefix, j as int),
                        p_q <= ONE,
                    decreases bucket@.len() - j,
                {
                    let tr = self.trans_exec(bucket[j]);
                    proof {
                        assert(self.trans_ok(*tr));
                    }
                    let mut p_t: u64 = tr.probability;
                    let mut i: usize = 0;
                    while i < tr.target_states.len()
                        invariant
                            self.wf(),
                            nq == self.num_states(),
                            self.trans_ok(*tr),
                            kids@.len() == t.children.len(),
                            forall|j: int| 0 <= j < kids@.len() ==> (#[trigger] kids@[j]).run@.len() == nq,
                            forall|j: int, p: int| 0 <= j < kids@.len() && 0 <= p < nq ==> #[trigger] kids@[j].run@[p] == self.weight(t.children[j], p, prefix),
                            i <= tr.target_states@.len(),
                            p_t == self.run_weight(t, *tr, prefix, i as int),
                            p_t <= ONE,
                        decreases tr.target_states@.len() - i,
                    {
                        if i < kids.len() {
                            let target = tr.target_states[i];
                            proof {
                                self.lemma_weight_le_one(t.children[i as int], target as int, prefix);
                            }
                            p_t = prob_mul(p_t, kids[i].run[target]);
                        } else if !prefix {
                            p_t = 0;
                        }
                        i = i + 1;
                    }
                    p_q = prob_add(p_q, p_t);
                    j = j + 1;
                }
            }
            ret.push(p_q);
            q = q + 1;
        }
        ret
    }

    /// The weight vectors of `t` and of all its subtrees.
    pub fn run_tree(&self, t: &Tree<usize>, prefix: bool) -> (r: RunTree)
        requires
            self.wf(),
        ensures
            self.caches(t@, r, prefix),
        decreases t,
    {
        proof {
            lemma_view(*t);
        }
        let mut kids: Vec<RunTree> = Vec::new();
        let mut i: usize = 0;
        while i < t.children.len()
            invariant
                self.wf(),
                i <= t.children@.len(),
                t@.children.len() == t.children@.len(),
                forall|j: int| 0 <= j < t.children@.len() ==> #[trigger] t@.children[j] == t.children@[j]@,
                kids@.len() == i,
                forall|j: int| 0 <= j < i ==> self.caches(t@.children[j], #[trigger] kids@[j], prefix),
            decreases t.children@.len() - i,
        {
            let c = self.run_tree(&t.children[i], prefix);
            kids.push(c);
            i = i + 1;
        }
        let run = self.combine(t.root, &kids, prefix, Ghost(t@));
        let r = RunTree { run, children: kids };
        proof {
            self.lemma_caches_children(t@, r, prefix, t@.children.len() as int);
        }
        r
    }

    /// The weight vector `w(t, ·)` over all states.
    pub fn weights(&self, t: &Tree<usize>, prefix: bool) -> (r: Vec<u64>)
        requires
            self.wf(),
        ensures
            r@.len() == self.num_states(),
            forall|q: int| 0 <= q < self.num_states() ==> #[trigger] r@[q] == self.weight(t@, q, prefix),
            forall|q: int| 0 <= q < self.num_states() ==> #[trigger] r@[q] <= ONE,
    {
        let c = self.run_tree(t, prefix);
        proof {
            assert forall|q: int| 0 <= q < self.num_states() implies #[trigger] c.run@[q] <= ONE by {
                self.lemma_weight_le_one(t@, q, prefix);
            }
        }
        c.run
    }

    /// A copy of the vectors `c` of `t`.
    pub fn copy_runs(&self, c: &RunTree, Ghost(t): Ghost<Shape<usize>>, prefix: bool) -> (r: RunTree)
        requires
            self.caches(t, *c, prefix),
        ensures
            self.caches(t, r, prefix),
        decreases c,
    {
        proof {
            self.lemma_caches_children(t, *c, prefix, t.children.len() as int);
        }
        let mut run: Vec<u64> = Vec::new();
        let mut q: usize = 0;
        while q < c.run.len()
            invariant
                q <= c.run@.len(),
                run@ == c.run@.subrange(0, q as int),
            decreases c.run@.len() - q,
        {
            run.push(c.run[q]);
            q = q + 1;
            proof {
                assert(run@ =~= c.run@.subrange(0, q as int));
            }
        }
        proof {
            assert(run@ =~= c.run@);
        }
        let mut kids: Vec<RunTree> = Vec::new();
        let mut j: usize = 0;
        while j < c.children.len()
            invariant
                j <= c.children@.len(),
                c.children@.len() == t.children.len(),
                forall|k: int| 0 <= k < t.children.len() ==> #[trigger] self.caches(t.children[k], c.children@[k], prefix),
                kids@.len() == j,
                forall|k: int| 0 <= k < j ==> self.caches(t.children[k], #[trigger] kids@[k], prefix),
            decreases c.children@.len() - j,
        {
            let k = self.copy_runs(&c.children[j], Ghost(t.children[j as int]), prefix);
            kids.push(k);
            j = j + 1;
        }
        let r = RunTree { run, children: kids };
        proof {
            self.lemma_caches_children(t, r, prefix, t.children.len() as int);
        }
        r
    }

    /// Fills the first hole of `t` in breadth-first order with a leaf `s`
    /// (as `Tree::extend` does), keeping `c` the prefix-mode vectors of `t`:
    /// only the nodes on the way to the hole are evaluated again. Returns
    /// whether the tree still has a hole.
    pub fn extend_cached(&self, t: &mut Tree<usize>, c: &mut RunTree, s: usize, sigma: &Vec<usize>) -> (prefix: bool)
        requires
            self.wf(),
            sigma@ == self.rank(),
            height(old(t)@) < usize::MAX,
            self.caches(old(t)@, *old(c), true),
        ensures
            final(t)@ == fill(old(t)@, s, sigma@),
            self.caches(final(t)@, *final(c), true),
            prefix == !is_complete(final(t)@, sigma@),
    {
        proof {
            lemma_fill_height(t@, s, sigma@);
        }
        match t.hole_depth(sigma) {
            Some(d) => {
                self.fill_at_cached(t, c, s, sigma, d);
                t.hole_depth(sigma).is_some()
            },
            None => false,
        }
    }

    /// Fills the hole at depth `d`, the shallowest one, and evaluates the
    /// nodes above it again.
    fn fill_at_cached(&self, t: &mut Tree<usize>, c: &mut RunTree, s: usize, sigma: &Vec<usize>, d: usize)
        requires
            self.wf(),
            sigma@ == self.rank(),
            height(old(t)@) <= usize::MAX,
            hole_depth(old(t)@, sigma@) == Some(d as nat),
            self.caches(old(t)@, *old(c), true),
        ensures
            final(t)@ == fill(old(t)@, s, sigma@),
            self.caches(final(t)@, *final(c), true),
        decreases old(t)@,
    {
        let ghost t0 = t@;
        let ghost c0 = *c;
        proof {
            lemma_view(*t);
            self.lemma_caches_children(t0, c0, true, t0.children.len() as int);
        }
        if t.root < sigma.len() && t.children.len() < sigma[t.root] {
            let leaf = Tree::new(s);
            let lc = self.run_tree(&leaf, true);
            t.children.push(leaf);
            c.children.push(lc);
            proof {
                lemma_view(*t);
                assert(t@.children =~= t0.children.push(leaf_shape(s)));
                assert forall|j: int| 0 <= j < t@.children.len() implies #[trigger] self.caches(t@.children[j], c.children@[j], true) by {
                    if j < t0.children.len() {
                        assert(c.children@[j] == c0.children@[j]);
                    }
                }
            }
            proof {
            assert forall|j: int| 0 <= j < c.children@.len() implies (#[trigger] c.children@[j]).run@.len() == self.num_states()
                && forall|q: int| 0 <= q < self.num_states() ==> #[trigger] c.children@[j].run@[q] == self.weight(t@.children[j], q, true) by {
                assert(self.caches(t@.children[j], c.children@[j], true));
            }
        }
        let run = self.combine(t.root, &c.children, true, Ghost(t@));
            c.run = run;
            proof {
                self.lemma_caches_children(t@, *c, true, t@.children.len() as int);
            }
            return;
        }
        let mut i: usize = 0;
        let mut found = false;
        while !found && i < t.children.len()
            invariant
                i <= t.children@.len(),
                d >= 1,
                t@ == t0,
                height(t0) <= usize::MAX,
                hole_depth(t0, sigma@) == Some(d as nat),
                !open_at_root(t0, sigma@),
                t0.children.len() == t.children@.len(),
                forall|j: int| 0 <= j < t.children@.len() ==> #[trigger] t0.children[j] == t.children@[j]@,
                first_child_with_hole(t0, sigma@, (d - 1) as nat, i as int) == i,
                found ==> i < t.children@.len() && hole_depth(t0.children[i as int], sigma@) == Some((d - 1) as nat),
            decreases t.children@.len() - i + (if found { 0int } else { 1int }),
        {
            proof {
                assert(height(t0.children[i as int]) <= children_height(t0, i as int + 1));
                lemma_children_height_grows(t0, i as int + 1, t0.children.len() as int);
            }
            let here = t.children[i].hole_depth(sigma);
            if here == Some(d - 1) {
                found = true;
            } else {
                i = i + 1;
            }
        }
        proof {
            if !found {
                lemma_first_child_with_hole_exists(t0, sigma@, t0.children.len() as int);
            }
            assert(first_child_with_hole(t0, sigma@, (d - 1) as nat, i as int + 1) == i);
            lemma_first_child_with_hole_stays(t0, sigma@, (d - 1) as nat, i as int + 1, t0.children.len() as int);
            assert(height(t0.children[i as int]) <= children_height(t0, i as int + 1));
            lemma_children_height_grows(t0, i as int + 1, t0.children.len() as int);
            assert(self.caches(t0.children[i as int], c0.children@[i as int], true));
        }
        self.fill_at_cached(&mut t.children[i], &mut c.children[i], s, sigma, d - 1);
        proof {
            lemma_view(*t);
            assert(t@.children =~= t0.children.update(i as int, fill(t0.children[i as int], s, sigma@)));
            assert forall|j: int| 0 <= j < t@.children.len() implies #[trigger] self.caches(t@.children[j], c.children@[j], true) by {
                if j != i {
                    assert(c.children@[j] == c0.children@[j]);
                    assert(t@.children[j] == t0.children[j]);
                }
            }
        }
        proof {
            assert forall|j: int| 0 <= j < c.children@.len() implies (#[trigger] c.children@[j]).run@.len() == self.num_states()
                && forall|q: int| 0 <= q < self.num_states() ==> #[trigger] c.children@[j].run@[q] == self.weight(t@.children[j], q, true) by {
                assert(self.caches(t@.children[j], c.children@[j], true));
            }
        }
        let run = self.combine(t.root, &c.children, true, Ghost(t@));
        c.run = run;
        proof {
            self.lemma_caches_children(t@, *c, true, t@.children.len() as int);
        }
    }

    /// PP(t) from the prefix-mode vector of `t`, whose height is `h`.
    pub fn potential_from_run(&self, run: &Vec<u64>, h: usize, Ghost(t): Ghost<Shape<usize>>) -> (r: u64)
        requires
            self.wf(),
            run@.len() == self.num_states(),
            forall|q: int| 0 <= q < self.num_states() ==> #[trigger] run@[q] == self.weight(t, q, true),
            h as nat == height(t),
        ensures
            r == self.tree_potential(t),
    {
        proof {
            assert forall|q: int| 0 <= q < self.num_states() implies #[trigger] run@[q] <= ONE by {
                self.lemma_weight_le_one(t, q, true);
            }
        }
        let p = self.root_total(run, Ghost(t), true);
        let b = self.height_bound_exec(h);
        if p <= b {
            p
        } else {
            b
        }
    }
}

} // verus!
