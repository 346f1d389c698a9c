//! The best parse: the single most probable derivation (run) of the
//! automaton and its tree, by a greedy fixed point over the transitions that
//! commits one state per round, the one of highest probability.
use crate::pta::PTA;
use crate::query::{known_labels, labels_below, lemma_children_below, numbered};
use crate::transition::Transition;
use crate::tree::{Shape, Tree};
use crate::weight::{prob_mul, wmul, ONE};
use vstd::prelude::*;

verus! {

/// The number of `true` entries.
pub open spec fn count_true(s: Seq<bool>) -> nat
    decreases s.len(),
{
    if s.len() == 0 {
        0
    } else {
        count_true(s.drop_last()) + if s.last() { 1nat } else { 0nat }
    }
}

/// Setting a `false` entry to `true` counts one more, and never more than the length.
proof fn lemma_count_true(s: Seq<bool>, i: int)
    requires
        0 <= i < s.len(),
        !s[i],
    ensures
        count_true(s.update(i, true)) == count_true(s) + 1,
        count_true(s) < s.len(),
    decreases s.len(),
{
    let u = s.update(i, true);
    if i == s.len() - 1 {
        assert(u.drop_last() =~= s.drop_last());
        lemma_count_bounded(s.drop_last());
    } else {
        assert(u.drop_last() =~= s.drop_last().update(i, true));
        lemma_count_true(s.drop_last(), i);
    }
}

/// At most as many `true` entries as entries.
proof fn lemma_count_bounded(s: Seq<bool>)
    ensures
        count_true(s) <= s.len(),
    decreases s.len(),
{
    if s.len() > 0 {
        lemma_count_bounded(s.drop_last());
    }
}

/// The shape of an optional tree (a leaf 0 for none).
pub open spec fn shape_of(o: Option<Tree<usize>>) -> Shape<usize> {
    match o {
        Some(t) => t@,
        None => Shape { label: 0, children: Seq::empty() },
    }
}

impl PTA {
    /// The weight of the run `run` on `t` with state `q` at the root: `run`
    /// has the shape of `t` and names, at each node, the transition used
    /// there. `None` where the transitions do not fit the tree.
    pub open spec fn run_weight_of(&self, t: Shape<usize>, run: Shape<usize>, q: int) -> Option<nat>
        decreases t, 1int, 0int,
    {
        let i = run.label as int;
        if 0 <= i < self.num_trans() && self.trans(i).symbol == t.label && self.trans(i).source_state == q
            && t.children.len() == self.trans(i).target_states@.len() && run.children.len() == t.children.len() {
            self.run_prod(t, run, self.trans(i), t.children.len() as int)
        } else {
            None
        }
    }

    /// The weight of `tr` times the weights of the runs on the first `n` children.
    pub open spec fn run_prod(&self, t: Shape<usize>, run: Shape<usize>, tr: Transition<usize, usize>, n: int) -> Option<nat>
        decreases t, 0int, n,
    {
        if n <= 0 {
            Some(tr.probability as nat)
        } else if n - 1 >= t.children.len() || n - 1 >= run.children.len() || n - 1 >= tr.target_states@.len() {
            None
        } else {
            match (
                self.run_prod(t, run, tr, n - 1),
                self.run_weight_of(t.children[n - 1], run.children[n - 1], tr.target_states@[n - 1] as int),
            ) {
                (Some(a), Some(b)) => Some(wmul(a, b)),
                _ => None,
            }
        }
    }

    /// `t` has a run with state `q` at its root and weight `p`.
    pub open spec fn derives(&self, t: Shape<usize>, q: int, p: nat) -> bool {
        exists|run: Shape<usize>| #[trigger] self.run_weight_of(t, run, q) == Some(p)
    }

    /// A run through transition `tr` has runs on its first `n` children.
    pub proof fn lemma_run_prod_children(&self, t: Shape<usize>, run: Shape<usize>, tr: Transition<usize, usize>, n: int)
        requires
            self.run_prod(t, run, tr, n) is Some,
        ensures
            forall|k: int| 0 <= k < n ==> (#[trigger] self.run_weight_of(t.children[k], run.children[k], tr.target_states@[k] as int)) is Some,
        decreases n,
    {
        if n > 0 {
            self.lemma_run_prod_children(t, run, tr, n - 1);
        }
    }

    /// No transition from an unexplored state has all its targets explored.
    pub open spec fn stuck(&self, explored: Seq<bool>) -> bool {
        forall|i: int|
            0 <= i < self.num_trans() && !explored[self.trans(i).source_state as int]
                ==> !#[trigger] self.targets_explored(self.trans(i), explored)
    }

    /// Every target state of `tr` is explored.
    pub open spec fn targets_explored(&self, tr: Transition<usize, usize>, explored: Seq<bool>) -> bool {
        forall|k: int| 0 <= k < tr.target_states@.len() ==> #[trigger] explored[tr.target_states@[k] as int]
    }

    /// Where the exploration is stuck, only explored states have runs.
    pub proof fn lemma_stuck(&self, explored: Seq<bool>, t: Shape<usize>, run: Shape<usize>, q: int)
        requires
            self.wf(),
            explored.len() == self.num_states(),
            self.stuck(explored),
            self.run_weight_of(t, run, q) is Some,
        ensures
            0 <= q < self.num_states() && explored[q],
        decreases t,
    {
        let i = run.label as int;
        let tr = self.trans(i);
        assert(self.trans_ok(tr));
        self.lemma_run_prod_children(t, run, tr, t.children.len() as int);
        assert forall|k: int| 0 <= k < tr.target_states@.len() implies #[trigger] explored[tr.target_states@[k] as int] by {
            assert(self.run_weight_of(t.children[k], run.children[k], tr.target_states@[k] as int) is Some);
            self.lemma_stuck(explored, t.children[k], run.children[k], tr.target_states@[k] as int);
        }
        assert(self.targets_explored(tr, explored));
    }

    /// `t` is a tree over the symbols with a run of weight `d` at a state `q`
    /// of non-zero root weight, and `p` is `d` times that root weight.
    pub open spec fn parse_of(&self, t: Tree<String>, p: u64) -> bool {
        &&& known_labels(t@, self.symbol_names())
        &&& exists|q: int, d: nat|
            0 <= q < self.num_states() && self.roots()[q] > 0 && #[trigger] self.derives(numbered(t@, self.symbol_names()), q, d)
                && p == wmul(d, self.roots()[q] as nat)
    }


    /// The weight of `tr` times the best probabilities `bp` of its first `k` targets.
    pub open spec fn fold_weight(&self, tr: Transition<usize, usize>, bp: Seq<u64>, k: int) -> nat
        decreases k,
    {
        if k <= 0 || k > tr.target_states@.len() {
            tr.probability as nat
        } else {
            wmul(self.fold_weight(tr, bp, k - 1), bp[tr.target_states@[k - 1] as int] as nat)
        }
    }

    /// Every run weight is a probability.
    pub proof fn lemma_run_le_one(&self, t: Shape<usize>, run: Shape<usize>, q: int)
        requires
            self.wf(),
            self.run_weight_of(t, run, q) is Some,
        ensures
            self.run_weight_of(t, run, q)->0 <= ONE,
        decreases t, 1int, 0int,
    {
        let tr = self.trans(run.label as int);
        assert(self.trans_ok(tr));
        self.lemma_run_prod_le_one(t, run, tr, t.children.len() as int);
    }

    /// A partial product along a run is a probability.
    pub proof fn lemma_run_prod_le_one(&self, t: Shape<usize>, run: Shape<usize>, tr: Transition<usize, usize>, n: int)
        requires
            self.wf(),
            self.trans_ok(tr),
            self.run_prod(t, run, tr, n) is Some,
        ensures
            self.run_prod(t, run, tr, n)->0 <= ONE,
            n > 0 ==> self.run_prod(t, run, tr, n)->0 <= self.run_prod(t, run, tr, n - 1)->0,
        decreases t, 0int, n,
    {
        if n > 0 {
            self.lemma_run_prod_le_one(t, run, tr, n - 1);
            let k = n - 1;
            self.lemma_run_le_one(t.children[k], run.children[k], tr.target_states@[k] as int);
            crate::weight::lemma_wmul_bounded(
                self.run_prod(t, run, tr, k)->0,
                self.run_weight_of(t.children[k], run.children[k], tr.target_states@[k] as int)->0,
            );
        }
    }

    /// A run is worth at most the run on any of its children.
    pub proof fn lemma_run_prod_le_child(&self, t: Shape<usize>, run: Shape<usize>, tr: Transition<usize, usize>, n: int, k: int)
        requires
            self.wf(),
            self.trans_ok(tr),
            self.run_prod(t, run, tr, n) is Some,
            0 <= k < n,
        ensures
            self.run_prod(t, run, tr, n)->0 <= self.run_weight_of(t.children[k], run.children[k], tr.target_states@[k] as int)->0,
        decreases n,
    {
        self.lemma_run_prod_le_one(t, run, tr, n);
        if k < n - 1 {
            self.lemma_run_prod_le_child(t, run, tr, n - 1, k);
        } else {
            let a = self.run_prod(t, run, tr, k)->0;
            let b = self.run_weight_of(t.children[k], run.children[k], tr.target_states@[k] as int)->0;
            self.lemma_run_prod_le_one(t, run, tr, k);
            assert(a * b == b * a) by (nonlinear_arith);
            crate::weight::lemma_wmul_bounded(b, a);
        }
    }

    /// With the targets' best probabilities at least their runs' weights, a
    /// run is worth at most the product with the best probabilities.
    pub proof fn lemma_run_prod_le_fold(&self, t: Shape<usize>, run: Shape<usize>, tr: Transition<usize, usize>, n: int, bp: Seq<u64>)
        requires
            self.wf(),
            self.trans_ok(tr),
            self.run_prod(t, run, tr, n) is Some,
            n <= tr.target_states@.len(),
            forall|k: int| 0 <= k < n ==> self.run_weight_of(t.children[k], run.children[k], tr.target_states@[k] as int)->0
                <= #[trigger] bp[tr.target_states@[k] as int],
        ensures
            self.run_prod(t, run, tr, n)->0 <= self.fold_weight(tr, bp, n),
        decreases n,
    {
        if n > 0 {
            self.lemma_run_prod_le_fold(t, run, tr, n - 1, bp);
            let k = n - 1;
            assert(self.run_weight_of(t.children[k], run.children[k], tr.target_states@[k] as int)->0 <= bp[tr.target_states@[k] as int]);
            crate::weight::lemma_wmul_monotone(
                self.run_prod(t, run, tr, k)->0,
                self.run_weight_of(t.children[k], run.children[k], tr.target_states@[k] as int)->0,
                self.fold_weight(tr, bp, k),
                bp[tr.target_states@[k] as int] as nat,
            );
        }
    }

    /// The best probabilities of explored states bound all their runs.
    pub open spec fn bounds_runs(&self, explored: Seq<bool>, bp: Seq<u64>) -> bool {
        forall|t: Shape<usize>, run: Shape<usize>, q: int|
            0 <= q < self.num_states() && explored[q] && (#[trigger] self.run_weight_of(t, run, q)) is Some
                ==> self.run_weight_of(t, run, q)->0 <= bp[q]
    }

    /// Every transition from an unexplored state whose targets are explored
    /// yields at most `v`.
    pub open spec fn frontier_below(&self, explored: Seq<bool>, bp: Seq<u64>, v: nat) -> bool {
        forall|i: int|
            0 <= i < self.num_trans() && !explored[self.trans(i).source_state as int]
                && #[trigger] self.targets_explored(self.trans(i), explored)
                ==> self.fold_weight(self.trans(i), bp, self.trans(i).target_states@.len() as int) <= v
    }

    /// Where the frontier is below `v`, every run at an unexplored state is too.
    pub proof fn lemma_frontier(&self, explored: Seq<bool>, bp: Seq<u64>, v: nat, t: Shape<usize>, run: Shape<usize>, q: int)
        requires
            self.wf(),
            explored.len() == self.num_states(),
            bp.len() == self.num_states(),
            self.bounds_runs(explored, bp),
            self.frontier_below(explored, bp, v),
            0 <= q < self.num_states(),
            !explored[q],
            self.run_weight_of(t, run, q) is Some,
        ensures
            self.run_weight_of(t, run, q)->0 <= v,
        decreases t,
    {
        let i = run.label as int;
        let tr = self.trans(i);
        assert(self.trans_ok(tr));
        let n = t.children.len() as int;
        self.lemma_run_prod_children(t, run, tr, n);
        if self.targets_explored(tr, explored) {
            assert forall|k: int| 0 <= k < n implies self.run_weight_of(t.children[k], run.children[k], tr.target_states@[k] as int)->0
                <= #[trigger] bp[tr.target_states@[k] as int] by {
                assert(explored[tr.target_states@[k] as int]);
                assert(self.run_weight_of(t.children[k], run.children[k], tr.target_states@[k] as int) is Some);
            }
            self.lemma_run_prod_le_fold(t, run, tr, n, bp);
        } else {
            let k = choose|k: int| 0 <= k < tr.target_states@.len() && !explored[tr.target_states@[k] as int];
            assert(self.run_weight_of(t.children[k], run.children[k], tr.target_states@[k] as int) is Some);
            self.lemma_frontier(explored, bp, v, t.children[k], run.children[k], tr.target_states@[k] as int);
            self.lemma_run_prod_le_child(t, run, tr, n, k);
        }
    }

    /// The weight of `tr` times the best probabilities of its targets.
    fn candidate_weight(&self, tr: &Transition<usize, usize>, best_prob: &Vec<u64>) -> (r: u64)
        requires
            self.wf(),
            self.trans_ok(*tr),
            best_prob@.len() == self.num_states(),
            forall|q: int| 0 <= q < self.num_states() ==> #[trigger] best_prob@[q] <= ONE,
        ensures
            r <= ONE,
            r == self.fold_weight(*tr, best_prob@, tr.target_states@.len() as int),
    {
        let mut pr: u64 = tr.probability;
        let mut k: usize = 0;
        while k < tr.target_states.len()
            invariant
                self.trans_ok(*tr),
                best_prob@.len() == self.num_states(),
                forall|q: int| 0 <= q < self.num_states() ==> #[trigger] best_prob@[q] <= ONE,
                k <= tr.target_states@.len(),
                pr <= ONE,
                pr == self.fold_weight(*tr, best_prob@, k as int),
            decreases tr.target_states@.len() - k,
        {
            pr = prob_mul(pr, best_prob[tr.target_states[k]]);
            k = k + 1;
        }
        pr
    }

    /// The best parse: a tree with a single run of greatest probability
    /// (times the root weight), and that probability. Round by round, each
    /// unexplored state whose transitions can already be applied to explored
    /// states gets its best such transition; the one state of highest
    /// probability among them is committed. This stops once every state with
    /// a non-zero root weight is committed, or no state can be. The answer
    /// is the committed state maximising probability times root weight.
    /// `None` exactly where no tree has a run at a state of non-zero root
    /// weight.
    pub fn best_parse(&self) -> (r: Option<(Tree<String>, u64)>)
        requires
            self.wf(),
        ensures
            r matches Some((t, p)) ==> self.parse_of(t, p),
            r matches Some((t, p)) ==> forall|u: Shape<usize>, q: int, d: nat|
                0 <= q < self.num_states() && self.roots()[q] > 0 && #[trigger] self.derives(u, q, d)
                    ==> wmul(d, self.roots()[q] as nat) <= p,
            r is None ==> forall|t: Shape<usize>, q: int, d: nat|
                0 <= q < self.num_states() && self.roots()[q] > 0 ==> !#[trigger] self.derives(t, q, d),
    {
        let nq = self.num_states_exec();
        let ntr = self.num_trans_exec();
        let nsym = self.num_symbols_exec();
        let mut explored: Vec<bool> = Vec::new();
        let mut best_prob: Vec<u64> = Vec::new();
        let mut best_trees: Vec<Option<Tree<usize>>> = Vec::new();
        let mut q: usize = 0;
        while q < nq
            invariant
                q <= nq,
                explored@.len() == q,
                best_prob@.len() == q,
                best_trees@.len() == q,
                forall|p: int| 0 <= p < q ==> !(#[trigger] explored@[p]),
                forall|p: int| 0 <= p < q ==> #[trigger] best_prob@[p] == 0,
            decreases nq - q,
        {
            explored.push(false);
            best_prob.push(0);
            best_trees.push(None);
            q = q + 1;
        }
        proof {
            lemma_count_bounded(explored@);
        }
        let ghost mut runs: Seq<Shape<usize>> = Seq::new(nq as nat, |p: int| Shape { label: 0usize, children: Seq::empty() });
        let mut done = false;
        while !done
            invariant
                self.wf(),
                nq == self.num_states(),
                ntr == self.num_trans(),
                nsym == self.rank().len(),
                explored@.len() == nq,
                best_prob@.len() == nq,
                best_trees@.len() == nq,
                runs.len() == nq,
                count_true(explored@) <= nq,
                forall|p: int| 0 <= p < nq ==> #[trigger] best_prob@[p] <= ONE,
                forall|p: int| 0 <= p < nq && #[trigger] explored@[p] ==> best_trees@[p] is Some,
                forall|p: int| 0 <= p < nq && #[trigger] explored@[p] ==> labels_below(shape_of(best_trees@[p]), nsym as nat),
                forall|p: int| 0 <= p < nq && #[trigger] explored@[p]
                    ==> self.run_weight_of(shape_of(best_trees@[p]), runs[p], p) == Some(best_prob@[p] as nat),
                done ==> self.stuck(explored@) || forall|p: int| 0 <= p < nq && #[trigger] self.roots()[p] > 0 ==> explored@[p],
                self.bounds_runs(explored@, best_prob@),
            decreases nq - count_true(explored@) + (if done { 0int } else { 1int }),
        {
            // are all root states committed?
            let mut all = true;
            let mut p: usize = 0;
            while p < nq
                invariant
                    self.wf(),
                    nq == self.num_states(),
                    explored@.len() == nq,
                    p <= nq,
                    all ==> forall|a: int| 0 <= a < p && #[trigger] self.roots()[a] > 0 ==> explored@[a],
                decreases nq - p,
            {
                let w = self.root_weight_exec(p);
                if w > 0 && !explored[p] {
                    all = false;
                }
                proof {
                    if all {
                        assert(self.roots()[p as int] > 0 ==> explored@[p as int]);
                    }
                }
                p = p + 1;
            }
            if all {
                done = true;
            } else {
                // the best applicable transition of each unexplored state
                let mut cand_prob: Vec<u64> = Vec::new();
                let mut cand_tr: Vec<Option<usize>> = Vec::new();
                let mut p: usize = 0;
                while p < nq
                    invariant
                        p <= nq,
                        cand_prob@.len() == p,
                        cand_tr@.len() == p,
                        forall|a: int| 0 <= a < p ==> #[trigger] cand_tr@[a] is None,
                    decreases nq - p,
                {
                    cand_prob.push(0);
                    cand_tr.push(None);
                    p = p + 1;
                }
                let mut i: usize = 0;
                while i < ntr
                    invariant
                        self.wf(),
                        nq == self.num_states(),
                        ntr == self.num_trans(),
                        explored@.len() == nq,
                        best_prob@.len() == nq,
                        forall|p: int| 0 <= p < nq ==> #[trigger] best_prob@[p] <= ONE,
                        i <= ntr,
                        cand_prob@.len() == nq,
                        cand_tr@.len() == nq,
                        forall|a: int| 0 <= a < nq ==> (#[trigger] cand_tr@[a] matches Some(c) ==> c < ntr
                            && self.trans(c as int).source_state == a && !explored@[a]
                            && self.targets_explored(self.trans(c as int), explored@)),
                        forall|c: int| 0 <= c < i && !explored@[self.trans(c).source_state as int]
                            && #[trigger] self.targets_explored(self.trans(c), explored@)
                            ==> cand_tr@[self.trans(c).source_state as int] is Some
                                && self.fold_weight(self.trans(c), best_prob@, self.trans(c).target_states@.len() as int)
                                    <= cand_prob@[self.trans(c).source_state as int],
                        forall|a: int| 0 <= a < nq ==> (#[trigger] cand_tr@[a] matches Some(c)
                            ==> cand_prob@[a] == self.fold_weight(self.trans(c as int), best_prob@, self.trans(c as int).target_states@.len() as int)),
                    decreases ntr - i,
                {
                    let tr = self.trans_exec(i);
                    proof {
                        assert(self.trans_ok(*tr));
                    }
                    let src = tr.source_state;
                    let ghost old_cand = cand_tr@;
                    let ghost old_prob = cand_prob@;
                    if !explored[src] {
                        let mut ok = true;
                        let mut k: usize = 0;
                        while k < tr.target_states.len()
                            invariant
                                self.trans_ok(*tr),
                                nq == self.num_states(),
                                explored@.len() == nq,
                                k <= tr.target_states@.len(),
                                ok == forall|m: int| 0 <= m < k ==> #[trigger] explored@[tr.target_states@[m] as int],
                            decreases tr.target_states@.len() - k,
                        {
                            if !explored[tr.target_states[k]] {
                                ok = false;
                            }
                            k = k + 1;
                        }
                        if ok {
                            let pr = self.candidate_weight(tr, &best_prob);
                            let better = match cand_tr[src] {
                                None => true,
                                Some(_) => pr > cand_prob[src],
                            };
                            if better {
                                cand_prob.set(src, pr);
                                cand_tr.set(src, Some(i));
                            }
                            assert(cand_tr@[src as int] is Some);
                        } else {
                            assert(!self.targets_explored(self.trans(i as int), explored@));
                        }
                    }
                    proof {
                        assert forall|a: int| 0 <= a < nq && (#[trigger] old_cand[a]) is Some implies cand_tr@[a] is Some by {
                            if a == src {
                            }
                        }
                        assert forall|c: int| 0 <= c < i + 1 && !explored@[self.trans(c).source_state as int]
                            && #[trigger] self.targets_explored(self.trans(c), explored@)
                            implies cand_tr@[self.trans(c).source_state as int] is Some
                                && self.fold_weight(self.trans(c), best_prob@, self.trans(c).target_states@.len() as int)
                                    <= cand_prob@[self.trans(c).source_state as int] by {
                            assert(self.trans_ok(self.trans(c)));
                            if c < i {
                                assert(old_cand[self.trans(c).source_state as int] is Some);
                                assert(old_prob[self.trans(c).source_state as int] <= cand_prob@[self.trans(c).source_state as int]);
                            }
                        }
                        assert forall|a: int| 0 <= a < nq implies (#[trigger] cand_tr@[a] matches Some(c)
                            ==> cand_prob@[a] == self.fold_weight(self.trans(c as int), best_prob@, self.trans(c as int).target_states@.len() as int)) by {
                            if a != src {
                                assert(cand_tr@[a] == old_cand[a] && cand_prob@[a] == old_prob[a]);
                            }
                        }
                    }
                    i = i + 1;
                }
                // commit the candidate of highest probability
                let mut pick: Option<usize> = None;
                let mut p: usize = 0;
                while p < nq
                    invariant
                        p <= nq,
                        cand_prob@.len() == nq,
                        cand_tr@.len() == nq,
                        pick matches Some(a) ==> a < nq && cand_tr@[a as int] is Some,
                        forall|a: int| 0 <= a < nq ==> (#[trigger] cand_tr@[a] matches Some(c) ==> c < ntr
                            && self.trans(c as int).source_state == a && !explored@[a]
                            && self.targets_explored(self.trans(c as int), explored@)),
                        forall|c: int| 0 <= c < ntr && !explored@[self.trans(c).source_state as int]
                            && #[trigger] self.targets_explored(self.trans(c), explored@)
                            ==> cand_tr@[self.trans(c).source_state as int] is Some,
                        pick is None ==> forall|a: int| 0 <= a < p ==> #[trigger] cand_tr@[a] is None,
                        pick matches Some(a) ==> forall|b: int| 0 <= b < p && (#[trigger] cand_tr@[b]) is Some ==> cand_prob@[b] <= cand_prob@[a as int],
                        forall|c: int| 0 <= c < ntr && !explored@[self.trans(c).source_state as int]
                            && #[trigger] self.targets_explored(self.trans(c), explored@)
                            ==> self.fold_weight(self.trans(c), best_prob@, self.trans(c).target_states@.len() as int)
                                    <= cand_prob@[self.trans(c).source_state as int],
                        forall|a: int| 0 <= a < nq ==> (#[trigger] cand_tr@[a] matches Some(c)
                            ==> cand_prob@[a] == self.fold_weight(self.trans(c as int), best_prob@, self.trans(c as int).target_states@.len() as int)),
                    decreases nq - p,
                {
                    if cand_tr[p].is_some() {
                        let better = match pick {
                            None => true,
                            Some(a) => cand_prob[p] > cand_prob[a],
                        };
                        if better {
                            pick = Some(p);
                        }
                    }
                    p = p + 1;
                }
                match pick {
                    None => {
                        proof {
                            assert forall|c: int|
                                0 <= c < self.num_trans() && !explored@[self.trans(c).source_state as int]
                                implies !#[trigger] self.targets_explored(self.trans(c), explored@) by {
                                assert(self.trans_ok(self.trans(c)));
                                assert(cand_tr@[self.trans(c).source_state as int] is None);
                            }
                        }
                        done = true;
                    },
                    Some(q) => {
                        let i = match cand_tr[q] {
                            Some(i) => i,
                            None => 0,
                        };
                        let tr = self.trans_exec(i);
                        let ghost v = cand_prob@[q as int] as nat;
                        let ghost e0 = explored@;
                        let ghost bp0 = best_prob@;
                        proof {
                            assert(self.trans_ok(*tr));
                            assert(v == self.fold_weight(*tr, best_prob@, tr.target_states@.len() as int));
                            assert forall|c: int|
                                0 <= c < self.num_trans() && !explored@[self.trans(c).source_state as int]
                                    && #[trigger] self.targets_explored(self.trans(c), explored@)
                                implies self.fold_weight(self.trans(c), best_prob@, self.trans(c).target_states@.len() as int) <= v by {
                                assert(self.trans_ok(self.trans(c)));
                                let b = self.trans(c).source_state as int;
                                assert(cand_tr@[b] is Some);
                            }
                            assert(self.frontier_below(explored@, best_prob@, v));
                        }
                        let ghost len = tr.target_states@.len();
                        let ghost t_shape = Shape {
                            label: tr.symbol,
                            children: Seq::new(len, |k: int| shape_of(best_trees@[tr.target_states@[k] as int])),
                        };
                        let ghost run = Shape {
                            label: i,
                            children: Seq::new(len, |k: int| runs[tr.target_states@[k] as int]),
                        };
                        let mut children: Vec<Tree<usize>> = Vec::new();
                        let mut pr: u64 = tr.probability;
                        let mut k: usize = 0;
                        while k < tr.target_states.len()
                            invariant
                                self.wf(),
                                nq == self.num_states(),
                                nsym == self.rank().len(),
                                self.trans_ok(*tr),
                                len == tr.target_states@.len(),
                                self.targets_explored(*tr, explored@),
                                explored@.len() == nq,
                                best_prob@.len() == nq,
                                best_trees@.len() == nq,
                                runs.len() == nq,
                                forall|p: int| 0 <= p < nq ==> #[trigger] best_prob@[p] <= ONE,
                                forall|p: int| 0 <= p < nq && #[trigger] explored@[p] ==> best_trees@[p] is Some,
                                forall|p: int| 0 <= p < nq && #[trigger] explored@[p]
                                    ==> self.run_weight_of(shape_of(best_trees@[p]), runs[p], p) == Some(best_prob@[p] as nat),
                                t_shape.children.len() == len,
                                run.children.len() == len,
                                forall|m: int| 0 <= m < len ==> #[trigger] t_shape.children[m] == shape_of(best_trees@[tr.target_states@[m] as int]),
                                forall|m: int| 0 <= m < len ==> #[trigger] run.children[m] == runs[tr.target_states@[m] as int],
                                k <= len,
                                children@.len() == k,
                                forall|m: int| 0 <= m < k ==> #[trigger] children@[m]@ == t_shape.children[m],
                                self.run_prod(t_shape, run, *tr, k as int) == Some(pr as nat),
                                pr == self.fold_weight(*tr, best_prob@, k as int),
                                pr <= ONE,
                            decreases len - k,
                        {
                            let target = tr.target_states[k];
                            proof {
                                assert(explored@[target as int]);
                            }
                            let c = match &best_trees[target] {
                                Some(t) => t.copy(),
                                None => Tree::new(0),
                            };
                            children.push(c);
                            pr = prob_mul(pr, best_prob[target]);
                            k = k + 1;
                        }
                        let t = Tree::new_with_children(tr.symbol, children);
                        proof {
                            assert(t@.children =~= t_shape.children);
                            assert(t@ == t_shape);
                            assert forall|m: int| 0 <= m < t_shape.children.len() implies #[trigger] labels_below(t_shape.children[m], nsym as nat) by {
                                assert(explored@[tr.target_states@[m] as int]);
                            }
                            lemma_children_below(t_shape, nsym as nat, len as int);
                            assert(self.run_weight_of(t_shape, run, q as int) == Some(pr as nat));
                            lemma_count_true(explored@, q as int);
                        }
                        best_trees.set(q, Some(t));
                        best_prob.set(q, pr);
                        explored.set(q, true);
                        proof {
                            runs = runs.update(q as int, run);
                            assert forall|t: Shape<usize>, rn: Shape<usize>, x: int|
                                0 <= x < self.num_states() && explored@[x] && (#[trigger] self.run_weight_of(t, rn, x)) is Some
                                implies self.run_weight_of(t, rn, x)->0 <= best_prob@[x] by {
                                if x == q {
                                    self.lemma_frontier(e0, bp0, v, t, rn, x);
                                } else {
                                    assert(e0[x] && bp0[x] == best_prob@[x]);
                                }
                            }
                        }
                    },
                }
            }
        }
        // the committed root state of greatest probability times root weight
        let mut pick: Option<usize> = None;
        let mut pick_v: u64 = 0;
        let mut q: usize = 0;
        while q < nq
            invariant
                self.wf(),
                nq == self.num_states(),
                q <= nq,
                explored@.len() == nq,
                best_prob@.len() == nq,
                forall|p: int| 0 <= p < nq ==> #[trigger] best_prob@[p] <= ONE,
                pick matches Some(a) ==> a < nq && explored@[a as int] && self.roots()[a as int] > 0
                    && pick_v == wmul(best_prob@[a as int] as nat, self.roots()[a as int] as nat),
                pick is None ==> forall|a: int| 0 <= a < q ==> !(#[trigger] explored@[a] && self.roots()[a] > 0),
                pick is Some ==> forall|b: int| 0 <= b < q && #[trigger] explored@[b] && self.roots()[b] > 0
                    ==> wmul(best_prob@[b] as nat, self.roots()[b] as nat) <= pick_v,
            decreases nq - q,
        {
            if explored[q] {
                let w = self.root_weight_exec(q);
                if w > 0 {
                    let v = prob_mul(best_prob[q], w);
                    let better = match pick {
                        None => true,
                        Some(_) => v > pick_v,
                    };
                    if better {
                        pick = Some(q);
                        pick_v = v;
                    }
                }
            }
            q = q + 1;
        }
        match pick {
            Some(a) => {
                let names = match &best_trees[a] {
                    Some(t) => self.to_names(t),
                    None => Tree::new(String::new()),
                };
                proof {
                    let t_ids = shape_of(best_trees@[a as int]);
                    assert(self.run_weight_of(t_ids, runs[a as int], a as int) == Some(best_prob@[a as int] as nat));
                    assert(best_trees@[a as int] is Some);
                    assert(numbered(names@, self.symbol_names()) == t_ids);
                    assert(self.derives(numbered(names@, self.symbol_names()), a as int, best_prob@[a as int] as nat));
                    assert(known_labels(names@, self.symbol_names()));
                    assert(pick_v == wmul(best_prob@[a as int] as nat, self.roots()[a as int] as nat));
                    assert(0 <= a < self.num_states() && self.roots()[a as int] > 0);
                    assert(self.parse_of(names, pick_v));
                    assert forall|u: Shape<usize>, x: int, d: nat|
                        0 <= x < self.num_states() && self.roots()[x] > 0 && #[trigger] self.derives(u, x, d)
                        implies wmul(d, self.roots()[x] as nat) <= pick_v by {
                        let rn = choose|rn: Shape<usize>| #[trigger] self.run_weight_of(u, rn, x) == Some(d);
                        if !explored@[x] {
                            if self.stuck(explored@) {
                                self.lemma_stuck(explored@, u, rn, x);
                            }
                        }
                        assert(explored@[x]);
                        assert(d <= best_prob@[x]);
                        crate::weight::lemma_wmul_monotone(d, self.roots()[x] as nat, best_prob@[x] as nat, self.roots()[x] as nat);
                    }
                }
                Some((names, pick_v))
            },
            None => {
                proof {
                    assert forall|t: Shape<usize>, q: int, d: nat|
                        0 <= q < self.num_states() && self.roots()[q] > 0 implies !#[trigger] self.derives(t, q, d) by {
                        if self.derives(t, q, d) {
                            let run = choose|run: Shape<usize>| #[trigger] self.run_weight_of(t, run, q) == Some(d);
                            if self.stuck(explored@) {
                                self.lemma_stuck(explored@, t, run, q);
                            }
                            assert(explored@[q]);
                        }
                    }
                }
                None
            },
        }
    }
}

} // verus!
