//! The most-probable-tree search: best-first branch and bound over trees
//! with holes, ordered by potential probability.
use crate::evaluate::RunTree;
use crate::pta::{PtaError, PTA};
use crate::laws::{bound_admissible, extends, lemma_complete_extension, lemma_fill_toward, lemma_leaf_extends, lemma_potential_bounds_extension};
use crate::query::{known_labels, labels_below, lemma_children_below, lemma_fill_labels, numbered};
use crate::tree::{fill, height, is_complete, lemma_fill_height, leaf, Shape, Tree};
use crate::weight::ONE;
use priority_queue::PriorityQueue;
use std::collections::hash_map::RandomState;
use vstd::prelude::*;

verus! {

#[verifier::external_type_specification]
#[verifier::external_body]
#[verifier::reject_recursive_types(I)]
#[verifier::reject_recursive_types(P)]
#[verifier::reject_recursive_types(H)]
pub struct ExPriorityQueue<I, P, H>(PriorityQueue<I, P, H>);

/// The items of a priority queue, each with its priority.
pub uninterp spec fn queue_items(q: PriorityQueue<usize, u64, RandomState>) -> Map<usize, u64>;

/// Relies on `PriorityQueue::new`: the new queue holds no item.
#[verifier::external_body]
fn queue_new() -> (r: PriorityQueue<usize, u64, RandomState>)
    ensures
        queue_items(r).dom().is_empty(),
{
    PriorityQueue::new()
}

/// Relies on `PriorityQueue::push`: the item is stored with the priority
/// (an item that was there already gets the new priority).
#[verifier::external_body]
fn queue_push(q: &mut PriorityQueue<usize, u64, RandomState>, item: usize, priority: u64)
    ensures
        queue_items(*final(q)) == queue_items(*old(q)).insert(item, priority),
{
    q.push(item, priority);
}

/// Relies on `PriorityQueue::pop`: removes and returns an item of greatest
/// priority with its priority, or `None` when the queue is empty.
#[verifier::external_body]
fn queue_pop(q: &mut PriorityQueue<usize, u64, RandomState>) -> (r: Option<(usize, u64)>)
    ensures
        r is None ==> queue_items(*old(q)).dom().is_empty() && queue_items(*final(q)) == queue_items(*old(q)),
        r matches Some((i, p)) ==> {
            &&& queue_items(*old(q)).contains_key(i)
            &&& queue_items(*old(q))[i] == p
            &&& forall|j: usize| #[trigger] queue_items(*old(q)).contains_key(j) ==> queue_items(*old(q))[j] <= p
            &&& queue_items(*final(q)) == queue_items(*old(q)).remove(i)
        },
{
    q.pop()
}

/// Relies on `PriorityQueue::peek`: some queued item, or `None` when the
/// queue is empty.
#[verifier::external_body]
fn queue_peek(q: &PriorityQueue<usize, u64, RandomState>) -> (r: Option<usize>)
    ensures
        r is None ==> queue_items(*q).dom().is_empty(),
        r matches Some(i) ==> queue_items(*q).contains_key(i),
{
    q.peek().map(|(i, _)| *i)
}

/// A state of the search: the queued items with their bounds, the trees
/// inserted so far (by number), and the best complete tree found with its
/// probability.
pub struct SearchState {
    pub items: Map<usize, u64>,
    pub arena: Seq<Shape<usize>>,
    pub cp: nat,
    pub best: Shape<usize>,
}

/// What one popped item leads to: the next state, or a failure.
pub enum SearchStep {
    Next(SearchState),
    Fail,
}

/// The shapes of a list of trees.
pub open spec fn shapes_of(a: Seq<Tree<usize>>) -> Seq<Shape<usize>> {
    a.map_values(|t: Tree<usize>| t@)
}

impl PTA {
    /// The seeded search: one single-node tree per symbol, queued with its
    /// bound, nothing found yet, any seed as the best so far.
    pub open spec fn search_start(&self, st: SearchState) -> bool {
        let n = self.rank().len();
        &&& st.arena == Seq::new(n, |k: int| leaf(k as usize))
        &&& st.items == Map::new(|k: usize| k < n, |k: usize| self.tree_potential(leaf(k)) as u64)
        &&& st.cp == 0
        &&& exists|k: usize| k < n && st.best == #[trigger] leaf(k)
    }

    /// `i` may be popped: it is queued with the greatest bound.
    pub open spec fn can_pop(&self, st: SearchState, i: usize) -> bool {
        &&& st.items.contains_key(i)
        &&& forall|j: usize| #[trigger] st.items.contains_key(j) ==> st.items[j] <= st.items[i]
    }

    /// The search is over: the queue is empty, or its greatest bound does
    /// not exceed the best probability found.
    pub open spec fn search_over(&self, st: SearchState) -> bool {
        st.items.dom().is_empty() || exists|i: usize| #[trigger] self.can_pop(st, i) && st.items[i] <= st.cp
    }

    /// Extending `a` at its first hole with the symbols from `s` on: an
    /// extension whose bound exceeds the best probability is queued under
    /// the next number; with `max_insertions` trees inserted already, that
    /// fails.
    pub open spec fn expand(&self, st: SearchState, a: Shape<usize>, s: int, max_insertions: nat) -> SearchStep
        decreases self.rank().len() - s,
    {
        if s < 0 || s >= self.rank().len() {
            SearchStep::Next(st)
        } else {
            let x = fill(a, s as usize, self.rank());
            let pp = self.tree_potential(x);
            if pp > st.cp {
                if st.arena.len() >= max_insertions {
                    SearchStep::Fail
                } else {
                    self.expand(
                        SearchState { items: st.items.insert(st.arena.len() as usize, pp as u64), arena: st.arena.push(x), ..st },
                        a, s + 1, max_insertions,
                    )
                }
            } else {
                self.expand(st, a, s + 1, max_insertions)
            }
        }
    }

    /// Popping item `i` (whose bound exceeds the best probability): a
    /// complete tree is evaluated, and becomes the best where it is more
    /// probable; a tree with holes is extended by every symbol (a tree as
    /// high as a `usize` can nearly count fails instead).
    pub open spec fn after_pop(&self, st: SearchState, i: usize, max_insertions: nat) -> SearchStep {
        let rest = SearchState { items: st.items.remove(i), ..st };
        let a = st.arena[i as int];
        if is_complete(a, self.rank()) {
            let p = self.tree_probability(a);
            if p > st.cp {
                SearchStep::Next(SearchState { cp: p, best: a, ..rest })
            } else {
                SearchStep::Next(rest)
            }
        } else if height(a) >= usize::MAX - 2 {
            SearchStep::Fail
        } else {
            self.expand(rest, a, 0, max_insertions)
        }
    }

    /// `next` follows `st` by popping an item of greatest bound.
    pub open spec fn search_step(&self, st: SearchState, next: SearchState, max_insertions: nat) -> bool {
        exists|i: usize| #[trigger] self.can_pop(st, i) && st.items[i] > st.cp
            && self.after_pop(st, i, max_insertions) == SearchStep::Next(next)
    }

    /// A run of the search: the seeded state, then one step after another.
    pub open spec fn search_run(&self, trace: Seq<SearchState>, max_insertions: nat) -> bool {
        &&& trace.len() >= 1
        &&& self.search_start(trace[0])
        &&& forall|k: int| 0 <= k < trace.len() - 1 ==> #[trigger] self.search_step(trace[k], trace[k + 1], max_insertions)
    }

    /// A run followed by one more step is a run.
    pub proof fn lemma_run_push(&self, trace: Seq<SearchState>, next: SearchState, max_insertions: nat)
        requires
            self.search_run(trace, max_insertions),
            self.search_step(trace.last(), next, max_insertions),
        ensures
            self.search_run(trace.push(next), max_insertions),
            trace.push(next).last() == next,
    {
        let t2 = trace.push(next);
        assert forall|k: int| 0 <= k < t2.len() - 1 implies #[trigger] self.search_step(t2[k], t2[k + 1], max_insertions) by {
            if k < trace.len() - 1 {
                assert(t2[k] == trace[k] && t2[k + 1] == trace[k + 1]);
                assert(self.search_step(trace[k], trace[k + 1], max_insertions));
            } else {
                assert(t2[k] == trace.last());
            }
        }
    }

    /// The search fails after a run: more symbols than the ceiling allows,
    /// or some run reaches a state where popping an item of greatest bound
    /// fails.
    pub open spec fn search_fails(&self, max_insertions: nat) -> bool {
        self.rank().len() > max_insertions || exists|trace: Seq<SearchState>, i: usize|
            #[trigger] self.search_run(trace, max_insertions) && #[trigger] self.can_pop(trace.last(), i)
                && trace.last().items[i] > trace.last().cp
                && self.after_pop(trace.last(), i, max_insertions) == SearchStep::Fail
    }
}

/// Some queued tree is extended by `u`.
pub open spec fn covered(items: Map<usize, u64>, arena: Seq<Tree<usize>>, u: Shape<usize>) -> bool {
    exists|k: usize| items.contains_key(k) && k < arena.len() && #[trigger] extends(arena[k as int]@, u)
}

/// The insertion ceiling of `most_probable_tree`.
pub const MAX_INSERTIONS: usize = 20_000_000;

/// Removing a present key shrinks a finite map by one.
proof fn lemma_remove_len(m: Map<usize, u64>, k: usize)
    requires
        m.dom().finite(),
        m.contains_key(k),
    ensures
        m.remove(k).dom().len() == m.dom().len() - 1,
        m.remove(k).dom().finite(),
{
    assert(m.remove(k).dom() =~= m.dom().remove(k));
}

impl PTA {
    /// The most probable tree, its probability and the number of trees
    /// inserted into the queue, searching with at most 20 000 000 insertions.
    pub fn most_probable_tree(&self) -> (r: Result<(Tree<String>, u64, usize), PtaError>)
        requires
            self.wf(),
        ensures
            r matches Ok((t, p, n)) ==> self.search_result(t, p, n, MAX_INSERTIONS),
            r matches Ok((t, p, n)) ==> (bound_admissible(self) ==> forall|u: Shape<usize>|
                labels_below(u, self.rank().len()) && is_complete(u, self.rank()) ==> #[trigger] self.tree_probability(u) <= p),
            r matches Err(e) ==> e == PtaError::SearchBudgetExceeded,
            r matches Ok((t, p, n)) ==> exists|trace: Seq<SearchState>| #[trigger] self.search_run(trace, MAX_INSERTIONS as nat)
                && self.search_over(trace.last()) && trace.last().best == numbered(t@, self.symbol_names())
                && trace.last().cp == p && trace.last().arena.len() == n,
            r is Err ==> self.search_fails(MAX_INSERTIONS as nat),
    {
        self.most_probable_tree_bounded(MAX_INSERTIONS)
    }

    /// `u` is a complete tree over the symbols more probable than `p`.
    pub open spec fn beats(&self, u: Shape<usize>, p: nat) -> bool {
        labels_below(u, self.rank().len()) && is_complete(u, self.rank()) && self.tree_probability(u) > p
    }

    /// What a finished search returns: a tree over the symbols; a
    /// probability that is 0 (no complete tree beat 0) or that of the tree,
    /// which is then complete; and an insertion count within the ceiling.
    pub open spec fn search_result(&self, t: Tree<String>, p: u64, n: usize, max_insertions: usize) -> bool {
        &&& known_labels(t@, self.symbol_names())
        &&& labels_below(numbered(t@, self.symbol_names()), self.rank().len())
        &&& p <= ONE
        &&& p > 0 ==> is_complete(numbered(t@, self.symbol_names()), self.rank())
            && p == self.tree_probability(numbered(t@, self.symbol_names()))
        &&& n <= max_insertions
    }

    /// The most-probable-tree search with a given insertion ceiling. Seeds
    /// the queue with one single-node tree per symbol; then pops the tree of
    /// highest bound: stops when the bound does not exceed the best
    /// probability found; evaluates a complete tree exactly; extends a tree
    /// with holes by every symbol at its first hole, queueing each extension
    /// whose bound exceeds the best probability found. Every queued tree,
    /// seeds included, counts as an insertion; the search fails with
    /// `SearchBudgetExceeded` where one more insertion would pass
    /// `max_insertions` (or a tree grows as high as a `usize` can nearly
    /// count). The result is that of a run of this search as `search_run`
    /// states it, which leaves open only which of two equal bounds is popped
    /// first. Where the height bound is admissible (`bound_admissible`), no
    /// complete tree is more probable than the result.
    pub fn most_probable_tree_bounded(&self, max_insertions: usize) -> (r: Result<(Tree<String>, u64, usize), PtaError>)
        requires
            self.wf(),
        ensures
            r matches Ok((t, p, n)) ==> self.search_result(t, p, n, max_insertions),
            r matches Ok((t, p, n)) ==> (bound_admissible(self) ==> forall|u: Shape<usize>|
                labels_below(u, self.rank().len()) && is_complete(u, self.rank()) ==> #[trigger] self.tree_probability(u) <= p),
            r matches Err(e) ==> e == PtaError::SearchBudgetExceeded,
            r matches Ok((t, p, n)) ==> exists|trace: Seq<SearchState>| #[trigger] self.search_run(trace, max_insertions as nat)
                && self.search_over(trace.last()) && trace.last().best == numbered(t@, self.symbol_names())
                && trace.last().cp == p && trace.last().arena.len() == n,
            r is Err ==> self.search_fails(max_insertions as nat),
    {
        let nsym = self.num_symbols_exec();
        let sigma = self.rank_exec();
        let mut queue = queue_new();
        let mut arena: Vec<Tree<usize>> = Vec::new();
        // the prefix-mode weight vectors of each queued tree, node by node
        let mut runs: Vec<RunTree> = Vec::new();
        let mut insertion_count: usize = 0;
        if nsym > max_insertions {
            return Err(PtaError::SearchBudgetExceeded);
        }
        // one single-node tree per symbol
        let mut s: usize = 0;
        while s < nsym
            invariant
                self.wf(),
                nsym == self.rank().len(),
                s <= nsym,
                arena@.len() == s,
                runs@.len() == s,
                forall|k: int| 0 <= k < arena@.len() ==> self.caches(#[trigger] arena@[k]@, runs@[k], true),
                insertion_count == s,
                queue_items(queue).dom().finite(),
                queue_items(queue).dom().len() == s,
                forall|k: usize| #[trigger] queue_items(queue).contains_key(k) ==> k < arena@.len(),
                forall|k: int| 0 <= k < arena@.len() ==> height(#[trigger] arena@[k]@) < usize::MAX - 1,
                forall|k: int| 0 <= k < arena@.len() ==> labels_below(#[trigger] arena@[k]@, nsym as nat),
                forall|k: usize| k < s ==> #[trigger] queue_items(queue).contains_key(k),
                forall|k: int| 0 <= k < s ==> #[trigger] arena@[k]@ == leaf(k as usize),
                forall|k: usize| #[trigger] queue_items(queue).contains_key(k) ==> queue_items(queue)[k] == self.tree_potential(arena@[k as int]@),
                shapes_of(arena@) == Seq::new(s as nat, |k: int| leaf(k as usize)),
                queue_items(queue) == Map::new(|k: usize| k < s, |k: usize| self.tree_potential(leaf(k)) as u64),
                nsym <= max_insertions,
            decreases nsym - s,
        {
            let xi = Tree::new(s);
            proof {
                assert(height(xi@) == 1);
                assert(labels_below(xi@, nsym as nat));
            }
            let c = self.run_tree(&xi, true);
            let pp = self.potential_from_run(&c.run, 1, Ghost(xi@));
            proof {
                assert(!queue_items(queue).contains_key(arena@.len() as usize));
            }
            let ghost old_arena = arena@;
            let ghost old_items = queue_items(queue);
            queue_push(&mut queue, arena.len(), pp);
            arena.push(xi);
            runs.push(c);
            insertion_count = insertion_count + 1;
            proof {
                assert(shapes_of(arena@) =~= shapes_of(old_arena).push(leaf(s)));
                assert(shapes_of(arena@) =~= Seq::new((s + 1) as nat, |k: int| leaf(k as usize)));
                assert(queue_items(queue) =~= Map::new(|k: usize| k < s + 1, |k: usize| self.tree_potential(leaf(k)) as u64));
            }
            s = s + 1;
        }
        let ghost mut k0: usize = 0;
        let mut current_best: Tree<usize> = match queue_peek(&queue) {
            Some(i) => {
                proof {
                    k0 = i;
                }
                arena[i].copy()
            },
            None => Tree::new(0),
        };
        proof {
            assert(labels_below(leaf(0usize), nsym as nat));
        }
        let mut current_prob: u64 = 0;
        let ghost mut trace: Seq<SearchState> = seq![SearchState {
            items: queue_items(queue),
            arena: shapes_of(arena@),
            cp: 0,
            best: current_best@,
        }];
        proof {
            assert(k0 < nsym && current_best@ == leaf(k0));
            assert(self.search_start(trace[0]));
            assert(self.search_run(trace, max_insertions as nat));
        }
        proof {
            assert forall|u: Shape<usize>| #[trigger] self.beats(u, current_prob as nat)
                implies covered(queue_items(queue), arena@, u) by {
                lemma_children_below(u, nsym as nat, u.children.len() as int);
                lemma_leaf_extends(u);
                let k = u.label;
                assert(arena@[k as int]@ == leaf(k));
                assert(queue_items(queue).contains_key(k));
            }
        }
        let ghost limit: int = max_insertions as int;
        let mut done = false;
        while !done
            invariant
                self.wf(),
                nsym == self.rank().len(),
                sigma@ == self.rank(),
                arena@.len() == insertion_count,
                runs@.len() == insertion_count,
                forall|k: int| 0 <= k < arena@.len() ==> self.caches(#[trigger] arena@[k]@, runs@[k], true),
                insertion_count <= limit,
                limit == max_insertions,
                queue_items(queue).dom().finite(),
                forall|k: usize| #[trigger] queue_items(queue).contains_key(k) ==> k < arena@.len(),
                forall|k: int| 0 <= k < arena@.len() ==> height(#[trigger] arena@[k]@) < usize::MAX - 1,
                forall|k: int| 0 <= k < arena@.len() ==> labels_below(#[trigger] arena@[k]@, nsym as nat),
                labels_below(current_best@, nsym as nat),
                current_prob <= ONE,
                current_prob > 0 ==> is_complete(current_best@, self.rank())
                    && current_prob == self.tree_probability(current_best@),
                forall|k: usize| #[trigger] queue_items(queue).contains_key(k) ==> queue_items(queue)[k] == self.tree_potential(arena@[k as int]@),
                !done ==> (bound_admissible(self) ==> forall|u: Shape<usize>|
                    #[trigger] self.beats(u, current_prob as nat) ==> covered(queue_items(queue), arena@, u)),
                done ==> (bound_admissible(self) ==> forall|u: Shape<usize>| !(#[trigger] self.beats(u, current_prob as nat))),
                nsym <= max_insertions,
                self.search_run(trace, max_insertions as nat),
                trace.last().arena == shapes_of(arena@),
                trace.last().cp == current_prob,
                trace.last().best == current_best@,
                !done ==> trace.last().items == queue_items(queue),
                done ==> self.search_over(trace.last()),
            decreases 2 * (limit + 1 - insertion_count) + queue_items(queue).dom().len() + (if done { 0int } else { 1int }),
        {
            let ghost before = queue_items(queue);
            match queue_pop(&mut queue) {
                None => {
                    proof {
                        assert(trace.last().items.dom().is_empty());
                        if bound_admissible(self) {
                            assert forall|u: Shape<usize>| !(#[trigger] self.beats(u, current_prob as nat)) by {
                                if self.beats(u, current_prob as nat) {
                                    assert(covered(before, arena@, u));
                                    let k = choose|k: usize| before.contains_key(k) && k < arena@.len() && #[trigger] extends(arena@[k as int]@, u);
                                    assert(before.dom().contains(k));
                                }
                            }
                        }
                    }
                    done = true;
                },
                Some((i, bound)) => {
                    proof {
                        lemma_remove_len(before, i);
                    }
                    if bound <= current_prob {
                        // no queued tree, nor any extension of one, can do better
                        proof {
                            assert(self.can_pop(trace.last(), i));
                            assert(trace.last().items[i] <= trace.last().cp);
                            if bound_admissible(self) {
                                assert forall|u: Shape<usize>| !(#[trigger] self.beats(u, current_prob as nat)) by {
                                    if self.beats(u, current_prob as nat) {
                                        assert(covered(before, arena@, u));
                                        let k = choose|k: usize| before.contains_key(k) && k < arena@.len() && #[trigger] extends(arena@[k as int]@, u);
                                        lemma_potential_bounds_extension(self, arena@[k as int]@, u);
                                        assert(before[k] <= bound);
                                    }
                                }
                            }
                        }
                        done = true;
                    } else {
                        let xi = arena[i].copy();
                        let ghost old_prob = current_prob;
                        let ci = self.copy_runs(&runs[i], Ghost(xi@), true);
                        match xi.hole_depth(&sigma) {
                            None => {
                                let p = self.probability_ids(&xi);
                                let ghost xv = xi@;
                                if p > current_prob {
                                    current_best = xi;
                                    current_prob = p;
                                }
                                proof {
                                    let st = trace.last();
                                    assert(st.arena[i as int] == xv);
                                    assert(self.can_pop(st, i));
                                    let next = SearchState { items: queue_items(queue), arena: shapes_of(arena@), cp: current_prob as nat, best: current_best@ };
                                    assert(self.after_pop(st, i, max_insertions as nat) == SearchStep::Next(next));
                                    assert(self.search_step(st, next, max_insertions as nat));
                                    self.lemma_run_push(trace, next, max_insertions as nat);
                                    trace = trace.push(next);
                                }
                                proof {
                                    if bound_admissible(self) {
                                        assert forall|u: Shape<usize>| #[trigger] self.beats(u, current_prob as nat)
                                            implies covered(queue_items(queue), arena@, u) by {
                                            assert(self.beats(u, old_prob as nat));
                                            assert(covered(before, arena@, u));
                                            let k = choose|k: usize| before.contains_key(k) && k < arena@.len() && #[trigger] extends(arena@[k as int]@, u);
                                            if k == i {
                                                lemma_complete_extension(self, xv, u);
                                            } else {
                                                assert(queue_items(queue).contains_key(k));
                                            }
                                        }
                                    }
                                }
                            },
                            Some(_) => {
                                let h = xi.get_height();
                                proof {
                                    let st = trace.last();
                                    assert(st.arena[i as int] == xi@);
                                    assert(self.can_pop(st, i));
                                    assert(!is_complete(xi@, self.rank()));
                                }
                                if h >= usize::MAX - 2 {
                                    proof {
                                        assert(self.after_pop(trace.last(), i, max_insertions as nat) == SearchStep::Fail);
                                        assert(self.search_run(trace, max_insertions as nat));
                                        assert(self.can_pop(trace.last(), i));
                                        assert(before[i] == self.tree_potential(xi@));
                                        assert(self.tree_potential(xi@) > 0);
                                    }
                                    return Err(PtaError::SearchBudgetExceeded);
                                }
                                let ghost m0 = 2 * (limit + 1 - insertion_count) + queue_items(queue).dom().len();
                                proof {
                                    if bound_admissible(self) {
                                        assert forall|u: Shape<usize>| #[trigger] self.beats(u, current_prob as nat)
                                            implies covered(queue_items(queue), arena@, u)
                                                || exists|g: usize| 0 <= g < nsym && #[trigger] extends(fill(xi@, g, sigma@), u) by {
                                            assert(covered(before, arena@, u));
                                            let k = choose|k: usize| before.contains_key(k) && k < arena@.len() && #[trigger] extends(arena@[k as int]@, u);
                                            if k == i {
                                                lemma_fill_toward(xi@, u, sigma@);
                                            } else {
                                                assert(queue_items(queue).contains_key(k));
                                            }
                                        }
                                    }
                                }
                                let mut s: usize = 0;
                                while s < nsym
                                    invariant
                                        self.wf(),
                                        nsym == self.rank().len(),
                                        sigma@ == self.rank(),
                                        s <= nsym,
                                        height(xi@) < usize::MAX - 2,
                                        labels_below(xi@, nsym as nat),
                                        arena@.len() == insertion_count,
                                        runs@.len() == insertion_count,
                                        forall|k: int| 0 <= k < arena@.len() ==> self.caches(#[trigger] arena@[k]@, runs@[k], true),
                                        self.caches(xi@, ci, true),
                                        insertion_count <= limit,
                                        limit == max_insertions,
                                        queue_items(queue).dom().finite(),
                                        forall|k: usize| #[trigger] queue_items(queue).contains_key(k) ==> k < arena@.len(),
                                        forall|k: int| 0 <= k < arena@.len() ==> height(#[trigger] arena@[k]@) < usize::MAX - 1,
                                        forall|k: int| 0 <= k < arena@.len() ==> labels_below(#[trigger] arena@[k]@, nsym as nat),
                                        2 * (limit + 1 - insertion_count) + queue_items(queue).dom().len() <= m0,
                                        forall|k: usize| #[trigger] queue_items(queue).contains_key(k) ==> queue_items(queue)[k] == self.tree_potential(arena@[k as int]@),
                                        bound_admissible(self) ==> forall|u: Shape<usize>| #[trigger] self.beats(u, current_prob as nat)
                                            ==> covered(queue_items(queue), arena@, u)
                                                || exists|g: usize| s <= g < nsym && #[trigger] extends(fill(xi@, g, sigma@), u),
                                        self.search_run(trace, max_insertions as nat),
                                        self.can_pop(trace.last(), i),
                                        trace.last().items[i] > trace.last().cp,
                                        self.after_pop(trace.last(), i, max_insertions as nat) == self.expand(
                                            SearchState { items: queue_items(queue), arena: shapes_of(arena@), cp: current_prob as nat, best: current_best@ },
                                            xi@, s as int, max_insertions as nat),
                                    decreases nsym - s,
                                {
                                    let ghost items0 = queue_items(queue);
                                    let ghost arena0 = arena@;
                                    let mut xs = xi.copy();
                                    let mut cs = self.copy_runs(&ci, Ghost(xi@), true);
                                    proof {
                                        lemma_fill_height(xi@, s, sigma@);
                                        lemma_fill_labels(xi@, s, sigma@, nsym as nat);
                                    }
                                    self.extend_cached(&mut xs, &mut cs, s, &sigma);
                                    let h = xs.get_height();
                                    let pp = self.potential_from_run(&cs.run, h, Ghost(xs@));
                                    if pp > current_prob {
                                        proof {
                                            assert(!queue_items(queue).contains_key(arena@.len() as usize));
                                        }
                                        if insertion_count >= max_insertions {
                                            proof {
                                                assert(self.after_pop(trace.last(), i, max_insertions as nat) == SearchStep::Fail);
                                                assert(self.search_run(trace, max_insertions as nat));
                                                assert(self.can_pop(trace.last(), i));
                                                assert(labels_below(xs@, nsym as nat));
                                                assert(self.tree_potential(xs@) > 0);
                                            }
                                            return Err(PtaError::SearchBudgetExceeded);
                                        }
                                        queue_push(&mut queue, arena.len(), pp);
                                        arena.push(xs);
                                        runs.push(cs);
                                        insertion_count = insertion_count + 1;
                                        proof {
                                            assert(shapes_of(arena@) =~= shapes_of(arena0).push(xs@));
                                        }
                                    }
                                    proof {
                                        if bound_admissible(self) {
                                            assert forall|u: Shape<usize>| #[trigger] self.beats(u, current_prob as nat)
                                                implies covered(queue_items(queue), arena@, u)
                                                    || exists|g: usize| s + 1 <= g < nsym && #[trigger] extends(fill(xi@, g, sigma@), u) by {
                                                if covered(items0, arena0, u) {
                                                    let k = choose|k: usize| items0.contains_key(k) && k < arena0.len() && #[trigger] extends(arena0[k as int]@, u);
                                                    assert(queue_items(queue).contains_key(k));
                                                    assert(arena@[k as int] == arena0[k as int]);
                                                } else {
                                                    let g = choose|g: usize| s <= g < nsym && #[trigger] extends(fill(xi@, g, sigma@), u);
                                                    if g == s {
                                                        lemma_potential_bounds_extension(self, xs@, u);
                                                        let k = arena0.len() as usize;
                                                        assert(queue_items(queue).contains_key(k));
                                                        assert(extends(arena@[k as int]@, u));
                                                    }
                                                }
                                            }
                                        }
                                    }
                                    s = s + 1;
                                }
                                proof {
                                    let next = SearchState { items: queue_items(queue), arena: shapes_of(arena@), cp: current_prob as nat, best: current_best@ };
                                    assert(self.after_pop(trace.last(), i, max_insertions as nat) == SearchStep::Next(next));
                                    assert(self.search_step(trace.last(), next, max_insertions as nat));
                                    self.lemma_run_push(trace, next, max_insertions as nat);
                                    trace = trace.push(next);
                                }
                            },
                        }
                    }
                },
            }
        }
        proof {
            if bound_admissible(self) {
                assert forall|u: Shape<usize>|
                    labels_below(u, self.rank().len()) && is_complete(u, self.rank())
                    implies #[trigger] self.tree_probability(u) <= current_prob by {
                    assert(!self.beats(u, current_prob as nat));
                }
            }
        }
        let t = self.to_names(&current_best);
        Ok((t, current_prob, insertion_count))
    }
}

} // verus!
