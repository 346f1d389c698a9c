//! The probabilistic tree automaton A = (Q, Σ, μ, ν): states and symbols
//! numbered densely, root weights ν, and transitions μ bucketed by symbol and
//! source state.
use crate::integeriser::Integeriser;
use crate::transition::{numbers_of, Integerisable, Transition};
use crate::weight::ONE;
use vstd::prelude::*;

verus! {

/// What can go wrong when building or querying an automaton.
#[derive(Debug, Clone, Copy, PartialEq, Eq, Structural)]
pub enum PtaError {
    /// The root weights or the transitions are empty or inconsistent.
    MalformedModel,
    /// The most-probable-tree search inserted more trees than it was allowed.
    SearchBudgetExceeded,
    /// A tree holds a symbol that no transition of the automaton has.
    UnknownSymbolAtState,
}

/// A probabilistic tree automaton over states and symbols named by strings.
pub struct PTA {
    /// numbers the states
    q_integeriser: Integeriser,
    /// numbers the symbols
    t_integeriser: Integeriser,
    /// the rank of each symbol (by number)
    sigma: Vec<usize>,
    /// |Q|
    number_states: usize,
    /// the root weight of each state (by number)
    root_weights: Vec<u64>,
    /// all transitions, numbered, in the order they were given
    transitions: Vec<Transition<usize, usize>>,
    /// `buckets[s][q]` lists the indices of the transitions for symbol `s`
    /// from state `q`, in increasing order
    buckets: Vec<Vec<Vec<usize>>>,
}

/// No two root weight entries name the same state.
pub open spec fn distinct_roots(r: Seq<(String, u64)>) -> bool {
    forall|i: int, j: int| 0 <= i < j < r.len() ==> r[i].0@ != r[j].0@
}

/// The root weight given to `name` by the entries from `k` on (0 if none).
pub open spec fn root_weight_from(r: Seq<(String, u64)>, name: Seq<char>, k: int) -> nat
    decreases r.len() - k,
{
    if k < 0 || k >= r.len() {
        0
    } else if r[k].0@ == name {
        r[k].1 as nat
    } else {
        root_weight_from(r, name, k + 1)
    }
}

/// All transitions for one symbol have the same number of target states.
pub open spec fn consistent_ranks(ts: Seq<Transition<String, String>>) -> bool {
    forall|i: int, j: int|
        0 <= i < ts.len() && 0 <= j < ts.len() && ts[i].symbol@ == ts[j].symbol@
            ==> ts[i].target_states@.len() == ts[j].target_states@.len()
}

/// The inputs from which an automaton is built: both lists non-empty, each
/// state with at most one root weight, every weight a probability, and one
/// rank per symbol.
pub open spec fn acceptable(r: Seq<(String, u64)>, ts: Seq<Transition<String, String>>) -> bool {
    &&& r.len() > 0
    &&& ts.len() > 0
    &&& distinct_roots(r)
    &&& forall|i: int| 0 <= i < r.len() ==> (#[trigger] r[i]).1 <= ONE
    &&& forall|i: int| 0 <= i < ts.len() ==> (#[trigger] ts[i]).probability <= ONE
    &&& consistent_ranks(ts)
}

/// `n` names a state of transition `t`.
pub open spec fn mentions_state(t: Transition<String, String>, n: Seq<char>) -> bool {
    n == t.source_state@ || exists|k: int| 0 <= k < t.target_states@.len() && n == #[trigger] t.target_states@[k]@
}

impl PTA {
    /// The names of the states, by number.
    pub closed spec fn state_names(&self) -> Seq<Seq<char>> {
        self.q_integeriser@
    }

    /// The names of the symbols, by number.
    pub closed spec fn symbol_names(&self) -> Seq<Seq<char>> {
        self.t_integeriser@
    }

    /// |Q|
    pub closed spec fn num_states(&self) -> nat {
        self.number_states as nat
    }

    /// The rank of each symbol.
    pub closed spec fn rank(&self) -> Seq<usize> {
        self.sigma@
    }

    /// The root weight of each state.
    pub closed spec fn roots(&self) -> Seq<u64> {
        self.root_weights@
    }

    /// The number of transitions.
    pub closed spec fn num_trans(&self) -> nat {
        self.transitions@.len()
    }

    /// Transition number `i`.
    pub closed spec fn trans(&self, i: int) -> Transition<usize, usize> {
        self.transitions@[i]
    }

    /// The indices of the transitions for symbol `s` from state `q`.
    pub closed spec fn bucket(&self, s: int, q: int) -> Seq<usize> {
        self.buckets@[s]@[q]@
    }

    /// The invariant of an automaton.
    pub open spec fn wf(&self) -> bool {
        &&& self.layout_ok()
        &&& self.state_names().no_duplicates()
        &&& self.symbol_names().no_duplicates()
        &&& self.num_states() == self.state_names().len()
        &&& self.roots().len() == self.num_states()
        &&& self.rank().len() == self.symbol_names().len()
        &&& self.rank().len() > 0
        &&& forall|q: int| 0 <= q < self.num_states() ==> #[trigger] self.roots()[q] <= ONE
        &&& forall|i: int| 0 <= i < self.num_trans() ==> #[trigger] self.trans_ok(self.trans(i))
        &&& forall|i: int| 0 <= i < self.num_trans()
            ==> #[trigger] self.bucket(self.trans(i).symbol as int, self.trans(i).source_state as int).contains(i as usize)
        &&& forall|s: int, q: int, j: int, k: int|
            0 <= s < self.rank().len() && 0 <= q < self.num_states() && 0 <= j < k < self.bucket(s, q).len()
                ==> #[trigger] self.bucket(s, q)[j] < #[trigger] self.bucket(s, q)[k]
        &&& forall|s: int, q: int, j: int|
            0 <= s < self.rank().len() && 0 <= q < self.num_states() && 0 <= j < self.bucket(s, q).len()
                ==> #[trigger] self.bucket(s, q)[j] < self.num_trans()
                    && self.trans(self.bucket(s, q)[j] as int).symbol == s
                    && self.trans(self.bucket(s, q)[j] as int).source_state == q
    }

    /// A transition fits the states and the ranked alphabet.
    pub open spec fn trans_ok(&self, t: Transition<usize, usize>) -> bool {
        &&& t.symbol < self.rank().len()
        &&& t.source_state < self.num_states()
        &&& t.target_states@.len() == self.rank()[t.symbol as int]
        &&& forall|k: int| 0 <= k < t.target_states@.len() ==> #[trigger] t.target_states@[k] < self.num_states()
        &&& t.probability <= ONE
    }

    /// The bucket table has one row per symbol and one bucket per state.
    pub closed spec fn layout_ok(&self) -> bool {
        &&& self.buckets@.len() == self.sigma@.len()
        &&& forall|s: int| 0 <= s < self.buckets@.len() ==> #[trigger] self.buckets@[s]@.len() == self.number_states
    }
}

/// Some of the first `n` transitions has symbol `s`.
pub open spec fn symbol_used(ts: Seq<Transition<usize, usize>>, s: int, n: int) -> bool {
    exists|a: int| 0 <= a < n && #[trigger] ts[a].symbol == s
}

/// Numbers stay valid when the name lists grow at their end.
proof fn lemma_numbers_of_grow(
    t: Transition<String, String>,
    u: Transition<usize, usize>,
    s1: Seq<Seq<char>>,
    y1: Seq<Seq<char>>,
    s2: Seq<Seq<char>>,
    y2: Seq<Seq<char>>,
)
    requires
        numbers_of(t, u, s1, y1),
        s1.is_prefix_of(s2),
        y1.is_prefix_of(y2),
    ensures
        numbers_of(t, u, s2, y2),
{
    assert forall|k: int| 0 <= k < u.target_states@.len() implies #[trigger] u.target_states@[k] < s2.len()
        && s2[u.target_states@[k] as int] == t.target_states@[k]@ by {
        assert(u.target_states@[k] < s1.len());
    }
}

impl PTA {
    /// Builds an automaton from its root weights (state, weight) and its
    /// transitions. States and symbols are numbered by first appearance in
    /// the transitions (source, symbol, then targets); a state that no
    /// transition mentions is left out, and a state without an entry has
    /// root weight 0. Fails with `MalformedModel` unless both lists are
    /// non-empty, no state has two root weights, every weight is at most
    /// `ONE`, and all transitions for one symbol have as many targets.
    pub fn new(root_weight_map: Vec<(String, u64)>, transitions_vec: Vec<Transition<String, String>>) -> (res: Result<PTA, PtaError>)
        ensures
            res is Ok <==> acceptable(root_weight_map@, transitions_vec@),
            res matches Err(e) ==> e == PtaError::MalformedModel,
            res matches Ok(m) ==> {
                &&& m.wf()
                &&& m.num_trans() == transitions_vec@.len()
                &&& forall|i: int| 0 <= i < transitions_vec@.len()
                    ==> #[trigger] numbers_of(transitions_vec@[i], m.trans(i), m.state_names(), m.symbol_names())
                &&& forall|i: int| 0 <= i < transitions_vec@.len()
                    ==> #[trigger] m.bucket(m.trans(i).symbol as int, m.trans(i).source_state as int).contains(i as usize)
                &&& forall|q: int| 0 <= q < m.num_states()
                    ==> #[trigger] m.roots()[q] == root_weight_from(root_weight_map@, m.state_names()[q], 0)
                &&& forall|n: Seq<char>| #[trigger] m.state_names().contains(n)
                    ==> exists|i: int| 0 <= i < transitions_vec@.len() && mentions_state(#[trigger] transitions_vec@[i], n)
                &&& forall|n: Seq<char>| #[trigger] m.symbol_names().contains(n)
                    ==> exists|i: int| 0 <= i < transitions_vec@.len() && n == #[trigger] transitions_vec@[i].symbol@
            },
    {
        if root_weight_map.len() == 0 || transitions_vec.len() == 0 {
            assert(!acceptable(root_weight_map@, transitions_vec@));
            return Err(PtaError::MalformedModel);
        }
        // each state has at most one root weight, and it is a probability
        let mut i: usize = 0;
        while i < root_weight_map.len()
            invariant
                i <= root_weight_map@.len(),
                forall|a: int, b: int| 0 <= a < b < i ==> root_weight_map@[a].0@ != root_weight_map@[b].0@,
                forall|a: int| 0 <= a < i ==> (#[trigger] root_weight_map@[a]).1 <= ONE,
            decreases root_weight_map@.len() - i,
        {
            if root_weight_map[i].1 > ONE {
                assert(root_weight_map@[i as int].1 > ONE);
                assert(!(forall|k: int| 0 <= k < root_weight_map@.len() ==> (#[trigger] root_weight_map@[k]).1 <= ONE));
                assert(!acceptable(root_weight_map@, transitions_vec@));
                return Err(PtaError::MalformedModel);
            }
            let mut j: usize = 0;
            while j < i
                invariant
                    j <= i < root_weight_map@.len(),
                    forall|a: int| 0 <= a < j ==> root_weight_map@[a].0@ != root_weight_map@[i as int].0@,
                decreases i - j,
            {
                if root_weight_map[j].0 == root_weight_map[i].0 {
                    proof {
                        assert(!distinct_roots(root_weight_map@));
                        assert(!acceptable(root_weight_map@, transitions_vec@));
                    }
                    return Err(PtaError::MalformedModel);
                }
                j = j + 1;
            }
            i = i + 1;
        }
        // number the states and symbols, and infer the ranked alphabet
        let mut q_integeriser = Integeriser::new();
        let mut t_integeriser = Integeriser::new();
        let mut sigma: Vec<usize> = Vec::new();
        let mut transitions: Vec<Transition<usize, usize>> = Vec::new();
        let mut i: usize = 0;
        while i < transitions_vec.len()
            invariant
                i <= transitions_vec@.len(),
                q_integeriser.wf(),
                t_integeriser.wf(),
                sigma@.len() == t_integeriser@.len(),
                transitions@.len() == i,
                forall|a: int| 0 <= a < i ==> (#[trigger] transitions_vec@[a]).probability <= ONE,
                forall|a: int| 0 <= a < i ==> #[trigger] numbers_of(transitions_vec@[a], transitions@[a], q_integeriser@, t_integeriser@),
                forall|a: int| 0 <= a < i ==> sigma@[#[trigger] transitions@[a].symbol as int] == transitions@[a].target_states@.len(),
                forall|s: int| 0 <= s < sigma@.len() ==> #[trigger] symbol_used(transitions@, s, i as int),
                forall|n: Seq<char>| #[trigger] q_integeriser@.contains(n)
                    ==> exists|a: int| 0 <= a < i && mentions_state(#[trigger] transitions_vec@[a], n),
                forall|n: Seq<char>| #[trigger] t_integeriser@.contains(n)
                    ==> exists|a: int| 0 <= a < i && n == #[trigger] transitions_vec@[a].symbol@,
            decreases transitions_vec@.len() - i,
        {
            let t = &transitions_vec[i];
            if t.probability > ONE {
                assert(transitions_vec@[i as int].probability > ONE);
                assert(!acceptable(root_weight_map@, transitions_vec@));
                return Err(PtaError::MalformedModel);
            }
            let ghost q0 = q_integeriser@;
            let ghost y0 = t_integeriser@;
            let u = t.integerise(&mut q_integeriser, &mut t_integeriser);
            proof {
                assert forall|a: int| 0 <= a < i implies #[trigger] numbers_of(transitions_vec@[a], transitions@[a], q_integeriser@, t_integeriser@) by {
                    lemma_numbers_of_grow(transitions_vec@[a], transitions@[a], q0, y0, q_integeriser@, t_integeriser@);
                }
            }
            if u.symbol == sigma.len() {
                sigma.push(u.target_states.len());
            } else if sigma[u.symbol] != u.target_states.len() {
                proof {
                    assert(symbol_used(transitions@, u.symbol as int, i as int));
                    let a = choose|a: int| 0 <= a < i && #[trigger] transitions@[a].symbol == u.symbol;
                    assert(numbers_of(transitions_vec@[a], transitions@[a], q_integeriser@, t_integeriser@));
                    assert(transitions_vec@[a].symbol@ == transitions_vec@[i as int].symbol@);
                    assert(!consistent_ranks(transitions_vec@));
                }
                return Err(PtaError::MalformedModel);
            }
            let ghost before = transitions@;
            transitions.push(u);
            proof {
                assert forall|a: int| 0 <= a < i + 1 implies sigma@[#[trigger] transitions@[a].symbol as int] == transitions@[a].target_states@.len() by {
                    if a < i {
                        assert(transitions@[a] == before[a]);
                        assert(numbers_of(transitions_vec@[a], before[a], q0, y0));
                    }
                }
                assert forall|s: int| 0 <= s < sigma@.len() implies #[trigger] symbol_used(transitions@, s, i as int + 1) by {
                    if s == u.symbol {
                        assert(transitions@[i as int].symbol == s);
                    } else {
                        assert(symbol_used(before, s, i as int));
                        let a = choose|a: int| 0 <= a < i && #[trigger] before[a].symbol == s;
                        assert(transitions@[a].symbol == s);
                    }
                }
                assert forall|n: Seq<char>| #[trigger] q_integeriser@.contains(n)
                    implies exists|a: int| 0 <= a < i + 1 && mentions_state(#[trigger] transitions_vec@[a], n) by {
                    if !q0.contains(n) {
                        assert(mentions_state(transitions_vec@[i as int], n));
                    }
                }
                assert forall|n: Seq<char>| #[trigger] t_integeriser@.contains(n)
                    implies exists|a: int| 0 <= a < i + 1 && n == #[trigger] transitions_vec@[a].symbol@ by {
                    if !y0.contains(n) {
                        assert(n == transitions_vec@[i as int].symbol@);
                    }
                }
            }
            i = i + 1;
        }
        proof {
            assert forall|a: int, b: int|
                0 <= a < transitions_vec@.len() && 0 <= b < transitions_vec@.len() && transitions_vec@[a].symbol@ == transitions_vec@[b].symbol@
                implies transitions_vec@[a].target_states@.len() == transitions_vec@[b].target_states@.len() by {
                assert(numbers_of(transitions_vec@[a], transitions@[a], q_integeriser@, t_integeriser@));
                assert(numbers_of(transitions_vec@[b], transitions@[b], q_integeriser@, t_integeriser@));
                assert(transitions@[a].symbol == transitions@[b].symbol);
                assert(sigma@[transitions@[a].symbol as int] == transitions@[a].target_states@.len());
                assert(sigma@[transitions@[b].symbol as int] == transitions@[b].target_states@.len());
            }
        }
        let number_states = q_integeriser.size();
        // the root weight of each state
        let mut root_weights: Vec<u64> = Vec::new();
        let mut q: usize = 0;
        while q < number_states
            invariant
                q <= number_states == q_integeriser@.len(),
                root_weights@.len() == q,
                forall|a: int| 0 <= a < root_weight_map@.len() ==> (#[trigger] root_weight_map@[a]).1 <= ONE,
                forall|p: int| 0 <= p < q ==> #[trigger] root_weights@[p] == root_weight_from(root_weight_map@, q_integeriser@[p], 0),
                forall|p: int| 0 <= p < q ==> #[trigger] root_weights@[p] <= ONE,
            decreases number_states - q,
        {
            let name = match q_integeriser.find_value(q) {
                Some(v) => v,
                None => {
                    return Err(PtaError::MalformedModel);
                },
            };
            let mut w: u64 = 0;
            let mut found = false;
            let mut k: usize = 0;
            while !found && k < root_weight_map.len()
                invariant
                    k <= root_weight_map@.len(),
                    name@ == q_integeriser@[q as int],
                    !found ==> root_weight_from(root_weight_map@, name@, 0) == root_weight_from(root_weight_map@, name@, k as int),
                    found ==> root_weight_from(root_weight_map@, name@, 0) == w,
                    !found ==> w == 0,
                    forall|a: int| 0 <= a < root_weight_map@.len() ==> (#[trigger] root_weight_map@[a]).1 <= ONE,
                    w <= ONE,
                decreases root_weight_map@.len() - k + (if found { 0int } else { 1int }),
            {
                if root_weight_map[k].0 == *name {
                    w = root_weight_map[k].1;
                    found = true;
                } else {
                    k = k + 1;
                }
            }
            root_weights.push(w);
            q = q + 1;
        }
        // bucket the transitions by symbol and source state
        let mut buckets: Vec<Vec<Vec<usize>>> = Vec::new();
        let mut s: usize = 0;
        while s < sigma.len()
            invariant
                s <= sigma@.len(),
                buckets@.len() == s,
                forall|a: int| 0 <= a < s ==> #[trigger] buckets@[a]@.len() == number_states,
                forall|a: int, b: int| 0 <= a < s && 0 <= b < number_states ==> #[trigger] buckets@[a]@[b]@.len() == 0,
            decreases sigma@.len() - s,
        {
            let mut row: Vec<Vec<usize>> = Vec::new();
            let mut b: usize = 0;
            while b < number_states
                invariant
                    b <= number_states,
                    row@.len() == b,
                    forall|c: int| 0 <= c < b ==> #[trigger] row@[c]@.len() == 0,
                decreases number_states - b,
            {
                row.push(Vec::new());
                b = b + 1;
            }
            buckets.push(row);
            s = s + 1;
        }
        proof {
            assert forall|a: int| 0 <= a < transitions@.len() implies #[trigger] transitions@[a].symbol < sigma@.len()
                && transitions@[a].source_state < number_states by {
                assert(numbers_of(transitions_vec@[a], transitions@[a], q_integeriser@, t_integeriser@));
            }
        }
        let mut i: usize = 0;
        while i < transitions.len()
            invariant
                i <= transitions@.len(),
                buckets@.len() == sigma@.len(),
                forall|a: int| 0 <= a < buckets@.len() ==> #[trigger] buckets@[a]@.len() == number_states,
                forall|a: int| 0 <= a < transitions@.len() ==> #[trigger] transitions@[a].symbol < sigma@.len()
                    && transitions@[a].source_state < number_states,
                forall|a: int, b: int, c: int| 0 <= a < sigma@.len() && 0 <= b < number_states && 0 <= c < buckets@[a]@[b]@.len()
                    ==> #[trigger] buckets@[a]@[b]@[c] < i
                        && transitions@[buckets@[a]@[b]@[c] as int].symbol == a
                        && transitions@[buckets@[a]@[b]@[c] as int].source_state == b,
                forall|a: int| 0 <= a < i ==> #[trigger] buckets@[transitions@[a].symbol as int]@[transitions@[a].source_state as int]@.contains(a as usize),
                forall|a: int, b: int, c: int, d: int| 0 <= a < sigma@.len() && 0 <= b < number_states && 0 <= c < d < buckets@[a]@[b]@.len()
                    ==> #[trigger] buckets@[a]@[b]@[c] < #[trigger] buckets@[a]@[b]@[d],
            decreases transitions@.len() - i,
        {
            let s = transitions[i].symbol;
            let q = transitions[i].source_state;
            let ghost old_b = buckets@;
            buckets[s][q].push(i);
            proof {
                assert(buckets@[s as int]@[q as int]@ == old_b[s as int]@[q as int]@.push(i));
                assert forall|a: int, b: int| 0 <= a < sigma@.len() && 0 <= b < number_states && !(a == s && b == q)
                    implies #[trigger] buckets@[a]@[b]@ == old_b[a]@[b]@ by {
                    if a != s {
                        assert(buckets@[a] == old_b[a]);
                    }
                }
                assert forall|a: int| 0 <= a < i + 1 implies #[trigger] buckets@[transitions@[a].symbol as int]@[transitions@[a].source_state as int]@.contains(a as usize) by {
                    let sa = transitions@[a].symbol as int;
                    let qa = transitions@[a].source_state as int;
                    if a == i {
                        assert(buckets@[sa]@[qa]@[buckets@[sa]@[qa]@.len() - 1] == i);
                    } else if sa == s && qa == q {
                        assert(buckets@[sa]@[qa]@ == old_b[sa]@[qa]@.push(i));
                        assert(old_b[sa]@[qa]@.contains(a as usize));
                        let c = choose|c: int| 0 <= c < old_b[sa]@[qa]@.len() && old_b[sa]@[qa]@[c] == a as usize;
                        assert(buckets@[sa]@[qa]@[c] == a as usize);
                    }
                }
                assert forall|a: int, b: int, c: int| 0 <= a < sigma@.len() && 0 <= b < number_states && 0 <= c < buckets@[a]@[b]@.len()
                    implies #[trigger] buckets@[a]@[b]@[c] < i + 1
                        && transitions@[buckets@[a]@[b]@[c] as int].symbol == a
                        && transitions@[buckets@[a]@[b]@[c] as int].source_state == b by {
                    if a == s && b == q && c < old_b[a]@[b]@.len() {
                        assert(buckets@[a]@[b]@[c] == old_b[a]@[b]@[c]);
                    }
                }
                assert forall|a: int, b: int, c: int, d: int| 0 <= a < sigma@.len() && 0 <= b < number_states && 0 <= c < d < buckets@[a]@[b]@.len()
                    implies #[trigger] buckets@[a]@[b]@[c] < #[trigger] buckets@[a]@[b]@[d] by {
                    if a == s && b == q {
                        assert(buckets@[a]@[b]@[c] == old_b[a]@[b]@[c]);
                        if d < old_b[a]@[b]@.len() {
                            assert(buckets@[a]@[b]@[d] == old_b[a]@[b]@[d]);
                        } else {
                            assert(old_b[a]@[b]@[c] < i);
                        }
                    }
                }
            }
            i = i + 1;
        }
        let m = PTA {
            q_integeriser,
            t_integeriser,
            sigma,
            number_states,
            root_weights,
            transitions,
            buckets,
        };
        proof {
            assert(numbers_of(transitions_vec@[0], transitions@[0], q_integeriser@, t_integeriser@));
            assert(m.layout_ok());
            assert forall|i: int| 0 <= i < m.num_trans() implies #[trigger] m.trans_ok(m.trans(i)) by {
                assert(numbers_of(transitions_vec@[i], m.trans(i), m.state_names(), m.symbol_names()));
                assert(sigma@[transitions@[i].symbol as int] == transitions@[i].target_states@.len());
            }
        }
        Ok(m)
    }
}

impl PTA {
    /// |Q|
    pub fn num_states_exec(&self) -> (r: usize)
        ensures
            r == self.num_states(),
    {
        self.number_states
    }

    /// |Σ|
    pub fn num_symbols_exec(&self) -> (r: usize)
        requires
            self.wf(),
        ensures
            r == self.rank().len(),
    {
        self.sigma.len()
    }

    /// The number of symbol `a`, if it is one.
    pub fn symbol_number(&self, a: &String) -> (r: Option<usize>)
        requires
            self.wf(),
        ensures
            r matches Some(k) ==> k < self.symbol_names().len() && self.symbol_names()[k as int] == a@
                && self.symbol_names().index_of(a@) == k,
            r is None ==> !self.symbol_names().contains(a@),
    {
        let r = self.t_integeriser.find_key(a);
        proof {
            if let Some(k) = r {
                let i = self.symbol_names().index_of(a@);
                assert(self.symbol_names().contains(a@));
                assert(self.symbol_names()[i] == a@);
            }
        }
        r
    }

    /// The name of state number `k`.
    pub fn state_name(&self, k: usize) -> (r: String)
        requires
            self.wf(),
            k < self.num_states(),
        ensures
            r@ == self.state_names()[k as int],
    {
        match self.q_integeriser.find_value(k) {
            Some(v) => v.clone(),
            None => String::new(),
        }
    }

    /// The name of symbol number `k`.
    pub fn symbol_name(&self, k: usize) -> (r: String)
        requires
            self.wf(),
            k < self.symbol_names().len(),
        ensures
            r@ == self.symbol_names()[k as int],
    {
        match self.t_integeriser.find_value(k) {
            Some(v) => v.clone(),
            None => String::new(),
        }
    }

    /// The number of transitions.
    pub fn num_trans_exec(&self) -> (r: usize)
        ensures
            r == self.num_trans(),
    {
        self.transitions.len()
    }

    /// The rank of each symbol.
    pub fn rank_exec(&self) -> (r: &Vec<usize>)
        ensures
            r@ == self.rank(),
    {
        &self.sigma
    }

    /// The root weight of state `q`.
    pub(crate) fn root_weight_exec(&self, q: usize) -> (r: u64)
        requires
            self.wf(),
            q < self.num_states(),
        ensures
            r == self.roots()[q as int],
    {
        self.root_weights[q]
    }

    /// The bucket of symbol `s` and state `q`.
    pub(crate) fn bucket_exec(&self, s: usize, q: usize) -> (r: &Vec<usize>)
        requires
            self.wf(),
            s < self.rank().len(),
            q < self.num_states(),
        ensures
            r@ == self.bucket(s as int, q as int),
    {
        &self.buckets[s][q]
    }

    /// Transition number `i`.
    pub(crate) fn trans_exec(&self, i: usize) -> (r: &Transition<usize, usize>)
        requires
            i < self.num_trans(),
        ensures
            *r == self.trans(i as int),
    {
        &self.transitions[i]
    }}

} // verus!
