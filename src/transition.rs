//! Transitions of a tree automaton and their integer form.
use crate::integeriser::Integeriser;
use vstd::prelude::*;

verus! {

/// A weighted transition `source_state -> symbol(target_states) # probability`.
#[derive(Debug, PartialEq, Eq)]
pub struct Transition<Q, T> {
    pub source_state: Q,
    pub symbol: T,
    pub target_states: Vec<Q>,
    pub probability: u64,
}

/// `u` is `t` with each state and symbol replaced by its number.
pub open spec fn numbers_of(
    t: Transition<String, String>,
    u: Transition<usize, usize>,
    states: Seq<Seq<char>>,
    symbols: Seq<Seq<char>>,
) -> bool {
    &&& u.source_state < states.len()
    &&& states[u.source_state as int] == t.source_state@
    &&& u.symbol < symbols.len()
    &&& symbols[u.symbol as int] == t.symbol@
    &&& u.target_states@.len() == t.target_states@.len()
    &&& forall|k: int|
        0 <= k < u.target_states@.len() ==> #[trigger] u.target_states@[k] < states.len()
            && states[u.target_states@[k] as int] == t.target_states@[k]@
    &&& u.probability == t.probability
}

/// Maps the states and symbols of a value to integers and back.
pub trait Integerisable: Sized {
    /// The value with integers in place of states and symbols.
    type AInt;

    /// Numbers the states with `integeriser1` and the symbols with
    /// `integeriser2`, giving new names the next free numbers.
    fn integerise(&self, integeriser1: &mut Integeriser, integeriser2: &mut Integeriser) -> (r: Self::AInt)
        requires
            old(integeriser1).wf(),
            old(integeriser2).wf(),
        ensures
            final(integeriser1).wf(),
            final(integeriser2).wf(),
            old(integeriser1)@.is_prefix_of(final(integeriser1)@),
            old(integeriser2)@.is_prefix_of(final(integeriser2)@),
    ;

    /// The value whose numbers are `v`, if every number is known.
    fn un_integerise(v: &Self::AInt, integeriser1: &Integeriser, integeriser2: &Integeriser) -> Option<Self>;
}

impl Transition<usize, usize> {
    /// A copy of the transition.
    pub fn copy(&self) -> (r: Transition<usize, usize>)
        ensures
            r.source_state == self.source_state,
            r.symbol == self.symbol,
            r.target_states@ == self.target_states@,
            r.probability == self.probability,
    {
        Transition {
            source_state: self.source_state,
            symbol: self.symbol,
            target_states: self.target_states.clone(),
            probability: self.probability,
        }
    }
}

impl Integerisable for Transition<String, String> {
    type AInt = Transition<usize, usize>;

    fn integerise(&self, integeriser1: &mut Integeriser, integeriser2: &mut Integeriser) -> (u: Transition<usize, usize>)
        ensures
            numbers_of(*self, u, final(integeriser1)@, final(integeriser2)@),
            forall|n: Seq<char>| #[trigger] final(integeriser1)@.contains(n) ==> old(integeriser1)@.contains(n)
                || n == self.source_state@
                || exists|k: int| 0 <= k < self.target_states@.len() && n == #[trigger] self.target_states@[k]@,
            forall|n: Seq<char>| #[trigger] final(integeriser2)@.contains(n) ==> old(integeriser2)@.contains(n)
                || n == self.symbol@,
            final(integeriser2)@.len() <= old(integeriser2)@.len() + 1,
            final(integeriser2)@.len() > old(integeriser2)@.len() ==> u.symbol == old(integeriser2)@.len(),
    {
        let ghost q0 = integeriser1@;
        let source_state = integeriser1.integerise(self.source_state.clone());
        let symbol = integeriser2.integerise(self.symbol.clone());
        let mut target_states: Vec<usize> = Vec::new();
        let mut k: usize = 0;
        while k < self.target_states.len()
            invariant
                k <= self.target_states@.len(),
                integeriser1.wf(),
                q0.is_prefix_of(integeriser1@),
                source_state < integeriser1@.len(),
                integeriser1@[source_state as int] == self.source_state@,
                target_states@.len() == k,
                forall|j: int|
                    0 <= j < k ==> #[trigger] target_states@[j] < integeriser1@.len()
                        && integeriser1@[target_states@[j] as int] == self.target_states@[j]@,
                forall|n: Seq<char>| #[trigger] integeriser1@.contains(n) ==> q0.contains(n)
                    || n == self.source_state@
                    || exists|j: int| 0 <= j < k && n == #[trigger] self.target_states@[j]@,
            decreases self.target_states@.len() - k,
        {
            let ghost before = integeriser1@;
            let q = integeriser1.integerise(self.target_states[k].clone());
            proof {
                assert forall|n: Seq<char>| #[trigger] integeriser1@.contains(n) implies q0.contains(n)
                    || n == self.source_state@
                    || exists|j: int| 0 <= j < k + 1 && n == #[trigger] self.target_states@[j]@ by {
                    if !before.contains(n) {
                        let i = choose|i: int| 0 <= i < integeriser1@.len() && integeriser1@[i] == n;
                        assert(integeriser1@ == before.push(self.target_states@[k as int]@));
                        assert(i == before.len());
                        assert(n == self.target_states@[k as int]@);
                    }
                }
            }
            target_states.push(q);
            k = k + 1;
        }
        Transition { source_state, symbol, target_states, probability: self.probability }
    }

    fn un_integerise(v: &Transition<usize, usize>, integeriser1: &Integeriser, integeriser2: &Integeriser) -> (r: Option<Transition<String, String>>)
        ensures
            r matches Some(t) ==> numbers_of(t, *v, integeriser1@, integeriser2@),
            r is None ==> !(v.source_state < integeriser1@.len() && v.symbol < integeriser2@.len()
                && forall|k: int| 0 <= k < v.target_states@.len() ==> #[trigger] v.target_states@[k] < integeriser1@.len()),
    {
        let source_state = match integeriser1.find_value(v.source_state) {
            Some(s) => s.clone(),
            None => return None,
        };
        let symbol = match integeriser2.find_value(v.symbol) {
            Some(s) => s.clone(),
            None => return None,
        };
        let mut target_states: Vec<String> = Vec::new();
        let mut k: usize = 0;
        while k < v.target_states.len()
            invariant
                k <= v.target_states@.len(),
                target_states@.len() == k,
                forall|j: int|
                    0 <= j < k ==> #[trigger] v.target_states@[j] < integeriser1@.len()
                        && integeriser1@[v.target_states@[j] as int] == target_states@[j]@,
            decreases v.target_states@.len() - k,
        {
            match integeriser1.find_value(v.target_states[k]) {
                Some(s) => target_states.push(s.clone()),
                None => return None,
            }
            k = k + 1;
        }
        Some(Transition { source_state, symbol, target_states, probability: v.probability })
    }
}

} // verus!
