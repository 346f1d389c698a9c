//! A bijection between names and the dense integers `0, 1, 2, ...`, in the
//! order in which the names were first seen.
use vstd::prelude::*;

verus! {

/// Names (states or symbols) numbered by first appearance.
pub struct Integeriser {
    values: Vec<String>,
}

impl View for Integeriser {
    type V = Seq<Seq<char>>;

    closed spec fn view(&self) -> Seq<Seq<char>> {
        self.values@.map_values(|s: String| s@)
    }
}

impl Integeriser {
    /// Each name has one number.
    pub open spec fn wf(&self) -> bool {
        self@.no_duplicates()
    }

    /// An integeriser that knows no name.
    pub fn new() -> (r: Integeriser)
        ensures
            r@ == Seq::<Seq<char>>::empty(),
            r.wf(),
    {
        let r = Integeriser { values: Vec::new() };
        assert(r@ =~= Seq::<Seq<char>>::empty());
        r
    }

    /// The number of known names.
    pub fn size(&self) -> (r: usize)
        ensures
            r == self@.len(),
    {
        self.values.len()
    }

    /// The number of `a`, if it is known.
    pub fn find_key(&self, a: &String) -> (r: Option<usize>)
        requires
            self.wf(),
        ensures
            r matches Some(k) ==> k < self@.len() && self@[k as int] == a@,
            r is None ==> !self@.contains(a@),
    {
        let mut i: usize = 0;
        while i < self.values.len()
            invariant
                i <= self.values@.len(),
                self@.len() == self.values@.len(),
                forall|j: int| 0 <= j < i ==> self@[j] != a@,
            decreases self.values@.len() - i,
        {
            if self.values[i] == *a {
                return Some(i);
            }
            i = i + 1;
        }
        None
    }

    /// The name numbered `k`, if there is one.
    pub fn find_value(&self, k: usize) -> (r: Option<&String>)
        ensures
            r matches Some(v) ==> k < self@.len() && v@ == self@[k as int],
            r is None ==> k >= self@.len(),
    {
        if k < self.values.len() {
            Some(&self.values[k])
        } else {
            None
        }
    }

    /// The number of `a`; an unknown name gets the next free number.
    pub fn integerise(&mut self, a: String) -> (r: usize)
        requires
            old(self).wf(),
        ensures
            final(self).wf(),
            r < final(self)@.len(),
            final(self)@[r as int] == a@,
            old(self)@.contains(a@) ==> final(self)@ == old(self)@,
            !old(self)@.contains(a@) ==> final(self)@ == old(self)@.push(a@) && r == old(self)@.len(),
    {
        match self.find_key(&a) {
            Some(k) => k,
            None => {
                let ghost before = self@;
                let k = self.values.len();
                self.values.push(a);
                proof {
                    assert(self@ =~= before.push(a@));
                    assert forall|i: int, j: int| 0 <= i < j < self@.len() implies self@[i] != self@[j] by {
                        if j == before.len() {
                            assert(before[i] == self@[i]);
                        } else {
                            assert(before[i] == self@[i] && before[j] == self@[j]);
                        }
                    }
                }
                k
            },
        }
    }
}

} // verus!
