//! Queries on trees whose labels are symbol names: they are numbered by the
//! automaton's symbol numbering and evaluated.
use crate::pta::{PtaError, PTA};
use crate::tree::{children_height, height, lemma_view, Shape, Tree};
use vstd::prelude::*;

verus! {

/// Every label of `b` is one of `names`.
pub open spec fn known_labels(b: Shape<String>, names: Seq<Seq<char>>) -> bool
    decreases b, 1int, 0int,
{
    names.contains(b.label@) && known_children(b, names, b.children.len() as int)
}

/// The first `n` children of `b` have known labels only.
pub open spec fn known_children(b: Shape<String>, names: Seq<Seq<char>>, n: int) -> bool
    decreases b, 0int, n,
{
    if n <= 0 || n > b.children.len() {
        true
    } else {
        known_children(b, names, n - 1) && known_labels(b.children[n - 1], names)
    }
}

/// `b` with each label replaced by its number in `names`.
pub open spec fn numbered(b: Shape<String>, names: Seq<Seq<char>>) -> Shape<usize>
    decreases b, 1int, 0int,
{
    Shape { label: names.index_of(b.label@) as usize, children: numbered_children(b, names, b.children.len() as int) }
}

/// The first `n` children of `b`, numbered.
pub open spec fn numbered_children(b: Shape<String>, names: Seq<Seq<char>>, n: int) -> Seq<Shape<usize>>
    decreases b, 0int, n,
{
    if n <= 0 || n > b.children.len() {
        Seq::empty()
    } else {
        numbered_children(b, names, n - 1).push(numbered(b.children[n - 1], names))
    }
}

/// Every label of `t` is below `n`.
pub open spec fn labels_below(t: Shape<usize>, n: nat) -> bool
    decreases t, 1int, 0int,
{
    t.label < n && children_below(t, n, t.children.len() as int)
}

/// The first `m` children of `t` have labels below `n` only.
pub open spec fn children_below(t: Shape<usize>, n: nat, m: int) -> bool
    decreases t, 0int, m,
{
    if m <= 0 || m > t.children.len() {
        true
    } else {
        children_below(t, n, m - 1) && labels_below(t.children[m - 1], n)
    }
}

/// The numbered children are the children, numbered.
pub proof fn lemma_numbered_children(b: Shape<String>, names: Seq<Seq<char>>, n: int)
    requires
        0 <= n <= b.children.len(),
    ensures
        numbered_children(b, names, n).len() == n,
        forall|j: int| 0 <= j < n ==> #[trigger] numbered_children(b, names, n)[j] == numbered(b.children[j], names),
    decreases n,
{
    if n > 0 {
        lemma_numbered_children(b, names, n - 1);
    }
}

/// Known children: each of them is known.
pub proof fn lemma_known_children(b: Shape<String>, names: Seq<Seq<char>>, n: int)
    requires
        0 <= n <= b.children.len(),
    ensures
        known_children(b, names, n) <==> forall|j: int| 0 <= j < n ==> #[trigger] known_labels(b.children[j], names),
    decreases n,
{
    if n > 0 {
        lemma_known_children(b, names, n - 1);
        if forall|j: int| 0 <= j < n ==> #[trigger] known_labels(b.children[j], names) {
            assert(known_labels(b.children[n - 1], names));
            assert(forall|j: int| 0 <= j < n - 1 ==> #[trigger] known_labels(b.children[j], names));
        }
    }
}

/// Children below a bound: each of them is.
pub proof fn lemma_children_below(t: Shape<usize>, k: nat, n: int)
    requires
        0 <= n <= t.children.len(),
    ensures
        children_below(t, k, n) <==> forall|j: int| 0 <= j < n ==> #[trigger] labels_below(t.children[j], k),
    decreases n,
{
    if n > 0 {
        lemma_children_below(t, k, n - 1);
        if forall|j: int| 0 <= j < n ==> #[trigger] labels_below(t.children[j], k) {
            assert(labels_below(t.children[n - 1], k));
            assert(forall|j: int| 0 <= j < n - 1 ==> #[trigger] labels_below(t.children[j], k));
        }
    }
}

/// Numbering keeps the height.
pub proof fn lemma_numbered_height(b: Shape<String>, names: Seq<Seq<char>>)
    ensures
        height(numbered(b, names)) == height(b),
    decreases b, 1int, 0int,
{
    lemma_numbered_children(b, names, b.children.len() as int);
    lemma_numbered_children_height(b, names, b.children.len() as int);
}

/// Numbering keeps the largest height of the first `n` children.
pub proof fn lemma_numbered_children_height(b: Shape<String>, names: Seq<Seq<char>>, n: int)
    requires
        0 <= n <= b.children.len(),
    ensures
        children_height(numbered(b, names), n) == children_height(b, n),
    decreases b, 0int, n,
{
    lemma_numbered_children(b, names, b.children.len() as int);
    if n > 0 {
        lemma_numbered_height(b.children[n - 1], names);
        lemma_numbered_children_height(b, names, n - 1);
    }
}

/// Filling a hole with a known symbol keeps all labels known.
pub proof fn lemma_fill_labels(t: Shape<usize>, s: usize, rank: Seq<usize>, k: nat)
    requires
        labels_below(t, k),
        s < k,
    ensures
        labels_below(crate::tree::fill(t, s, rank), k),
    decreases t,
{
    let n = crate::tree::fill(t, s, rank);
    lemma_children_below(t, k, t.children.len() as int);
    if crate::tree::open_at_root(t, rank) {
        assert(labels_below(n.children[t.children.len() as int], k)) by {
            assert(n.children[t.children.len() as int].children.len() == 0);
        }
        assert forall|j: int| 0 <= j < n.children.len() implies #[trigger] labels_below(n.children[j], k) by {
            if j < t.children.len() {
                assert(n.children[j] == t.children[j]);
            }
        }
        lemma_children_below(n, k, n.children.len() as int);
    } else if let Some(d) = crate::tree::hole_depth(t, rank) {
        let i = crate::tree::first_child_with_hole(t, rank, (d - 1) as nat, t.children.len() as int);
        if 0 <= i < t.children.len() {
            lemma_fill_labels(t.children[i], s, rank, k);
            assert forall|j: int| 0 <= j < n.children.len() implies #[trigger] labels_below(n.children[j], k) by {
                if j != i {
                    assert(n.children[j] == t.children[j]);
                }
            }
            lemma_children_below(n, k, n.children.len() as int);
        }
    }
}

impl PTA {
    /// The tree with each symbol name replaced by its number.
    pub fn to_ids(&self, xi: &Tree<String>) -> (r: Result<Tree<usize>, PtaError>)
        requires
            self.wf(),
        ensures
            r is Ok <==> known_labels(xi@, self.symbol_names()),
            r matches Ok(t) ==> t@ == numbered(xi@, self.symbol_names()),
            r matches Err(e) ==> e == PtaError::UnknownSymbolAtState,
        decreases xi,
    {
        proof {
            lemma_view(*xi);
            lemma_numbered_children(xi@, self.symbol_names(), xi@.children.len() as int);
            lemma_known_children(xi@, self.symbol_names(), xi@.children.len() as int);
        }
        let root = match self.symbol_number(&xi.root) {
            Some(k) => k,
            None => return Err(PtaError::UnknownSymbolAtState),
        };
        let mut children: Vec<Tree<usize>> = Vec::new();
        let mut i: usize = 0;
        while i < xi.children.len()
            invariant
                self.wf(),
                i <= xi.children@.len(),
                xi@.children.len() == xi.children@.len(),
                forall|j: int| 0 <= j < xi.children@.len() ==> #[trigger] xi@.children[j] == xi.children@[j]@,
                children@.len() == i,
                forall|j: int| 0 <= j < i ==> #[trigger] children@[j]@ == numbered(xi@.children[j], self.symbol_names()),
                forall|j: int| 0 <= j < i ==> #[trigger] known_labels(xi@.children[j], self.symbol_names()),
            decreases xi.children@.len() - i,
        {
            let c = match self.to_ids(&xi.children[i]) {
                Ok(c) => c,
                Err(e) => {
                    proof {
                        assert(xi@.children[i as int] == xi.children@[i as int]@);
                        assert(!known_labels(xi@.children[i as int], self.symbol_names()));
                        lemma_known_children(xi@, self.symbol_names(), xi@.children.len() as int);
                        assert(!known_children(xi@, self.symbol_names(), xi@.children.len() as int));
                    }
                    return Err(e);
                },
            };
            children.push(c);
            i = i + 1;
        }
        let t = Tree::new_with_children(root, children);
        proof {
            assert(t@.children =~= numbered(xi@, self.symbol_names()).children);
        }
        Ok(t)
    }

    /// The tree with each symbol number replaced by its name.
    pub fn to_names(&self, t: &Tree<usize>) -> (r: Tree<String>)
        requires
            self.wf(),
            labels_below(t@, self.symbol_names().len()),
        ensures
            known_labels(r@, self.symbol_names()),
            numbered(r@, self.symbol_names()) == t@,
        decreases t,
    {
        proof {
            lemma_view(*t);
            lemma_children_below(t@, self.symbol_names().len(), t@.children.len() as int);
        }
        let root = self.symbol_name(t.root);
        let mut children: Vec<Tree<String>> = Vec::new();
        let mut i: usize = 0;
        while i < t.children.len()
            invariant
                self.wf(),
                i <= t.children@.len(),
                t@.children.len() == t.children@.len(),
                forall|j: int| 0 <= j < t.children@.len() ==> #[trigger] t@.children[j] == t.children@[j]@,
                forall|j: int| 0 <= j < t.children@.len() ==> #[trigger] labels_below(t@.children[j], self.symbol_names().len()),
                children@.len() == i,
                forall|j: int| 0 <= j < i ==> #[trigger] numbered(children@[j]@, self.symbol_names()) == t@.children[j],
                forall|j: int| 0 <= j < i ==> known_labels(#[trigger] children@[j]@, self.symbol_names()),
            decreases t.children@.len() - i,
        {
            proof {
                assert(t@.children[i as int] == t.children@[i as int]@);
            }
            let c = self.to_names(&t.children[i]);
            children.push(c);
            i = i + 1;
        }
        let r = Tree::new_with_children(root, children);
        proof {
            lemma_numbered_children(r@, self.symbol_names(), r@.children.len() as int);
            lemma_known_children(r@, self.symbol_names(), r@.children.len() as int);
            assert(numbered(r@, self.symbol_names()).children =~= t@.children);
        }
        r
    }

    /// Whether every label of the tree is a symbol of the automaton: the
    /// condition of the queries below. A label that no transition has is a
    /// mismatch between tree and automaton, which a caller treats as fatal.
    pub fn knows_labels(&self, xi: &Tree<String>) -> (r: bool)
        requires
            self.wf(),
        ensures
            r == known_labels(xi@, self.symbol_names()),
    {
        self.to_ids(xi).is_ok()
    }

    /// Pr(ξ): the probability of a tree (runs through holes count 0). Every
    /// label must be a symbol of the automaton (see `knows_labels`); a
    /// symbol without transitions from some state only gives that state
    /// weight 0.
    pub fn probability(&self, xi: &Tree<String>) -> (r: u64)
        requires
            self.wf(),
            known_labels(xi@, self.symbol_names()),
        ensures
            r == self.tree_probability(numbered(xi@, self.symbol_names())),
    {
        match self.to_ids(xi) {
            Ok(t) => self.probability_ids(&t),
            Err(_) => 0,
        }
    }

    /// The probability of a tree with every hole counted as weight 1.
    pub fn prefix_probability(&self, xi: &Tree<String>) -> (r: u64)
        requires
            self.wf(),
            known_labels(xi@, self.symbol_names()),
        ensures
            r == self.tree_prefix_probability(numbered(xi@, self.symbol_names())),
    {
        match self.to_ids(xi) {
            Ok(t) => self.prefix_probability_ids(&t),
            Err(_) => 0,
        }
    }

    /// PP(ξ) = min(prefix probability, |Q|² / height(ξ)).
    pub fn potential_probability(&self, xi: &Tree<String>) -> (r: u64)
        requires
            self.wf(),
            known_labels(xi@, self.symbol_names()),
            height(xi@) < usize::MAX,
        ensures
            r == self.tree_potential(numbered(xi@, self.symbol_names())),
    {
        proof {
            lemma_numbered_height(xi@, self.symbol_names());
        }
        match self.to_ids(xi) {
            Ok(t) => self.potential_probability_ids(&t),
            Err(_) => 0,
        }
    }
}

} // verus!
