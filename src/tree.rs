//! Ordered labelled trees whose nodes may have open slots ("holes").
use vstd::prelude::*;

verus! {

/// A tree: a label at the root and the ordered list of its children. A node
/// whose label has rank `k` and which has fewer than `k` children has holes:
/// the missing children at the end of its list.
#[derive(Debug, PartialEq, Eq, Hash)]
pub struct Tree<A> {
    pub root: A,
    pub children: Vec<Tree<A>>,
}

/// The mathematical value of a tree: its label and the shapes of its children.
pub struct Shape<L> {
    pub label: L,
    pub children: Seq<Shape<L>>,
}

/// The shape of a tree.
pub open spec fn shape<A>(t: Tree<A>) -> Shape<A>
    decreases t, 1int, 0int,
{
    Shape { label: t.root, children: shapes(t, t.children@.len() as int) }
}

/// The shapes of the first `n` children of `t`.
pub open spec fn shapes<A>(t: Tree<A>, n: int) -> Seq<Shape<A>>
    decreases t, 0int, n,
{
    if n <= 0 || n > t.children@.len() {
        Seq::empty()
    } else {
        shapes(t, n - 1).push(shape(t.children@[n - 1]))
    }
}

impl<A> View for Tree<A> {
    type V = Shape<A>;

    open spec fn view(&self) -> Shape<A> {
        shape(*self)
    }
}

/// The shape of a tree lists the shapes of its children in order.
pub proof fn lemma_shapes<A>(t: Tree<A>, n: int)
    requires
        0 <= n <= t.children@.len(),
    ensures
        shapes(t, n).len() == n,
        forall|i: int| 0 <= i < n ==> #[trigger] shapes(t, n)[i] == t.children@[i]@,
    decreases n,
{
    if n > 0 {
        lemma_shapes(t, n - 1);
    }
}

/// The children of a tree's shape are the shapes of its children.
pub proof fn lemma_view<A>(t: Tree<A>)
    ensures
        t@.label == t.root,
        t@.children.len() == t.children@.len(),
        forall|i: int| 0 <= i < t.children@.len() ==> #[trigger] t@.children[i] == t.children@[i]@,
{
    lemma_shapes(t, t.children@.len() as int);
}

/// A leaf labelled `s`.
pub open spec fn leaf<L>(s: L) -> Shape<L> {
    Shape { label: s, children: Seq::empty() }
}

/// Number of nodes on a longest path from the root to a leaf.
pub open spec fn height<L>(t: Shape<L>) -> nat
    decreases t, 1int, 0int,
{
    1 + children_height(t, t.children.len() as int)
}

/// Largest height among the first `n` children of `t` (0 when there are none).
pub open spec fn children_height<L>(t: Shape<L>, n: int) -> nat
    decreases t, 0int, n,
{
    if n <= 0 || n > t.children.len() {
        0
    } else {
        let h = height(t.children[n - 1]);
        let rest = children_height(t, n - 1);
        if h > rest {
            h
        } else {
            rest
        }
    }
}

/// Whether the node itself misses a child, given the rank of each label.
pub open spec fn open_at_root(t: Shape<usize>, rank: Seq<usize>) -> bool {
    t.label < rank.len() && t.children.len() < rank[t.label as int]
}

/// Depth of the shallowest hole (the root is at depth 0), if there is one.
pub open spec fn hole_depth(t: Shape<usize>, rank: Seq<usize>) -> Option<nat>
    decreases t, 1int, 0int,
{
    if open_at_root(t, rank) {
        Some(0)
    } else {
        match children_hole_depth(t, rank, t.children.len() as int) {
            Some(d) => Some(d + 1),
            None => None,
        }
    }
}

/// Shallowest hole depth among the first `n` children of `t`.
pub open spec fn children_hole_depth(t: Shape<usize>, rank: Seq<usize>, n: int) -> Option<nat>
    decreases t, 0int, n,
{
    if n <= 0 || n > t.children.len() {
        None
    } else {
        let here = hole_depth(t.children[n - 1], rank);
        let rest = children_hole_depth(t, rank, n - 1);
        match (here, rest) {
            (Some(a), Some(b)) => if b <= a {
                Some(b)
            } else {
                Some(a)
            },
            (Some(a), None) => Some(a),
            (None, r) => r,
        }
    }
}

/// A tree is complete when it has no hole.
pub open spec fn is_complete(t: Shape<usize>, rank: Seq<usize>) -> bool {
    hole_depth(t, rank) is None
}

/// Index of the first of the first `n` children of `t` whose shallowest hole
/// lies at depth `d`; `n` when there is none.
pub open spec fn first_child_with_hole(t: Shape<usize>, rank: Seq<usize>, d: nat, n: int) -> int
    decreases n,
{
    if n <= 0 {
        0
    } else {
        let f = first_child_with_hole(t, rank, d, n - 1);
        if f < n - 1 {
            f
        } else if n - 1 < t.children.len() && hole_depth(t.children[n - 1], rank) == Some(d) {
            n - 1
        } else {
            n
        }
    }
}

/// `t` with its first hole in breadth-first order filled by a leaf labelled
/// `s`: the hole is one of the shallowest, and the leftmost of those. A tree
/// without holes stays as it is.
pub open spec fn fill(t: Shape<usize>, s: usize, rank: Seq<usize>) -> Shape<usize>
    decreases t,
{
    if open_at_root(t, rank) {
        Shape { label: t.label, children: t.children.push(leaf(s)) }
    } else {
        match hole_depth(t, rank) {
            None => t,
            Some(d) => {
                let i = first_child_with_hole(t, rank, (d - 1) as nat, t.children.len() as int);
                if 0 <= i < t.children.len() {
                    Shape {
                        label: t.label,
                        children: t.children.update(i, fill(t.children[i], s, rank)),
                    }
                } else {
                    t
                }
            },
        }
    }
}

/// A hole lies above the bottom of the tree.
pub proof fn lemma_hole_depth_below_height(t: Shape<usize>, rank: Seq<usize>)
    ensures
        hole_depth(t, rank) matches Some(d) ==> d < height(t),
    decreases t, 1int, 0int,
{
    if !open_at_root(t, rank) {
        lemma_children_hole_depth(t, rank, t.children.len() as int);
    }
}

/// The shallowest hole among some children lies above their largest height.
pub proof fn lemma_children_hole_depth(t: Shape<usize>, rank: Seq<usize>, n: int)
    requires
        0 <= n <= t.children.len(),
    ensures
        children_hole_depth(t, rank, n) matches Some(d) ==> d < children_height(t, n),
    decreases t, 0int, n,
{
    if n > 0 {
        lemma_hole_depth_below_height(t.children[n - 1], rank);
        lemma_children_hole_depth(t, rank, n - 1);
    }
}

/// The largest height among the first `m` children is at most that among the first `n >= m`.
pub proof fn lemma_children_height_grows<L>(t: Shape<L>, m: int, n: int)
    requires
        0 <= m <= n <= t.children.len(),
    ensures
        children_height(t, m) <= children_height(t, n),
    decreases n - m,
{
    if m < n {
        lemma_children_height_grows(t, m, n - 1);
    }
}

impl<A> Tree<A> {
    /// A tree of one node labelled `root`.
    pub fn new(root: A) -> (t: Tree<A>)
        ensures
            t@ == leaf(root),
    {
        let t = Tree { root, children: Vec::new() };
        proof {
            lemma_view(t);
            assert(t@.children =~= Seq::<Shape<A>>::empty());
        }
        t
    }

    /// A tree with `root_symbol` above the given children.
    pub fn new_with_children(root_symbol: A, children: Vec<Tree<A>>) -> (t: Tree<A>)
        ensures
            t.root == root_symbol,
            t.children == children,
            t@.label == root_symbol,
            t@.children.len() == children@.len(),
            forall|i: int| 0 <= i < children@.len() ==> #[trigger] t@.children[i] == children@[i]@,
    {
        let t = Tree { root: root_symbol, children };
        proof {
            lemma_view(t);
        }
        t
    }

    /// The height of the tree (a leaf has height 1), or `usize::MAX` where
    /// the height does not fit.
    pub fn get_height(&self) -> (r: usize)
        ensures
            r as nat == if height(self@) < usize::MAX {
                height(self@)
            } else {
                usize::MAX as nat
            },
        decreases self,
    {
        proof {
            lemma_view(*self);
        }
        let mut best: usize = 0;
        let mut i: usize = 0;
        while i < self.children.len()
            invariant
                i <= self.children@.len(),
                self@.children.len() == self.children@.len(),
                forall|j: int| 0 <= j < self.children@.len() ==> #[trigger] self@.children[j] == self.children@[j]@,
                best as nat == if children_height(self@, i as int) < usize::MAX {
                    children_height(self@, i as int)
                } else {
                    usize::MAX as nat
                },
            decreases self.children@.len() - i,
        {
            let h = self.children[i].get_height();
            if h > best {
                best = h;
            }
            i = i + 1;
        }
        if best < usize::MAX {
            best + 1
        } else {
            usize::MAX
        }
    }
}


/// Where some of the first `n` children hold a hole at depth `e`, the first of them is found.
pub proof fn lemma_first_child_with_hole_exists(t: Shape<usize>, rank: Seq<usize>, n: int)
    requires
        0 <= n <= t.children.len(),
    ensures
        children_hole_depth(t, rank, n) matches Some(e) ==> first_child_with_hole(t, rank, e, n) < n,
    decreases n,
{
    if n > 0 {
        lemma_first_child_with_hole_exists(t, rank, n - 1);
        if let Some(e) = children_hole_depth(t, rank, n) {
            if children_hole_depth(t, rank, n - 1) == Some(e) {
                lemma_first_child_with_hole_stays(t, rank, e, n - 1, n);
            }
        }
    }
}

/// Once found among the first `m` children, the first child with a hole at
/// depth `e` stays the first among more children.
pub proof fn lemma_first_child_with_hole_stays(t: Shape<usize>, rank: Seq<usize>, e: nat, m: int, n: int)
    requires
        0 <= m <= n,
        first_child_with_hole(t, rank, e, m) < m,
    ensures
        first_child_with_hole(t, rank, e, n) == first_child_with_hole(t, rank, e, m),
    decreases n - m,
{
    if m < n {
        lemma_first_child_with_hole_stays(t, rank, e, m, n - 1);
    }
}

/// Filling a hole makes a tree at most one level higher.
pub proof fn lemma_fill_height(t: Shape<usize>, s: usize, rank: Seq<usize>)
    ensures
        height(fill(t, s, rank)) <= height(t) + 1,
    decreases t,
{
    let n = fill(t, s, rank);
    if open_at_root(t, rank) {
        assert forall|j: int| 0 <= j < t.children.len() implies #[trigger] height(n.children[j]) <= height(t.children[j]) + 1 by {
            assert(n.children[j] == t.children[j]);
        }
        lemma_children_height_step(t, n, t.children.len() as int);
        assert(height(n.children[t.children.len() as int]) == 1) by {
            assert(n.children[t.children.len() as int].children.len() == 0);
        }
        assert(children_height(n, n.children.len() as int) <= children_height(t, t.children.len() as int) + 1);
    } else if let Some(d) = hole_depth(t, rank) {
        let i = first_child_with_hole(t, rank, (d - 1) as nat, t.children.len() as int);
        if 0 <= i < t.children.len() {
            lemma_fill_height(t.children[i], s, rank);
            assert forall|j: int| 0 <= j < t.children.len() implies #[trigger] height(n.children[j]) <= height(t.children[j]) + 1 by {
                if j != i {
                    assert(n.children[j] == t.children[j]);
                }
            }
            lemma_children_height_step(t, n, t.children.len() as int);
        }
    }
}

/// Children that each grow by at most one level make the largest of their
/// heights grow by at most one.
pub proof fn lemma_children_height_step(t: Shape<usize>, n: Shape<usize>, m: int)
    requires
        0 <= m <= t.children.len(),
        m <= n.children.len(),
        forall|j: int| 0 <= j < m ==> #[trigger] height(n.children[j]) <= height(t.children[j]) + 1,
    ensures
        children_height(n, m) <= children_height(t, m) + 1,
    decreases m,
{
    if m > 0 {
        lemma_children_height_step(t, n, m - 1);
        assert(height(n.children[m - 1]) <= height(t.children[m - 1]) + 1);
    }
}

impl Tree<usize> {
    /// A copy of the tree, node by node.
    pub fn copy(&self) -> (t: Tree<usize>)
        ensures
            t@ == self@,
        decreases self,
    {
        proof {
            lemma_view(*self);
        }
        let mut children: Vec<Tree<usize>> = Vec::new();
        let mut i: usize = 0;
        while i < self.children.len()
            invariant
                i <= self.children@.len(),
                children@.len() == i,
                forall|j: int| 0 <= j < i ==> #[trigger] children@[j]@ == self.children@[j]@,
            decreases self.children@.len() - i,
        {
            let c = self.children[i].copy();
            children.push(c);
            i = i + 1;
        }
        let t = Tree { root: self.root, children };
        proof {
            lemma_view(t);
            assert(t@.children =~= self@.children);
        }
        t
    }

    /// Depth of the shallowest hole (the root is at depth 0), given the rank
    /// `sigma[s]` of each label `s`.
    pub fn hole_depth(&self, sigma: &Vec<usize>) -> (r: Option<usize>)
        requires
            height(self@) <= usize::MAX,
        ensures
            r matches Some(d) ==> hole_depth(self@, sigma@) == Some(d as nat),
            r is None ==> hole_depth(self@, sigma@) is None,
        decreases self,
    {
        proof {
            lemma_view(*self);
        }
        if self.root < sigma.len() && self.children.len() < sigma[self.root] {
            return Some(0);
        }
        let mut best: Option<usize> = None;
        let mut i: usize = 0;
        while i < self.children.len()
            invariant
                i <= self.children@.len(),
                height(self@) <= usize::MAX,
                self@.children.len() == self.children@.len(),
                forall|j: int| 0 <= j < self.children@.len() ==> #[trigger] self@.children[j] == self.children@[j]@,
                best matches Some(d) ==> children_hole_depth(self@, sigma@, i as int) == Some(d as nat),
                best is None ==> children_hole_depth(self@, sigma@, i as int) is None,
            decreases self.children@.len() - i,
        {
            proof {
                assert(height(self@.children[i as int]) <= children_height(self@, i as int + 1));
                lemma_children_height_grows(self@, i as int + 1, self@.children.len() as int);
            }
            let here = self.children[i].hole_depth(sigma);
            best = match (here, best) {
                (Some(a), Some(b)) => if b <= a {
                    Some(b)
                } else {
                    Some(a)
                },
                (Some(a), None) => Some(a),
                (None, r) => r,
            };
            i = i + 1;
        }
        proof {
            lemma_children_hole_depth(self@, sigma@, self@.children.len() as int);
        }
        match best {
            Some(d) => Some(d + 1),
            None => None,
        }
    }

    /// Fills the first hole in breadth-first order (the leftmost of the
    /// shallowest holes) with a leaf labelled `s`, given the rank `sigma[s]`
    /// of each label `s`. Returns whether the tree still has a hole.
    pub fn extend(&mut self, s: usize, sigma: &Vec<usize>) -> (prefix: bool)
        requires
            height(old(self)@) < usize::MAX,
        ensures
            final(self)@ == fill(old(self)@, s, sigma@),
            prefix == !is_complete(final(self)@, sigma@),
    {
        proof {
            lemma_fill_height(self@, s, sigma@);
        }
        match self.hole_depth(sigma) {
            Some(d) => {
                self.fill_at(s, sigma, d);
                self.hole_depth(sigma).is_some()
            },
            None => false,
        }
    }

    /// Fills the hole at depth `d`, the shallowest one, with a leaf `s`.
    fn fill_at(&mut self, s: usize, sigma: &Vec<usize>, d: usize)
        requires
            height(old(self)@) <= usize::MAX,
            hole_depth(old(self)@, sigma@) == Some(d as nat),
        ensures
            final(self)@ == fill(old(self)@, s, sigma@),
        decreases old(self)@,
    {
        proof {
            lemma_view(*self);
        }
        if self.root < sigma.len() && self.children.len() < sigma[self.root] {
            let ghost before = self@;
            self.children.push(Tree::new(s));
            proof {
                lemma_view(*self);
                assert(self@.children =~= before.children.push(leaf(s)));
            }
            return;
        }
        let ghost t0 = self@;
        assert(d >= 1);
        let mut i: usize = 0;
        let mut found = false;
        while !found && i < self.children.len()
            invariant
                i <= self.children@.len(),
                d >= 1,
                self@ == t0,
                height(t0) <= usize::MAX,
                hole_depth(t0, sigma@) == Some(d as nat),
                !open_at_root(t0, sigma@),
                t0.children.len() == self.children@.len(),
                forall|j: int| 0 <= j < self.children@.len() ==> #[trigger] t0.children[j] == self.children@[j]@,
                first_child_with_hole(t0, sigma@, (d - 1) as nat, i as int) == i,
                found ==> i < self.children@.len() && hole_depth(t0.children[i as int], sigma@) == Some((d - 1) as nat),
            decreases self.children@.len() - i + (if found { 0int } else { 1int }),
        {
            proof {
                assert(height(t0.children[i as int]) <= children_height(t0, i as int + 1));
                lemma_children_height_grows(t0, i as int + 1, t0.children.len() as int);
            }
            let here = self.children[i].hole_depth(sigma);
            if here == Some(d - 1) {
                found = true;
            } else {
                i = i + 1;
            }
        }
        proof {
            if !found {
                lemma_first_child_with_hole_exists(t0, sigma@, t0.children.len() as int);
            }
            assert(first_child_with_hole(t0, sigma@, (d - 1) as nat, i as int + 1) == i);
            lemma_first_child_with_hole_stays(t0, sigma@, (d - 1) as nat, i as int + 1, t0.children.len() as int);
            assert(height(t0.children[i as int]) <= children_height(t0, i as int + 1));
            lemma_children_height_grows(t0, i as int + 1, t0.children.len() as int);
        }
        let mut child = self.children.remove(i);
        child.fill_at(s, sigma, d - 1);
        self.children.insert(i, child);
        proof {
            lemma_view(*self);
            assert(self@.children =~= t0.children.update(i as int, fill(t0.children[i as int], s, sigma@)));
        }
    }
}

} // verus!
