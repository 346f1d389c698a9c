//! S-expressions, the written form of trees: `(s (a) (b))` is the tree with
//! root `s` and the leaves `a` and `b`.
use crate::pta::PtaError;
use crate::text::{chars_of, slice_of, string_of};
use crate::tree::{lemma_view, Shape, Tree};
use vstd::prelude::*;

verus! {

/// An S-expression: an atom, or a list of S-expressions.
#[derive(Debug, PartialEq, Eq)]
pub enum SExp {
    Atom(String),
    List(Vec<SExp>),
}

/// The mathematical value of an S-expression.
pub enum Sx {
    Atom(Seq<char>),
    List(Seq<Sx>),
}

/// The value of an S-expression.
pub open spec fn sx_of(e: SExp) -> Sx
    decreases e, 1int, 0int,
{
    match e {
        SExp::Atom(a) => Sx::Atom(a@),
        SExp::List(items) => Sx::List(sx_items_of(e, items@.len() as int)),
    }
}

/// The values of the first `n` items of the list `e`.
pub open spec fn sx_items_of(e: SExp, n: int) -> Seq<Sx>
    decreases e, 0int, n,
{
    match e {
        SExp::Atom(_) => Seq::empty(),
        SExp::List(items) => if n <= 0 || n > items@.len() {
            Seq::empty()
        } else {
            sx_items_of(e, n - 1).push(sx_of(items@[n - 1]))
        },
    }
}

/// The values of the items are the items' values.
pub proof fn lemma_sx_items_of(e: SExp, n: int)
    requires
        e is List,
        0 <= n <= e->List_0@.len(),
    ensures
        sx_items_of(e, n).len() == n,
        forall|j: int| 0 <= j < n ==> #[trigger] sx_items_of(e, n)[j] == sx_of(e->List_0@[j]),
    decreases n,
{
    if n > 0 {
        lemma_sx_items_of(e, n - 1);
    }
}

/// The first position from `i` on that holds no space.
pub open spec fn spaces_end(s: Seq<char>, i: int) -> int
    decreases s.len() - i,
{
    if 0 <= i < s.len() && s[i] == ' ' {
        spaces_end(s, i + 1)
    } else {
        i
    }
}

/// The first position from `i` on that holds a space or `)`.
pub open spec fn atom_end(s: Seq<char>, i: int) -> int
    decreases s.len() - i,
{
    if 0 <= i < s.len() && s[i] != ' ' && s[i] != ')' {
        atom_end(s, i + 1)
    } else {
        i
    }
}

/// The S-expression at position `i` of `s` and the position after it: a
/// list (spaces may come before its `(`), or an atom, one or more
/// characters up to a space or `)`, which must follow.
pub open spec fn sx_parse(s: Seq<char>, i: int) -> Option<(Sx, int)>
    decreases s.len() - i, 1int, 0int,
{
    let j = spaces_end(s, i);
    if 0 <= i <= j < s.len() && s[j] == '(' {
        sx_list(s, j + 1)
    } else {
        let k = atom_end(s, i);
        if k <= i || k >= s.len() {
            None
        } else {
            Some((Sx::Atom(s.subrange(i, k)), k))
        }
    }
}

/// A list from position `p` on (after its `(`): its first item, after
/// optional spaces, then the items that follow.
pub open spec fn sx_list(s: Seq<char>, p: int) -> Option<(Sx, int)>
    decreases s.len() - p + 1, 0int, 0int,
{
    let k = spaces_end(s, p);
    if p < 0 || p > s.len() || k < p || k > s.len() {
        None
    } else {
        match sx_parse(s, k) {
            Some((first, pos)) => if k < pos <= s.len() {
                sx_more(s, pos, seq![first])
            } else {
                None
            },
            None => None,
        }
    }
}

/// The rest of a list after the items `acc`, from `pos` on: while one or
/// more spaces and an item follow, the item; then optional spaces and `)`.
pub open spec fn sx_more(s: Seq<char>, pos: int, acc: Seq<Sx>) -> Option<(Sx, int)>
    decreases s.len() - pos + 1, 0int, 1int,
{
    let m = spaces_end(s, pos);
    let next = if 0 <= pos < m <= s.len() { sx_parse(s, m) } else { None };
    match next {
        Some((e, after)) => if m < after <= s.len() {
            sx_more(s, after, acc.push(e))
        } else {
            sx_close(s, pos, acc)
        },
        None => sx_close(s, pos, acc),
    }
}

/// The end of a list with items `acc`: optional spaces and `)`.
pub open spec fn sx_close(s: Seq<char>, pos: int, acc: Seq<Sx>) -> Option<(Sx, int)> {
    let m = spaces_end(s, pos);
    if 0 <= m < s.len() && s[m] == ')' {
        Some((Sx::List(acc), m + 1))
    } else {
        None
    }
}

/// The first position from `i` on that holds no space.
fn skip_spaces(s: &Vec<char>, i: usize) -> (r: usize)
    requires
        i <= s@.len(),
    ensures
        r as int == spaces_end(s@, i as int),
        i <= r <= s@.len(),
{
    let mut j = i;
    while j < s.len() && s[j] == ' '
        invariant
            i <= j <= s@.len(),
            spaces_end(s@, i as int) == spaces_end(s@, j as int),
        decreases s@.len() - j,
    {
        j = j + 1;
    }
    j
}

/// Parses one S-expression from position `i` on (see `sx_parse`), and
/// returns it with the position after it.
pub fn parse_sexp(s: &Vec<char>, i: usize) -> (r: Option<(SExp, usize)>)
    requires
        i <= s@.len(),
    ensures
        r matches Some((e, j)) ==> i < j <= s@.len() && sx_parse(s@, i as int) == Some((sx_of(e), j as int)),
        r is None ==> sx_parse(s@, i as int) is None,
    decreases s@.len() - i, 1int,
{
    let j = skip_spaces(s, i);
    if j < s.len() && s[j] == '(' {
        return parse_list(s, j + 1);
    }
    let mut k = i;
    while k < s.len() && s[k] != ' ' && s[k] != ')'
        invariant
            i <= k <= s@.len(),
            atom_end(s@, i as int) == atom_end(s@, k as int),
        decreases s@.len() - k,
    {
        k = k + 1;
    }
    if k == i || k == s.len() {
        return None;
    }
    let a = string_of(slice_of(s, i, k));
    Some((SExp::Atom(a), k))
}

/// The items of a list from position `p` on (after its `(`), up to and
/// including its `)` (see `sx_list`).
fn parse_list(s: &Vec<char>, p: usize) -> (r: Option<(SExp, usize)>)
    requires
        0 < p <= s@.len(),
    ensures
        r matches Some((e, j)) ==> p <= j <= s@.len() && sx_list(s@, p as int) == Some((sx_of(e), j as int)),
        r is None ==> sx_list(s@, p as int) is None,
    decreases s@.len() - p + 1, 0int,
{
    let k = skip_spaces(s, p);
    let (first, mut pos) = match parse_sexp(s, k) {
        Some(x) => x,
        None => return None,
    };
    if !(k < pos) {
        return None;
    }
    let mut items: Vec<SExp> = Vec::new();
    items.push(first);
    let ghost mut acc: Seq<Sx> = seq![sx_of(first)];
    let mut more = true;
    while more
        invariant
            p <= pos <= s@.len(),
            items@.len() == acc.len(),
            forall|j: int| 0 <= j < items@.len() ==> #[trigger] acc[j] == sx_of(items@[j]),
            more ==> sx_list(s@, p as int) == sx_more(s@, pos as int, acc),
            !more ==> sx_list(s@, p as int) == sx_close(s@, pos as int, acc),
        decreases s@.len() - pos + (if more { 1int } else { 0int }),
    {
        let m = skip_spaces(s, pos);
        if m == pos {
            more = false;
        } else {
            match parse_sexp(s, m) {
                Some((e, next)) => {
                    if m < next {
                        proof {
                            acc = acc.push(sx_of(e));
                        }
                        items.push(e);
                        pos = next;
                    } else {
                        more = false;
                    }
                },
                None => {
                    more = false;
                },
            }
        }
    }
    let m = skip_spaces(s, pos);
    if m < s.len() && s[m] == ')' {
        let e = SExp::List(items);
        proof {
            lemma_sx_items_of(e, items@.len() as int);
            assert(sx_items_of(e, items@.len() as int) =~= acc);
        }
        Some((e, m + 1))
    } else {
        None
    }
}

impl SExp {
    /// Parses an S-expression (what follows it is ignored).
    pub fn from_str(s: &str) -> (r: Result<SExp, PtaError>)
        ensures
            r matches Ok(e) ==> (sx_parse(s@, 0) matches Some((v, _)) && v == sx_of(e)),
            r is Err ==> sx_parse(s@, 0) is None,
            r matches Err(e) ==> e == PtaError::MalformedModel,
    {
        let chars = chars_of(s);
        match parse_sexp(&chars, 0) {
            Some((e, _)) => Ok(e),
            None => Err(PtaError::MalformedModel),
        }
    }
}

/// The lists among `items`, in order.
pub open spec fn list_items(items: Seq<Sx>) -> Seq<Sx>
    decreases items.len(),
{
    if items.len() == 0 {
        Seq::empty()
    } else {
        list_items(items.drop_last()) + if items.last() is List { seq![items.last()] } else { Seq::empty() }
    }
}

/// The text of the last atom among `items` (empty when there is none).
pub open spec fn last_atom(items: Seq<Sx>) -> Seq<char>
    decreases items.len(),
{
    if items.len() == 0 {
        Seq::empty()
    } else if items.last() is Atom {
        items.last()->Atom_0
    } else {
        last_atom(items.drop_last())
    }
}

/// `t` is the tree of the S-expression `v`: an atom is a leaf; a list gives
/// its last atom as the label and its lists, in order, as the children.
pub open spec fn tree_of_sx(t: Shape<String>, v: Sx) -> bool
    decreases t, 1int, 0int,
{
    match v {
        Sx::Atom(a) => t.label@ == a && t.children.len() == 0,
        Sx::List(items) => t.label@ == last_atom(items) && t.children.len() == list_items(items).len()
            && children_of_sx(t, list_items(items), t.children.len() as int),
    }
}

/// The first `n` children of `t` are the trees of the first `n` of `ls`.
pub open spec fn children_of_sx(t: Shape<String>, ls: Seq<Sx>, n: int) -> bool
    decreases t, 0int, n,
{
    if n <= 0 || n > t.children.len() {
        true
    } else {
        children_of_sx(t, ls, n - 1) && n - 1 < ls.len() && tree_of_sx(t.children[n - 1], ls[n - 1])
    }
}

/// The children match: each of them does.
pub proof fn lemma_children_of_sx(t: Shape<String>, ls: Seq<Sx>, n: int)
    requires
        0 <= n <= t.children.len(),
        n <= ls.len(),
    ensures
        children_of_sx(t, ls, n) <==> forall|j: int| 0 <= j < n ==> #[trigger] tree_of_sx(t.children[j], ls[j]),
    decreases n,
{
    if n > 0 {
        lemma_children_of_sx(t, ls, n - 1);
        if forall|j: int| 0 <= j < n ==> #[trigger] tree_of_sx(t.children[j], ls[j]) {
            assert(tree_of_sx(t.children[n - 1], ls[n - 1]));
            assert(forall|j: int| 0 <= j < n - 1 ==> #[trigger] tree_of_sx(t.children[j], ls[j]));
        }
    }
}

impl Tree<String> {
    /// The tree of an S-expression: an atom is a leaf; a list gives its last
    /// atom as the label (none gives the empty label) and its lists, in
    /// order, as the children.
    pub fn from_sexp(sexp: &SExp) -> (t: Tree<String>)
        ensures
            tree_of_sx(t@, sx_of(*sexp)),
        decreases sexp,
    {
        match sexp {
            SExp::Atom(a) => {
                let t = Tree::new(a.clone());
                proof {
                    lemma_view(t);
                }
                t
            },
            SExp::List(items) => {
                let mut root = String::new();
                let mut children: Vec<Tree<String>> = Vec::new();
                let ghost vs = sx_items_of(*sexp, items@.len() as int);
                proof {
                    lemma_sx_items_of(*sexp, items@.len() as int);
                    assert(vs.subrange(0, 0) =~= Seq::<Sx>::empty());
                }
                let mut i: usize = 0;
                while i < items.len()
                    invariant
                        *sexp == SExp::List(*items),
                        i <= items@.len(),
                        vs.len() == items@.len(),
                        forall|j: int| 0 <= j < items@.len() ==> #[trigger] vs[j] == sx_of(items@[j]),
                        root@ == last_atom(vs.subrange(0, i as int)),
                        children@.len() == list_items(vs.subrange(0, i as int)).len(),
                        forall|j: int| 0 <= j < children@.len() ==> #[trigger] tree_of_sx(children@[j]@, list_items(vs.subrange(0, i as int))[j]),
                    decreases items@.len() - i,
                {
                    let ghost before = vs.subrange(0, i as int);
                    proof {
                        assert(vs.subrange(0, i + 1).drop_last() =~= before);
                        assert(vs.subrange(0, i + 1).last() == sx_of(items@[i as int]));
                    }
                    match &items[i] {
                        SExp::Atom(a) => {
                            root = a.clone();
                            proof {
                                assert(list_items(vs.subrange(0, i + 1)) =~= list_items(before));
                            }
                        },
                        SExp::List(_) => {
                            proof {
                                assert(decreases_to!(items => items@[i as int]));
                                assert(decreases_to!(*sexp => (*sexp)->List_0));
                                assert((*sexp)->List_0 == *items);
                                assert(decreases_to!(*sexp => items@[i as int]));
                            }
                            let c = Tree::from_sexp(&items[i]);
                            let ghost old_children = children@;
                            children.push(c);
                            proof {
                                assert(list_items(vs.subrange(0, i + 1)) =~= list_items(before).push(sx_of(items@[i as int])));
                                assert forall|j: int| 0 <= j < children@.len() implies #[trigger] tree_of_sx(children@[j]@, list_items(vs.subrange(0, i + 1))[j]) by {
                                    if j < old_children.len() {
                                        assert(children@[j] == old_children[j]);
                                    }
                                }
                            }
                        },
                    }
                    i = i + 1;
                }
                proof {
                    assert(vs.subrange(0, items@.len() as int) =~= vs);
                }
                let t = Tree::new_with_children(root, children);
                proof {
                    lemma_children_of_sx(t@, list_items(vs), t@.children.len() as int);
                }
                t
            },
        }
    }

    /// Reads a tree written as an S-expression.
    pub fn from_str(s: &str) -> (r: Result<Tree<String>, PtaError>)
        ensures
            r is Err <==> sx_parse(s@, 0) is None,
            r matches Ok(t) ==> (sx_parse(s@, 0) matches Some((v, _)) && tree_of_sx(t@, v)),
            r matches Err(e) ==> e == PtaError::MalformedModel,
    {
        let e = SExp::from_str(s)?;
        Ok(Tree::from_sexp(&e))
    }
}

} // verus!
