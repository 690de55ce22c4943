//! The term table, and the generalisation (anti-unification) of its terms.

use vstd::prelude::*;
use std::collections::HashMap;
use typed_index_collections::TiVec;
use crate::error::Error;
use crate::idx::{QuantIdx, TermIdx};
use crate::items::TermId;
use crate::table::{
    meanings_try_reserve, rows_get, rows_len, rows_new, rows_push, rows_try_reserve, term_rows,
};

verus! {

/// What stands at the head of a term.
#[derive(Clone, Copy, Debug, PartialEq, Eq, Hash, Structural)]
pub enum TermKind {
    /// A variable bound by a quantifier, by its position.
    Var(usize),
    /// The application of a function symbol, by the number of its name.
    App(usize),
    /// A quantified formula.
    Quant(QuantIdx),
    /// A placeholder that stands for any term.
    Generalised,
}

/// One row of the term table.
#[derive(Debug, Clone)]
pub struct Term {
    pub id: Option<TermId>,
    pub kind: TermKind,
    pub child_ids: Vec<TermIdx>,
}

/// What a theory reads into a term: the theory and the value, both as
/// numbers of strings.
#[derive(Clone, Copy, Debug, PartialEq, Eq, Structural)]
pub struct Meaning {
    pub theory: usize,
    pub value: usize,
}

/// A term written out as a tree.
pub struct TermTree {
    pub head: TermKind,
    pub children: Seq<TermTree>,
}

/// The tree of a placeholder.
pub open spec fn hole() -> TermTree {
    TermTree { head: TermKind::Generalised, children: Seq::empty() }
}

/// Every child of a row stands before the row.
pub open spec fn rows_wf(rows: Seq<Term>) -> bool {
    forall|i: int, k: int|
        0 <= i < rows.len() && 0 <= k < rows[i].child_ids@.len() ==> (
        #[trigger] rows[i].child_ids@[k]).0 < i
}

/// Every child of `term` is one of the first `n` rows.
pub open spec fn children_known(term: Term, n: nat) -> bool {
    forall|k: int| 0 <= k < term.child_ids@.len() ==> (#[trigger] term.child_ids@[k]).0 < n
}

/// Every index of `children` is below `n`.
pub open spec fn children_below(children: Seq<TermIdx>, n: nat) -> bool {
    forall|k: int| 0 <= k < children.len() ==> (#[trigger] children[k]).0 < n
}

/// `ext` starts with the rows of `base`.
pub open spec fn extends(base: Seq<Term>, ext: Seq<Term>) -> bool {
    &&& base.len() <= ext.len()
    &&& forall|i: int| 0 <= i < base.len() ==> #[trigger] ext[i] == base[i]
}

/// The tree of row `i`. A placeholder has no children, whatever its row
/// lists; a position outside the table reads as a placeholder.
pub open spec fn tree_of(rows: Seq<Term>, i: int) -> TermTree
    decreases i,
{
    if 0 <= i < rows.len() && !(rows[i].kind is Generalised) {
        TermTree {
            head: rows[i].kind,
            children: Seq::new(
                rows[i].child_ids@.len(),
                |k: int|
                    if 0 <= k < rows[i].child_ids@.len() && rows[i].child_ids@[k].0 < i {
                        tree_of(rows, rows[i].child_ids@[k].0 as int)
                    } else {
                        hole()
                    },
            ),
        }
    } else {
        hole()
    }
}

/// The least general tree of which both `a` and `b` are instances: where the
/// heads and the numbers of children agree, the children are generalised in
/// turn; elsewhere stands a placeholder.
pub open spec fn antiunify(a: TermTree, b: TermTree) -> TermTree
    decreases a,
{
    if a.head == b.head && a.children.len() == b.children.len() && !(a.head is Generalised) {
        TermTree {
            head: a.head,
            children: Seq::new(
                a.children.len(),
                |k: int|
                    if 0 <= k < a.children.len() {
                        antiunify(a.children[k], b.children[k])
                    } else {
                        hole()
                    },
            ),
        }
    } else {
        hole()
    }
}

/// The tree with a placeholder in place of every variable.
pub open spec fn without_vars(t: TermTree) -> TermTree
    decreases t,
{
    if t.head is Var || t.head is Generalised {
        hole()
    } else {
        TermTree {
            head: t.head,
            children: Seq::new(
                t.children.len(),
                |k: int|
                    if 0 <= k < t.children.len() {
                        without_vars(t.children[k])
                    } else {
                        hole()
                    },
            ),
        }
    }
}

/// No placeholder in the tree has children.
pub open spec fn tree_ok(t: TermTree) -> bool
    decreases t,
{
    if t.head is Generalised {
        t.children.len() == 0
    } else {
        forall|k: int| 0 <= k < t.children.len() ==> tree_ok(#[trigger] t.children[k])
    }
}

/// Generalisation does not depend on the order of its arguments.
pub proof fn lemma_antiunify_commutes(a: TermTree, b: TermTree)
    ensures
        antiunify(a, b) == antiunify(b, a),
    decreases a,
{
    if a.head == b.head && a.children.len() == b.children.len() && !(a.head is Generalised) {
        assert forall|k: int| 0 <= k < a.children.len() implies antiunify(
            a.children[k],
            b.children[k],
        ) == antiunify(b.children[k], a.children[k]) by {
            lemma_antiunify_commutes(a.children[k], b.children[k]);
        }
        assert(antiunify(a, b).children =~= antiunify(b, a).children);
    }
}

/// Generalising a tree with itself gives the tree back.
pub proof fn lemma_antiunify_idempotent(a: TermTree)
    requires
        tree_ok(a),
    ensures
        antiunify(a, a) == a,
    decreases a,
{
    if !(a.head is Generalised) {
        assert forall|k: int| 0 <= k < a.children.len() implies antiunify(
            a.children[k],
            a.children[k],
        ) == a.children[k] by {
            lemma_antiunify_idempotent(a.children[k]);
        }
        assert(antiunify(a, a).children =~= a.children);
    } else {
        assert(a.children =~= Seq::empty());
    }
}

/// Generalising three trees gives the same tree however they are paired.
pub proof fn lemma_antiunify_associative(a: TermTree, b: TermTree, c: TermTree)
    ensures
        antiunify(antiunify(a, b), c) == antiunify(a, antiunify(b, c)),
    decreases a,
{
    let ab = antiunify(a, b);
    let bc = antiunify(b, c);
    let same_ab = a.head == b.head && a.children.len() == b.children.len() && !(a.head
        is Generalised);
    let same_bc = b.head == c.head && b.children.len() == c.children.len() && !(b.head
        is Generalised);
    if same_ab && same_bc {
        assert forall|k: int| 0 <= k < a.children.len() implies antiunify(
            antiunify(a.children[k], b.children[k]),
            c.children[k],
        ) == antiunify(a.children[k], antiunify(b.children[k], c.children[k])) by {
            lemma_antiunify_associative(a.children[k], b.children[k], c.children[k]);
        }
        assert(antiunify(ab, c).children =~= antiunify(a, bc).children);
    }
}

/// The result of a generalisation has no placeholder with children.
pub proof fn lemma_antiunify_ok(a: TermTree, b: TermTree)
    ensures
        tree_ok(antiunify(a, b)),
    decreases a,
{
    if a.head == b.head && a.children.len() == b.children.len() && !(a.head is Generalised) {
        assert forall|k: int| 0 <= k < a.children.len() implies tree_ok(
            #[trigger] antiunify(a, b).children[k],
        ) by {
            lemma_antiunify_ok(a.children[k], b.children[k]);
        }
    }
}

/// The tree of a row has no placeholder with children.
pub proof fn lemma_tree_of_ok(rows: Seq<Term>, i: int)
    ensures
        tree_ok(tree_of(rows, i)),
    decreases i,
{
    if 0 <= i < rows.len() && !(rows[i].kind is Generalised) {
        let t = tree_of(rows, i);
        assert forall|k: int| 0 <= k < t.children.len() implies tree_ok(#[trigger] t.children[k]) by {
            if rows[i].child_ids@[k].0 < i {
                lemma_tree_of_ok(rows, rows[i].child_ids@[k].0 as int);
            }
        }
    }
}

/// Appending rows changes no tree of the rows that were there.
pub proof fn lemma_tree_of_extends(base: Seq<Term>, ext: Seq<Term>, i: int)
    requires
        extends(base, ext),
        0 <= i < base.len(),
    ensures
        tree_of(ext, i) == tree_of(base, i),
    decreases i,
{
    if !(base[i].kind is Generalised) {
        assert forall|k: int| 0 <= k < base[i].child_ids@.len() implies tree_of(ext, i).children[k]
            == tree_of(base, i).children[k] by {
            if base[i].child_ids@[k].0 < i {
                lemma_tree_of_extends(base, ext, base[i].child_ids@[k].0 as int);
            }
        }
        assert(tree_of(ext, i).children =~= tree_of(base, i).children);
    }
}

/// Row `j` is the first row with the given head and children.
pub open spec fn is_first_row(rows: Seq<Term>, kind: TermKind, children: Seq<TermIdx>, j: int) -> bool {
    &&& 0 <= j < rows.len()
    &&& rows[j].kind == kind
    &&& rows[j].child_ids@ == children
    &&& forall|i: int|
        0 <= i < j ==> !((#[trigger] rows[i]).kind == kind && rows[i].child_ids@ == children)
}

/// The first row with the given head and children; the number of rows where
/// no row has them.
pub open spec fn first_row(rows: Seq<Term>, kind: TermKind, children: Seq<TermIdx>) -> int {
    if exists|j: int| is_first_row(rows, kind, children, j) {
        choose|j: int| is_first_row(rows, kind, children, j)
    } else {
        rows.len() as int
    }
}

/// The row that stands for the generalisation of rows `a` and `b` in a table
/// that has it. A row generalises with itself to itself. Two rows with the
/// same head and equally many children generalise to the first row with
/// that head whose children are the rows that generalise their children.
/// Two other rows generalise to the first placeholder without children.
/// The table shares rows in this way: it never holds a second row for a
/// head and children that it has.
pub open spec fn generalised_row(rows: Seq<Term>, a: int, b: int) -> int
    decreases a, 1int,
{
    if a == b || !(0 <= a < rows.len() && 0 <= b < rows.len()) {
        a
    } else if rows[a].kind == rows[b].kind && rows[a].child_ids@.len() == rows[b].child_ids@.len()
        && !(rows[a].kind is Generalised) {
        first_row(
            rows,
            rows[a].kind,
            generalised_children(rows, a, b),
        )
    } else {
        first_row(rows, TermKind::Generalised, Seq::empty())
    }
}

/// The rows that generalise the children of rows `a` and `b`, child by
/// child.
pub open spec fn generalised_children(rows: Seq<Term>, a: int, b: int) -> Seq<TermIdx>
    decreases a, 0int,
{
    Seq::new(
        if 0 <= a < rows.len() {
            rows[a].child_ids@.len()
        } else {
            0
        },
        |k: int|
            if 0 <= a < rows.len() && 0 <= b < rows.len() && 0 <= k < rows[a].child_ids@.len() && k
                < rows[b].child_ids@.len() && rows[a].child_ids@[k].0 < a {
                TermIdx(
                    generalised_row(
                        rows,
                        rows[a].child_ids@[k].0 as int,
                        rows[b].child_ids@[k].0 as int,
                    ) as usize,
                )
            } else {
                TermIdx(0)
            },
    )
}

/// The rows that stand for the children of a pattern, child by child.
pub open spec fn pattern_children(rows: Seq<Term>, p: int) -> Seq<TermIdx>
    decreases p, 0int,
{
    Seq::new(
        if 0 <= p < rows.len() {
            rows[p].child_ids@.len()
        } else {
            0
        },
        |k: int|
            if 0 <= p < rows.len() && 0 <= k < rows[p].child_ids@.len() && rows[p].child_ids@[k].0
                < p {
                TermIdx(pattern_row(rows, rows[p].child_ids@[k].0 as int) as usize)
            } else {
                TermIdx(0)
            },
    )
}

/// The row that stands for a pattern with a placeholder in place of every
/// variable, in a table that has it: the first placeholder without children
/// for a variable or a placeholder, else the first row with the head of the
/// pattern whose children are the rows that stand for its children.
pub open spec fn pattern_row(rows: Seq<Term>, p: int) -> int
    decreases p, 1int,
{
    if !(0 <= p < rows.len()) {
        p
    } else if rows[p].kind is Generalised || rows[p].kind is Var {
        first_row(rows, TermKind::Generalised, Seq::empty())
    } else {
        first_row(
            rows,
            rows[p].kind,
            pattern_children(rows, p),
        )
    }
}

/// A first row is the first row.
pub proof fn lemma_first_row_is(rows: Seq<Term>, kind: TermKind, children: Seq<TermIdx>, j: int)
    requires
        is_first_row(rows, kind, children, j),
    ensures
        first_row(rows, kind, children) == j,
{
    let c = choose|c: int| is_first_row(rows, kind, children, c);
    if c < j {
        assert(rows[c].kind == kind && rows[c].child_ids@ == children);
    } else if j < c {
        assert(rows[j].kind == kind && rows[j].child_ids@ == children);
    }
}

/// The first row is a row of the table, or the number of rows.
pub proof fn lemma_first_row_bounds(rows: Seq<Term>, kind: TermKind, children: Seq<TermIdx>)
    ensures
        0 <= first_row(rows, kind, children) <= rows.len(),
        first_row(rows, kind, children) < rows.len() ==> is_first_row(
            rows,
            kind,
            children,
            first_row(rows, kind, children),
        ),
{
}

/// Appending rows to a table that has a row with a head and children leaves
/// the first such row the first.
pub proof fn lemma_first_row_stays(base: Seq<Term>, ext: Seq<Term>, kind: TermKind, children: Seq<TermIdx>)
    requires
        extends(base, ext),
        first_row(base, kind, children) < base.len(),
    ensures
        first_row(ext, kind, children) == first_row(base, kind, children),
{
    lemma_first_row_bounds(base, kind, children);
    let j = first_row(base, kind, children);
    assert(is_first_row(ext, kind, children, j)) by {
        assert(ext[j] == base[j]);
        assert forall|i: int| 0 <= i < j implies !((#[trigger] ext[i]).kind == kind
            && ext[i].child_ids@ == children) by {
            assert(ext[i] == base[i]);
        }
    }
    lemma_first_row_is(ext, kind, children, j);
}

/// The row that generalises two rows is a row of the table, or the number
/// of rows.
pub proof fn lemma_generalised_row_bounds(rows: Seq<Term>, a: int, b: int)
    requires
        0 <= a < rows.len(),
    ensures
        0 <= generalised_row(rows, a, b) <= rows.len(),
{
    if a == b || !(0 <= b < rows.len()) {
    } else if rows[a].kind == rows[b].kind && rows[a].child_ids@.len() == rows[b].child_ids@.len()
        && !(rows[a].kind is Generalised) {
        lemma_first_row_bounds(
            rows,
            rows[a].kind,
            generalised_children(rows, a, b),
        );
    } else {
        lemma_first_row_bounds(rows, TermKind::Generalised, Seq::empty());
    }
}

/// A table shares the rows of its generalisations: once it has the row that
/// generalises two rows, appending rows changes nothing of which row that
/// is.
pub proof fn lemma_generalised_row_stays(base: Seq<Term>, ext: Seq<Term>, a: int, b: int)
    requires
        rows_wf(base),
        extends(base, ext),
        base.len() <= usize::MAX,
        0 <= a < base.len(),
        0 <= b < base.len(),
        generalised_row(base, a, b) < base.len(),
    ensures
        generalised_row(ext, a, b) == generalised_row(base, a, b),
    decreases a,
{
    assert(ext[a] == base[a] && ext[b] == base[b]);
    if a == b {
    } else if base[a].kind == base[b].kind && base[a].child_ids@.len() == base[b].child_ids@.len()
        && !(base[a].kind is Generalised) {
        let kind = base[a].kind;
        let n = base[a].child_ids@.len();
        let below = generalised_children(base, a, b);
        let above = generalised_children(ext, a, b);
        lemma_first_row_bounds(base, kind, below);
        let r = first_row(base, kind, below);
        assert(base[r].child_ids@ == below);
        assert forall|k: int| 0 <= k < n implies above[k] == below[k] by {
            let ca = base[a].child_ids@[k].0 as int;
            let cb = base[b].child_ids@[k].0 as int;
            assert(base[a].child_ids@[k].0 < a);
            assert(base[b].child_ids@[k].0 < b);
            lemma_generalised_row_bounds(base, ca, cb);
            assert(base[r].child_ids@[k].0 < r);
            assert(below[k].0 < r);
            lemma_generalised_row_stays(base, ext, ca, cb);
        }
        assert(above =~= below);
        lemma_first_row_stays(base, ext, kind, below);
    } else {
        lemma_first_row_stays(base, ext, TermKind::Generalised, Seq::empty());
    }
}

/// A table that has the row that generalises two rows with the same head
/// has the rows that generalise their children.
pub proof fn lemma_generalised_children_known(rows: Seq<Term>, a: int, b: int, k: int)
    requires
        rows_wf(rows),
        rows.len() <= usize::MAX,
        0 <= a < rows.len(),
        0 <= b < rows.len(),
        a != b,
        rows[a].kind == rows[b].kind,
        rows[a].child_ids@.len() == rows[b].child_ids@.len(),
        !(rows[a].kind is Generalised),
        generalised_row(rows, a, b) < rows.len(),
        0 <= k < rows[a].child_ids@.len(),
    ensures
        0 <= generalised_row(rows, rows[a].child_ids@[k].0 as int, rows[b].child_ids@[k].0 as int)
            < rows.len(),
{
    let kids = generalised_children(rows, a, b);
    lemma_first_row_bounds(rows, rows[a].kind, kids);
    let r = first_row(rows, rows[a].kind, kids);
    assert(rows[r].child_ids@ == kids);
    assert(rows[a].child_ids@[k].0 < a);
    assert(rows[r].child_ids@[k].0 < r);
    lemma_generalised_row_bounds(
        rows,
        rows[a].child_ids@[k].0 as int,
        rows[b].child_ids@[k].0 as int,
    );
}

/// A table that has the row that stands for a pattern has the rows that
/// stand for its children.
pub proof fn lemma_pattern_children_known(rows: Seq<Term>, p: int, k: int)
    requires
        rows_wf(rows),
        rows.len() <= usize::MAX,
        0 <= p < rows.len(),
        !(rows[p].kind is Generalised),
        !(rows[p].kind is Var),
        pattern_row(rows, p) < rows.len(),
        0 <= k < rows[p].child_ids@.len(),
    ensures
        0 <= pattern_row(rows, rows[p].child_ids@[k].0 as int) < rows.len(),
{
    let kids = pattern_children(rows, p);
    lemma_first_row_bounds(rows, rows[p].kind, kids);
    let r = first_row(rows, rows[p].kind, kids);
    assert(rows[r].child_ids@ == kids);
    assert(rows[p].child_ids@[k].0 < p);
    assert(rows[r].child_ids@[k].0 < r);
    lemma_pattern_row_bounds(rows, rows[p].child_ids@[k].0 as int);
}

/// The row that stands for a pattern is a row of the table, or the number of
/// rows.
pub proof fn lemma_pattern_row_bounds(rows: Seq<Term>, p: int)
    requires
        0 <= p < rows.len(),
    ensures
        0 <= pattern_row(rows, p) <= rows.len(),
{
    if rows[p].kind is Generalised || rows[p].kind is Var {
        lemma_first_row_bounds(rows, TermKind::Generalised, Seq::empty());
    } else {
        lemma_first_row_bounds(
            rows,
            rows[p].kind,
            pattern_children(rows, p),
        );
    }
}

/// Once a table has the row that stands for a pattern, appending rows
/// changes nothing of which row that is.
pub proof fn lemma_pattern_row_stays(base: Seq<Term>, ext: Seq<Term>, p: int)
    requires
        rows_wf(base),
        extends(base, ext),
        base.len() <= usize::MAX,
        0 <= p < base.len(),
        pattern_row(base, p) < base.len(),
    ensures
        pattern_row(ext, p) == pattern_row(base, p),
    decreases p,
{
    assert(ext[p] == base[p]);
    if base[p].kind is Generalised || base[p].kind is Var {
        lemma_first_row_stays(base, ext, TermKind::Generalised, Seq::empty());
    } else {
        let kind = base[p].kind;
        let n = base[p].child_ids@.len();
        let below = pattern_children(base, p);
        let above = pattern_children(ext, p);
        lemma_first_row_bounds(base, kind, below);
        let r = first_row(base, kind, below);
        assert(base[r].child_ids@ == below);
        assert forall|k: int| 0 <= k < n implies above[k] == below[k] by {
            let c = base[p].child_ids@[k].0 as int;
            assert(base[p].child_ids@[k].0 < p);
            lemma_pattern_row_bounds(base, c);
            assert(base[r].child_ids@[k].0 < r);
            assert(below[k].0 < r);
            lemma_pattern_row_stays(base, ext, c);
        }
        assert(above =~= below);
        lemma_first_row_stays(base, ext, kind, below);
    }
}

/// The generalisation of all the trees of a list, taken one after the
/// other; a placeholder for no tree.
pub open spec fn generalise_all(trees: Seq<TermTree>) -> TermTree
    decreases trees.len(),
{
    if trees.len() == 0 {
        hole()
    } else if trees.len() == 1 {
        trees[0]
    } else {
        antiunify(generalise_all(trees.drop_last()), trees.last())
    }
}

/// No placeholder in the trees of the list has children.
pub open spec fn trees_ok(trees: Seq<TermTree>) -> bool {
    forall|i: int| 0 <= i < trees.len() ==> tree_ok(#[trigger] trees[i])
}

/// The generalisation of trees without placeholders with children has none.
pub proof fn lemma_generalise_all_ok(trees: Seq<TermTree>)
    requires
        trees_ok(trees),
    ensures
        tree_ok(generalise_all(trees)),
    decreases trees.len(),
{
    if trees.len() >= 2 {
        lemma_antiunify_ok(generalise_all(trees.drop_last()), trees.last());
    } else if trees.len() == 1 {
        assert(tree_ok(trees[0]));
    }
}

/// Generalising with a tree of the list once more changes nothing.
pub proof fn lemma_generalise_all_absorbs(trees: Seq<TermTree>, x: TermTree)
    requires
        trees_ok(trees),
        trees.contains(x),
    ensures
        antiunify(generalise_all(trees), x) == generalise_all(trees),
    decreases trees.len(),
{
    let i = choose|i: int| 0 <= i < trees.len() && trees[i] == x;
    assert(tree_ok(trees[i]));
    if trees.len() == 1 {
        lemma_antiunify_idempotent(x);
    } else {
        let rest = trees.drop_last();
        let y = trees.last();
        let g = generalise_all(rest);
        assert(trees_ok(rest)) by {
            assert forall|k: int| 0 <= k < rest.len() implies tree_ok(#[trigger] rest[k]) by {
                assert(rest[k] == trees[k]);
            }
        }
        assert(tree_ok(trees[trees.len() - 1]));
        if x == y {
            lemma_antiunify_associative(g, y, y);
            lemma_antiunify_idempotent(y);
        } else {
            assert(rest[i] == x);
            lemma_generalise_all_absorbs(rest, x);
            lemma_antiunify_associative(g, y, x);
            lemma_antiunify_commutes(y, x);
            lemma_antiunify_associative(g, x, y);
        }
    }
}

/// Generalising with all the trees of a second list, each of which is in
/// the first, changes nothing.
pub proof fn lemma_generalise_all_absorbs_all(trees: Seq<TermTree>, others: Seq<TermTree>)
    requires
        trees_ok(trees),
        others.len() > 0,
        forall|i: int| 0 <= i < others.len() ==> trees.contains(#[trigger] others[i]),
    ensures
        antiunify(generalise_all(trees), generalise_all(others)) == generalise_all(trees),
    decreases others.len(),
{
    if others.len() == 1 {
        lemma_generalise_all_absorbs(trees, others[0]);
    } else {
        let rest = others.drop_last();
        let y = others.last();
        assert forall|i: int| 0 <= i < rest.len() implies trees.contains(#[trigger] rest[i]) by {
            assert(rest[i] == others[i]);
        }
        lemma_generalise_all_absorbs_all(trees, rest);
        lemma_antiunify_associative(generalise_all(trees), generalise_all(rest), y);
        assert(trees.contains(others[others.len() - 1]));
        lemma_generalise_all_absorbs(trees, y);
    }
}

/// What a list of trees generalises to depends on which trees the list
/// holds only, not on their order nor on how often each is there.
pub proof fn lemma_generalise_all_by_set(one: Seq<TermTree>, other: Seq<TermTree>)
    requires
        trees_ok(one),
        trees_ok(other),
        one.len() > 0,
        other.len() > 0,
        forall|i: int| 0 <= i < one.len() ==> other.contains(#[trigger] one[i]),
        forall|i: int| 0 <= i < other.len() ==> one.contains(#[trigger] other[i]),
    ensures
        generalise_all(one) == generalise_all(other),
{
    lemma_generalise_all_absorbs_all(one, other);
    lemma_generalise_all_absorbs_all(other, one);
    lemma_antiunify_commutes(generalise_all(one), generalise_all(other));
}

/// The term table: rows that are only ever appended, and the meanings that
/// theories attached to some of them.
pub struct Terms {
    terms: TiVec<TermIdx, Term>,
    meanings: HashMap<usize, Meaning>,
}

impl Terms {
    /// The rows of the table.
    pub closed spec fn rows(&self) -> Seq<Term> {
        term_rows(self.terms)
    }

    /// The meanings, by the position of their term.
    pub closed spec fn meanings(&self) -> Map<usize, Meaning> {
        self.meanings@
    }

    /// Every child of a row stands before the row, and the rows can be
    /// counted.
    pub open spec fn wf(&self) -> bool {
        &&& rows_wf(self.rows())
        &&& self.rows().len() <= usize::MAX
    }

    /// The tree of a term.
    pub open spec fn tree(&self, t: TermIdx) -> TermTree {
        tree_of(self.rows(), t.0 as int)
    }

    /// An empty table.
    pub fn new() -> (r: Terms)
        ensures
            r.rows() == Seq::<Term>::empty(),
            r.meanings() == Map::<usize, Meaning>::empty(),
            r.wf(),
    {
        Terms { terms: rows_new(), meanings: HashMap::new() }
    }

    /// The number of rows.
    pub fn len(&self) -> (n: usize)
        ensures
            n == self.rows().len(),
    {
        rows_len(&self.terms)
    }

    /// Tells whether every child of a row stands before the row.
    pub fn is_sound(&self) -> (r: bool)
        ensures
            r == self.wf(),
    {
        let n = rows_len(&self.terms);
        let mut i: usize = 0;
        while i < n
            invariant
                0 <= i <= n,
                n == self.rows().len(),
                forall|a: int, k: int|
                    0 <= a < i && 0 <= k < self.rows()[a].child_ids@.len() ==> (
                    #[trigger] self.rows()[a].child_ids@[k]).0 < a,
            decreases n - i,
        {
            let row = rows_get(&self.terms, TermIdx(i));
            let mut k: usize = 0;
            while k < row.child_ids.len()
                invariant
                    0 <= k <= row.child_ids@.len(),
                    i < n,
                    n == self.rows().len(),
                    *row == self.rows()[i as int],
                    forall|j: int| 0 <= j < k ==> (#[trigger] row.child_ids@[j]).0 < i,
                decreases row.child_ids@.len() - k,
            {
                if row.child_ids[k].0 >= i {
                    assert(!(self.rows()[i as int].child_ids@[k as int].0 < i));
                    return false;
                }
                k += 1;
            }
            i += 1;
        }
        true
    }

    /// The row of a term, if the table has it.
    pub fn get(&self, t: TermIdx) -> (r: Option<&Term>)
        ensures
            r == if t.0 < self.rows().len() {
                Some(&self.rows()[t.0 as int])
            } else {
                None
            },
    {
        if t.0 < rows_len(&self.terms) {
            Some(rows_get(&self.terms, t))
        } else {
            None
        }
    }

    /// The row of a term that the table has.
    pub fn index(&self, t: TermIdx) -> (r: &Term)
        requires
            t.0 < self.rows().len(),
        ensures
            *r == self.rows()[t.0 as int],
    {
        rows_get(&self.terms, t)
    }

    /// Appends a term whose children are all in the table already, and
    /// returns its index. A child that is not there is an unknown identifier.
    /// Where there is no room for the row, the table stays as it is.
    pub fn new_term(&mut self, term: Term) -> (r: Result<TermIdx, Error>)
        requires
            old(self).wf(),
        ensures
            final(self).wf(),
            final(self).meanings() == old(self).meanings(),
            children_known(term, old(self).rows().len()) ==> (r == Ok::<TermIdx, Error>(
                TermIdx(old(self).rows().len() as usize),
            ) && final(self).rows() == old(self).rows().push(term)) || (r == Err::<
                TermIdx,
                Error,
            >(Error::Alloc) && final(self).rows() == old(self).rows()),
            !children_known(term, old(self).rows().len()) ==> r == Err::<TermIdx, Error>(
                Error::UnknownId,
            ) && final(self).rows() == old(self).rows(),
    {
        let n = rows_len(&self.terms);
        let mut k: usize = 0;
        while k < term.child_ids.len()
            invariant
                0 <= k <= term.child_ids@.len(),
                n == self.rows().len(),
                *self == *old(self),
                self.wf(),
                forall|j: int| 0 <= j < k ==> (#[trigger] term.child_ids@[j]).0 < n,
            decreases term.child_ids@.len() - k,
        {
            if term.child_ids[k].0 >= n {
                return Err(Error::UnknownId);
            }
            k += 1;
        }
        if !rows_try_reserve(&mut self.terms) {
            return Err(Error::Alloc);
        }
        let ghost before = self.rows();
        let key = rows_push(&mut self.terms, term);
        // The count of the rows is a number of the machine.
        let _count = rows_len(&self.terms);
        proof {
            let after = self.rows();
            assert forall|i: int, j: int|
                0 <= i < after.len() && 0 <= j < after[i].child_ids@.len() implies (
            #[trigger] after[i].child_ids@[j]).0 < i by {
                if i < before.len() {
                    assert(after[i] == before[i]);
                }
            }
        }
        Ok(key)
    }

    /// The meaning that a theory attached to a term.
    pub fn meaning(&self, tidx: TermIdx) -> (r: Option<&Meaning>)
        ensures
            r == if self.meanings().contains_key(tidx.0) {
                Some(&self.meanings()[tidx.0])
            } else {
                None
            },
    {
        broadcast use vstd::std_specs::hash::group_hash_axioms;

        self.meanings.get(&tidx.0)
    }

    /// The quantifier that a term introduces.
    pub fn quant(&self, quant: TermIdx) -> (r: Result<QuantIdx, Error>)
        ensures
            r == if quant.0 < self.rows().len() && self.rows()[quant.0 as int].kind is Quant {
                Ok::<QuantIdx, Error>(self.rows()[quant.0 as int].kind->Quant_0)
            } else {
                Err::<QuantIdx, Error>(Error::UnknownQuantifierIdx(quant))
            },
    {
        match self.get(quant) {
            Some(row) => match row.kind {
                TermKind::Quant(q) => Ok(q),
                _ => Err(Error::UnknownQuantifierIdx(quant)),
            },
            None => Err(Error::UnknownQuantifierIdx(quant)),
        }
    }

    /// Whether row `j` has the given head and children.
    pub open spec fn row_is(&self, j: int, kind: TermKind, children: Seq<TermIdx>) -> bool {
        0 <= j < self.rows().len() && self.rows()[j].kind == kind && self.rows()[j].child_ids@
            == children
    }

    /// The index of a row with the given head and children: the first such
    /// row where the table has one, else a row appended for it.
    fn intern(&mut self, kind: TermKind, children: Vec<TermIdx>) -> (r: TermIdx)
        requires
            old(self).wf(),
            children_below(children@, old(self).rows().len()),
        ensures
            final(self).wf(),
            extends(old(self).rows(), final(self).rows()),
            final(self).meanings() == old(self).meanings(),
            final(self).row_is(r.0 as int, kind, children@),
            is_first_row(final(self).rows(), kind, children@, r.0 as int),
            forall|j: int| 0 <= j < r.0 ==> !old(self).row_is(j, kind, children@),
            r.0 < old(self).rows().len() ==> final(self).rows() == old(self).rows(),
            r.0 >= old(self).rows().len() ==> final(self).rows().len() == old(self).rows().len()
                + 1,
    {
        let n = rows_len(&self.terms);
        let mut j: usize = 0;
        while j < n
            invariant
                0 <= j <= n,
                n == self.rows().len(),
                *self == *old(self),
                self.wf(),
                forall|i: int| 0 <= i < j ==> !self.row_is(i, kind, children@),
            decreases n - j,
        {
            let row = rows_get(&self.terms, TermIdx(j));
            if row.kind == kind && row.child_ids.len() == children.len() {
                let mut k: usize = 0;
                let mut same = true;
                while k < children.len()
                    invariant
                        0 <= k <= children@.len(),
                        row.child_ids@.len() == children@.len(),
                        same ==> forall|i: int| 0 <= i < k ==> row.child_ids@[i] == children@[i],
                        !same ==> row.child_ids@ != children@,
                    decreases children@.len() - k,
                {
                    if row.child_ids[k] != children[k] {
                        same = false;
                    }
                    k += 1;
                }
                if same {
                    assert(row.child_ids@ =~= children@);
                    assert(is_first_row(self.rows(), kind, children@, j as int)) by {
                        assert forall|i: int| 0 <= i < j implies !((#[trigger] self.rows()[i]).kind
                            == kind && self.rows()[i].child_ids@ == children@) by {
                            assert(!self.row_is(i, kind, children@));
                        }
                    }
                    return TermIdx(j);
                }
            }
            j += 1;
        }
        let ghost before = self.rows();
        let ghost kids = children@;
        let row = Term { id: None, kind, child_ids: children };
        let key = rows_push(&mut self.terms, row);
        // The count of the rows is a number of the machine.
        let _count = rows_len(&self.terms);
        proof {
            let after = self.rows();
            assert(is_first_row(after, kind, kids, key.0 as int)) by {
                assert forall|i: int| 0 <= i < key.0 implies !((#[trigger] after[i]).kind == kind
                    && after[i].child_ids@ == kids) by {
                    assert(after[i] == before[i]);
                    assert(!old(self).row_is(i, kind, kids));
                }
            }
            assert forall|i: int, k: int|
                0 <= i < after.len() && 0 <= k < after[i].child_ids@.len() implies (
            #[trigger] after[i].child_ids@[k]).0 < i by {
                if i < before.len() {
                    assert(after[i] == before[i]);
                }
            }
        }
        key
    }

    /// The tree of an interned row: its head over the trees of its children.
    proof fn lemma_row_tree(&self, r: TermIdx, kind: TermKind, children: Seq<TermIdx>)
        requires
            self.wf(),
            self.row_is(r.0 as int, kind, children),
            !(kind is Generalised),
        ensures
            self.tree(r).head == kind,
            self.tree(r).children.len() == children.len(),
            forall|k: int|
                0 <= k < children.len() ==> #[trigger] self.tree(r).children[k] == self.tree(
                    children[k],
                ),
    {
        let rows = self.rows();
        assert forall|k: int| 0 <= k < children.len() implies #[trigger] self.tree(r).children[k]
            == self.tree(children[k]) by {
            assert(rows[r.0 as int].child_ids@[k].0 < r.0);
        }
    }

    /// Generalises two terms: the result is a term whose tree is the least
    /// general tree of which both are instances. Rows are appended for the
    /// parts of it that the table lacks, and only for those: the result is
    /// the row that `generalised_row` names, which stays the same however
    /// often it is asked for. Two terms that are the same term generalise to
    /// that term. There is no result where one of the two is not in the
    /// table.
    pub fn generalise(&mut self, a: TermIdx, b: TermIdx) -> (r: Option<TermIdx>)
        requires
            old(self).wf(),
        ensures
            final(self).wf(),
            extends(old(self).rows(), final(self).rows()),
            final(self).meanings() == old(self).meanings(),
            r is Some <==> a.0 < old(self).rows().len() && b.0 < old(self).rows().len(),
            r is None ==> final(self).rows() == old(self).rows(),
            r matches Some(t) ==> t.0 < final(self).rows().len() && final(self).tree(t)
                == antiunify(old(self).tree(a), old(self).tree(b)),
            r matches Some(t) ==> t.0 == generalised_row(
                final(self).rows(),
                a.0 as int,
                b.0 as int,
            ),
            r is Some && generalised_row(old(self).rows(), a.0 as int, b.0 as int) < old(
                self,
            ).rows().len() ==> final(self).rows() == old(self).rows(),
            r is Some && a == b ==> r == Some(a) && final(self).rows() == old(self).rows(),
        decreases a.0,
    {
        let n = rows_len(&self.terms);
        if a.0 >= n || b.0 >= n {
            return None;
        }
        if a.0 == b.0 {
            proof {
                lemma_tree_of_ok(self.rows(), a.0 as int);
                lemma_antiunify_idempotent(self.tree(a));
            }
            return Some(a);
        }
        let ghost start = self.rows();
        let kind_a = rows_get(&self.terms, a).kind;
        let kind_b = rows_get(&self.terms, b).kind;
        let arity = rows_get(&self.terms, a).child_ids.len();
        let arity_b = rows_get(&self.terms, b).child_ids.len();
        let is_hole = match kind_a {
            TermKind::Generalised => true,
            _ => false,
        };
        if kind_a == kind_b && arity == arity_b && !is_hole {
            let mut children: Vec<TermIdx> = Vec::new();
            let mut k: usize = 0;
            while k < arity
                invariant
                    0 <= k <= arity,
                    self.wf(),
                    start == old(self).rows(),
                    rows_wf(start),
                    extends(start, self.rows()),
                    self.meanings() == old(self).meanings(),
                    a.0 < start.len(),
                    b.0 < start.len(),
                    arity == start[a.0 as int].child_ids@.len(),
                    arity == start[b.0 as int].child_ids@.len(),
                    children@.len() == k,
                    forall|j: int|
                        0 <= j < k ==> (#[trigger] children@[j]).0 < self.rows().len() && tree_of(
                            self.rows(),
                            children@[j].0 as int,
                        ) == antiunify(
                            tree_of(start, start[a.0 as int].child_ids@[j].0 as int),
                            tree_of(start, start[b.0 as int].child_ids@[j].0 as int),
                        ),
                    a.0 != b.0,
                    start.len() <= usize::MAX,
                    start[a.0 as int].kind == start[b.0 as int].kind,
                    !(start[a.0 as int].kind is Generalised),
                    forall|j: int|
                        0 <= j < k ==> (#[trigger] children@[j]).0 == generalised_row(
                            self.rows(),
                            start[a.0 as int].child_ids@[j].0 as int,
                            start[b.0 as int].child_ids@[j].0 as int,
                        ),
                    generalised_row(start, a.0 as int, b.0 as int) < start.len() ==> self.rows()
                        == start,
                decreases arity - k,
            {
                let ca = rows_get(&self.terms, a).child_ids[k];
                let cb = rows_get(&self.terms, b).child_ids[k];
                let ghost mid = self.rows();
                proof {
                    assert(mid[a.0 as int] == start[a.0 as int]);
                    assert(mid[b.0 as int] == start[b.0 as int]);
                    assert(start[a.0 as int].child_ids@[k as int].0 < a.0);
                    assert(start[b.0 as int].child_ids@[k as int].0 < b.0);
                    if generalised_row(start, a.0 as int, b.0 as int) < start.len() {
                        lemma_generalised_children_known(start, a.0 as int, b.0 as int, k as int);
                    }
                }
                let c = self.generalise(ca, cb);
                proof {
                    let now = self.rows();
                    lemma_tree_of_extends(start, mid, ca.0 as int);
                    lemma_tree_of_extends(start, mid, cb.0 as int);
                    assert forall|j: int| 0 <= j < k implies tree_of(now, children@[j].0 as int)
                        == tree_of(mid, children@[j].0 as int) by {
                        lemma_tree_of_extends(mid, now, children@[j].0 as int);
                    }
                    assert forall|j: int| 0 <= j < k implies (#[trigger] children@[j]).0
                        == generalised_row(
                        now,
                        start[a.0 as int].child_ids@[j].0 as int,
                        start[b.0 as int].child_ids@[j].0 as int,
                    ) by {
                        assert(start[a.0 as int].child_ids@[j].0 < a.0);
                        assert(start[b.0 as int].child_ids@[j].0 < b.0);
                        assert(children@[j].0 < mid.len());
                        assert(children@[j].0 == generalised_row(
                            mid,
                            start[a.0 as int].child_ids@[j].0 as int,
                            start[b.0 as int].child_ids@[j].0 as int,
                        ));
                        lemma_generalised_row_stays(
                            mid,
                            now,
                            start[a.0 as int].child_ids@[j].0 as int,
                            start[b.0 as int].child_ids@[j].0 as int,
                        );
                    }
                }
                match c {
                    Some(t) => {
                        children.push(t);
                    },
                    None => {
                        return None;
                    },
                }
                k += 1;
            }
            let ghost mid = self.rows();
            let ghost kids = children@;
            let r = self.intern(kind_a, children);
            proof {
                let now = self.rows();
                self.lemma_row_tree(r, kind_a, kids);
                lemma_tree_of_extends(start, now, a.0 as int);
                lemma_tree_of_extends(start, now, b.0 as int);
                let want = antiunify(tree_of(start, a.0 as int), tree_of(start, b.0 as int));
                assert forall|j: int| 0 <= j < kids.len() implies self.tree(r).children[j]
                    == want.children[j] by {
                    lemma_tree_of_extends(mid, now, kids[j].0 as int);
                    assert(self.tree(r).children[j] == self.tree(kids[j]));
                }
                assert(self.tree(r).children =~= want.children);
                assert(mid[a.0 as int] == start[a.0 as int] && mid[b.0 as int] == start[b.0 as int]);
                assert(now[a.0 as int] == start[a.0 as int] && now[b.0 as int] == start[b.0 as int]);
                assert forall|j: int| 0 <= j < kids.len() implies generalised_children(
                    now,
                    a.0 as int,
                    b.0 as int,
                )[j] == kids[j] && generalised_children(mid, a.0 as int, b.0 as int)[j]
                    == kids[j] by {
                    assert(start[a.0 as int].child_ids@[j].0 < a.0);
                    assert(start[b.0 as int].child_ids@[j].0 < b.0);
                    assert(children@[j].0 < mid.len());
                    lemma_generalised_row_stays(
                        mid,
                        now,
                        start[a.0 as int].child_ids@[j].0 as int,
                        start[b.0 as int].child_ids@[j].0 as int,
                    );
                }
                assert(generalised_children(now, a.0 as int, b.0 as int) =~= kids);
                assert(generalised_children(mid, a.0 as int, b.0 as int) =~= kids);
                lemma_first_row_is(now, kind_a, kids, r.0 as int);
                if generalised_row(start, a.0 as int, b.0 as int) < start.len() {
                    assert(mid == start);
                    lemma_first_row_stays(start, now, kind_a, kids);
                }
            }
            Some(r)
        } else {
            let ghost kids = Seq::<TermIdx>::empty();
            let none: Vec<TermIdx> = Vec::new();
            assert(none@ =~= kids);
            let r = self.intern(TermKind::Generalised, none);
            proof {
                let now = self.rows();
                assert(now[a.0 as int] == start[a.0 as int] && now[b.0 as int] == start[b.0 as int]);
                lemma_first_row_is(now, TermKind::Generalised, kids, r.0 as int);
                if generalised_row(start, a.0 as int, b.0 as int) < start.len() {
                    lemma_first_row_stays(start, now, TermKind::Generalised, kids);
                }
            }
            Some(r)
        }
    }

    /// The pattern with a placeholder in place of every variable. Rows are
    /// appended for the parts of it that the table lacks, and only for
    /// those: the result is the row that `pattern_row` names, which stays the
    /// same however often it is asked for. There is no result where the
    /// pattern is not in the table.
    pub fn generalise_pattern(&mut self, pattern: TermIdx) -> (r: Option<TermIdx>)
        requires
            old(self).wf(),
        ensures
            final(self).wf(),
            extends(old(self).rows(), final(self).rows()),
            final(self).meanings() == old(self).meanings(),
            r is Some <==> pattern.0 < old(self).rows().len(),
            r is None ==> final(self).rows() == old(self).rows(),
            r matches Some(t) ==> t.0 < final(self).rows().len() && final(self).tree(t)
                == without_vars(old(self).tree(pattern)),
            r matches Some(t) ==> t.0 == pattern_row(final(self).rows(), pattern.0 as int),
            r is Some && pattern_row(old(self).rows(), pattern.0 as int) < old(self).rows().len()
                ==> final(self).rows() == old(self).rows(),
        decreases pattern.0,
    {
        let n = rows_len(&self.terms);
        if pattern.0 >= n {
            return None;
        }
        let ghost start = self.rows();
        let kind = rows_get(&self.terms, pattern).kind;
        let arity = rows_get(&self.terms, pattern).child_ids.len();
        let replaced = match kind {
            TermKind::Generalised => true,
            TermKind::Var(_) => true,
            _ => false,
        };
        if replaced {
            let ghost kids = Seq::<TermIdx>::empty();
            let none: Vec<TermIdx> = Vec::new();
            assert(none@ =~= kids);
            let r = self.intern(TermKind::Generalised, none);
            proof {
                let now = self.rows();
                assert(now[pattern.0 as int] == start[pattern.0 as int]);
                lemma_first_row_is(now, TermKind::Generalised, kids, r.0 as int);
                if pattern_row(start, pattern.0 as int) < start.len() {
                    lemma_first_row_stays(start, now, TermKind::Generalised, kids);
                }
            }
            return Some(r);
        }
        let mut children: Vec<TermIdx> = Vec::new();
        let mut k: usize = 0;
        while k < arity
            invariant
                0 <= k <= arity,
                self.wf(),
                start == old(self).rows(),
                rows_wf(start),
                extends(start, self.rows()),
                self.meanings() == old(self).meanings(),
                pattern.0 < start.len(),
                arity == start[pattern.0 as int].child_ids@.len(),
                children@.len() == k,
                forall|j: int|
                    0 <= j < k ==> (#[trigger] children@[j]).0 < self.rows().len() && tree_of(
                        self.rows(),
                        children@[j].0 as int,
                    ) == without_vars(
                        tree_of(start, start[pattern.0 as int].child_ids@[j].0 as int),
                    ),
                start.len() <= usize::MAX,
                kind == start[pattern.0 as int].kind,
                !(kind is Generalised),
                !(kind is Var),
                forall|j: int|
                    0 <= j < k ==> (#[trigger] children@[j]).0 == pattern_row(
                        self.rows(),
                        start[pattern.0 as int].child_ids@[j].0 as int,
                    ),
                pattern_row(start, pattern.0 as int) < start.len() ==> self.rows() == start,
            decreases arity - k,
        {
            let child = rows_get(&self.terms, pattern).child_ids[k];
            let ghost mid = self.rows();
            proof {
                assert(mid[pattern.0 as int] == start[pattern.0 as int]);
                assert(start[pattern.0 as int].child_ids@[k as int].0 < pattern.0);
                if pattern_row(start, pattern.0 as int) < start.len() {
                    lemma_pattern_children_known(start, pattern.0 as int, k as int);
                }
            }
            let c = self.generalise_pattern(child);
            proof {
                let now = self.rows();
                lemma_tree_of_extends(start, mid, child.0 as int);
                assert forall|j: int| 0 <= j < k implies tree_of(now, children@[j].0 as int)
                    == tree_of(mid, children@[j].0 as int) by {
                    lemma_tree_of_extends(mid, now, children@[j].0 as int);
                }
                assert forall|j: int| 0 <= j < k implies (#[trigger] children@[j]).0
                    == pattern_row(now, start[pattern.0 as int].child_ids@[j].0 as int) by {
                    assert(start[pattern.0 as int].child_ids@[j].0 < pattern.0);
                    assert(children@[j].0 < mid.len());
                    assert(children@[j].0 == pattern_row(
                        mid,
                        start[pattern.0 as int].child_ids@[j].0 as int,
                    ));
                    lemma_pattern_row_stays(
                        mid,
                        now,
                        start[pattern.0 as int].child_ids@[j].0 as int,
                    );
                }
            }
            match c {
                Some(t) => {
                    children.push(t);
                },
                None => {
                    return None;
                },
            }
            k += 1;
        }
        let ghost mid = self.rows();
        let ghost kids = children@;
        let r = self.intern(kind, children);
        proof {
            let now = self.rows();
            self.lemma_row_tree(r, kind, kids);
            let want = without_vars(tree_of(start, pattern.0 as int));
            assert forall|j: int| 0 <= j < kids.len() implies self.tree(r).children[j]
                == want.children[j] by {
                lemma_tree_of_extends(mid, now, kids[j].0 as int);
                assert(self.tree(r).children[j] == self.tree(kids[j]));
            }
            assert(self.tree(r).children =~= want.children);
            assert(mid[pattern.0 as int] == start[pattern.0 as int]);
            assert(now[pattern.0 as int] == start[pattern.0 as int]);
            assert forall|j: int| 0 <= j < kids.len() implies pattern_children(
                now,
                pattern.0 as int,
            )[j] == kids[j] && pattern_children(mid, pattern.0 as int)[j] == kids[j] by {
                assert(start[pattern.0 as int].child_ids@[j].0 < pattern.0);
                assert(children@[j].0 < mid.len());
                assert(children@[j].0 == pattern_row(
                    mid,
                    start[pattern.0 as int].child_ids@[j].0 as int,
                ));
                lemma_pattern_row_stays(mid, now, start[pattern.0 as int].child_ids@[j].0 as int);
            }
            assert(pattern_children(now, pattern.0 as int) =~= kids);
            assert(pattern_children(mid, pattern.0 as int) =~= kids);
            lemma_first_row_is(now, kind, kids, r.0 as int);
            if pattern_row(start, pattern.0 as int) < start.len() {
                assert(mid == start);
                lemma_first_row_stays(start, now, kind, kids);
            }
        }
        Some(r)
    }

    /// Attaches a meaning to a term. A term keeps the meaning that it has:
    /// attaching another one to it is an error of the caller. Where there
    /// is no room for the meaning, the table stays as it is.
    pub fn new_meaning(&mut self, term: TermIdx, meaning: Meaning) -> (r: Result<(), Error>)
        requires
            old(self).meanings().contains_key(term.0) ==> old(self).meanings()[term.0] == meaning,
        ensures
            final(self).rows() == old(self).rows(),
            match r {
                Ok(_) => final(self).meanings() == old(self).meanings().insert(term.0, meaning),
                Err(e) => e == Error::Alloc && final(self).meanings() == old(self).meanings(),
            },
    {
        broadcast use vstd::std_specs::hash::group_hash_axioms;

        if !meanings_try_reserve(&mut self.meanings) {
            return Err(Error::Alloc);
        }
        self.meanings.insert(term.0, meaning);
        Ok(())
    }
}

} // verus!
