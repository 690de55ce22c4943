//! Matching loops: repeating chains of instantiations of one quantifier, and
//! their folding into abstract instantiation graphs.

use vstd::prelude::*;
use crate::idx::{QuantIdx, TermIdx};
use crate::contribution::{Contribution, ContributionModel, contribution_views};
use crate::idx::InstIdx;
use crate::model::Z3Parser;
use crate::ml_graph::{
    build_ml_graph, generalise_patterns_from, lemma_ml_graph_empty, ml_graph_of, names_key,
    pattern_listed, patterns_cover, patterns_ok, same_pattern, MlGraph,
};
use crate::folded::{
    abstract_at, abstract_rows, equality_at, equality_rows, fold_known,
    fold_rows, has_abstract_rows, has_equality_row, has_matched_row, known_below,
    lemma_fold_rows_stays, matched_at, merge_equality_rows, merge_matched_rows, merged_rows,
    rows_below, rows_of, shared, AbstractRows, EqualityRows,
};
use crate::terms::{
    antiunify, extends, lemma_generalised_row_stays, lemma_tree_of_extends, TermTree, Terms,
};

verus! {

/// The least number of instantiations on a path that makes it a matching loop.
pub const MIN_MATCHING_LOOP_LENGTH: usize = 3;

/// An abstract instantiation is named by its quantifier and its trigger.
pub type AbstractKey = (QuantIdx, TermIdx);

/// `r` is the generalisation of `a` and `b`: where the table before had both,
/// the table after has `r`, whose tree is the least general tree over theirs;
/// where it lacked one of them, `r` is `a`.
pub open spec fn generalised_in(before: Terms, after: Terms, a: TermIdx, b: TermIdx, r: TermIdx) -> bool {
    if a.0 < before.rows().len() && b.0 < before.rows().len() {
        r.0 < after.rows().len() && after.tree(r) == antiunify(before.tree(a), before.tree(b))
    } else {
        r == a
    }
}

/// `old` followed by the entries of `add` that are not there yet, each once.
pub open spec fn extend_unique(old: Seq<AbstractKey>, add: Seq<AbstractKey>) -> Seq<AbstractKey>
    decreases add.len(),
{
    if add.len() == 0 {
        old
    } else {
        let before = extend_unique(old, add.drop_last());
        if before.contains(add.last()) {
            before
        } else {
            before.push(add.last())
        }
    }
}

fn key_eq(a: &AbstractKey, b: &AbstractKey) -> (r: bool)
    ensures
        r == (*a == *b),
{
    a.0 == b.0 && a.1 == b.1
}

fn contains_key(list: &Vec<AbstractKey>, key: &AbstractKey) -> (r: bool)
    ensures
        r == list@.contains(*key),
{
    let mut i: usize = 0;
    while i < list.len()
        invariant
            0 <= i <= list@.len(),
            forall|j: int| 0 <= j < i ==> list@[j] != *key,
        decreases list@.len() - i,
    {
        if key_eq(&list[i], key) {
            return true;
        }
        i += 1;
    }
    false
}

fn extend_creators(list: &mut Vec<AbstractKey>, add: &Vec<AbstractKey>)
    ensures
        final(list)@ == extend_unique(old(list)@, add@),
{
    let mut i: usize = 0;
    assert(add@.subrange(0, 0) =~= Seq::<AbstractKey>::empty());
    while i < add.len()
        invariant
            0 <= i <= add@.len(),
            list@ == extend_unique(old(list)@, add@.subrange(0, i as int)),
        decreases add@.len() - i,
    {
        proof {
            assert(add@.subrange(0, i as int + 1).drop_last() =~= add@.subrange(0, i as int));
        }
        if !contains_key(list, &add[i]) {
            list.push(add[i]);
        }
        i += 1;
    }
    assert(add@.subrange(0, add@.len() as int) =~= add@);
}

/// An equality that an abstract instantiation is blamed on: its two sides,
/// generalised, and the abstract instantiations that produced it.
pub struct MlEquality {
    pub from: TermIdx,
    pub to: TermIdx,
    pub creators: Vec<AbstractKey>,
}

impl MlEquality {
    /// Generalises both sides with the sides of another equality, and adds
    /// its creators.
    pub fn merge_with(
        &mut self,
        from: TermIdx,
        to: TermIdx,
        creators: Vec<AbstractKey>,
        parser: &mut Z3Parser,
    )
        requires
            old(parser).terms.wf(),
        ensures
            final(parser).terms.wf(),
            extends(old(parser).terms.rows(), final(parser).terms.rows()),
            final(parser).same_records(old(parser)),
            generalised_in(
                old(parser).terms,
                final(parser).terms,
                old(self).from,
                from,
                final(self).from,
            ),
            generalised_in(old(parser).terms, final(parser).terms, old(self).to, to, final(self).to),
            final(self).creators@ == extend_unique(old(self).creators@, creators@),
            old(self).from.0 < old(parser).terms.rows().len() && from.0 < old(parser).terms.rows().len() ==> final(self).from == shared(
                final(parser).terms.rows(),
                old(self).from,
                from,
            ),
            old(self).to.0 < old(parser).terms.rows().len() && to.0 < old(parser).terms.rows().len() ==> final(self).to == shared(
                final(parser).terms.rows(),
                old(self).to,
                to,
            ),
    {
        let ghost start = parser.terms.rows();
        let n = parser.terms.len();
        let to_known = self.to.0 < n && to.0 < n;
        if let Some(term) = parser.terms.generalise(self.from, from) {
            self.from = term;
        }
        let ghost mid = parser.terms.rows();
        if to_known {
            if let Some(term) = parser.terms.generalise(self.to, to) {
                self.to = term;
            }
        }
        proof {
            let end = parser.terms.rows();
            if old(self).from.0 < start.len() && from.0 < start.len() {
                lemma_tree_of_extends(mid, end, self.from.0 as int);
                lemma_generalised_row_stays(mid, end, old(self).from.0 as int, from.0 as int);
            }
            if old(self).to.0 < start.len() && to.0 < start.len() {
                lemma_tree_of_extends(start, mid, old(self).to.0 as int);
                lemma_tree_of_extends(start, mid, to.0 as int);
            }
        }
        extend_creators(&mut self.creators, &creators);
    }

    /// The equality of two terms with the given creators, each listed once.
    pub fn from(from: TermIdx, to: TermIdx, creators: Vec<AbstractKey>) -> (r: Self)
        ensures
            r.from == from,
            r.to == to,
            r.creators@ == extend_unique(Seq::empty(), creators@),
    {
        let mut list: Vec<AbstractKey> = Vec::new();
        extend_creators(&mut list, &creators);
        MlEquality { from, to, creators: list }
    }
}

impl Default for MlEquality {
    fn default() -> (r: Self)
        ensures
            r.from == TermIdx(0),
            r.to == TermIdx(0),
            r.creators@.len() == 0,
    {
        MlEquality { from: TermIdx(0), to: TermIdx(0), creators: Vec::new() }
    }
}

/// A term that an abstract instantiation matched, generalised, and the
/// abstract instantiation that produced it last.
pub struct MlMatchedTerm {
    pub matched: TermIdx,
    pub creator: AbstractKey,
}

impl MlMatchedTerm {
    /// Generalises the term with another matched term, and takes the creator
    /// of that one.
    pub fn merge_with(
        &mut self,
        matched: TermIdx,
        quant: QuantIdx,
        pattern: TermIdx,
        parser: &mut Z3Parser,
    )
        requires
            old(parser).terms.wf(),
        ensures
            final(parser).terms.wf(),
            extends(old(parser).terms.rows(), final(parser).terms.rows()),
            final(parser).same_records(old(parser)),
            generalised_in(
                old(parser).terms,
                final(parser).terms,
                old(self).matched,
                matched,
                final(self).matched,
            ),
            final(self).creator == (quant, pattern),
            old(self).matched.0 < old(parser).terms.rows().len() && matched.0 < old(parser).terms.rows().len() ==> final(self).matched == shared(
                final(parser).terms.rows(),
                old(self).matched,
                matched,
            ),
    {
        if let Some(term) = parser.terms.generalise(self.matched, matched) {
            self.matched = term;
        }
        self.creator = (quant, pattern);
    }

    pub fn from(matched: TermIdx, quant: QuantIdx, pattern: TermIdx) -> (r: Self)
        ensures
            r.matched == matched,
            r.creator == (quant, pattern),
    {
        MlMatchedTerm { matched, creator: (quant, pattern) }
    }
}

/// A matched term of an abstract instantiation, with its term as a tree.
pub struct MatchedModel {
    pub slot: usize,
    pub tree: TermTree,
    pub creator: AbstractKey,
}

/// A blamed equality of an abstract instantiation, with its sides as trees.
pub struct EqualityModel {
    pub slot: usize,
    pub from: TermTree,
    pub to: TermTree,
    pub creators: Seq<AbstractKey>,
}

/// An abstract instantiation with its terms as trees.
pub struct AbstractModel {
    pub id: AbstractKey,
    pub matched: Seq<MatchedModel>,
    pub equalities: Seq<EqualityModel>,
}

/// Whether a slot number occurs among the matched terms.
pub open spec fn has_matched(m: Seq<MatchedModel>, n: usize) -> bool {
    exists|i: int| 0 <= i < m.len() && (#[trigger] m[i]).slot == n
}

/// Whether a slot number occurs among the equalities.
pub open spec fn has_equality(m: Seq<EqualityModel>, n: usize) -> bool {
    exists|i: int| 0 <= i < m.len() && (#[trigger] m[i]).slot == n
}

/// The matched terms after one more term was merged into slot `n`: a new
/// slot holds the term; a slot that is there holds the generalisation of
/// what it held and the term, and the new creator.
pub open spec fn merge_matched(m: Seq<MatchedModel>, n: usize, tree: TermTree, creator: AbstractKey) -> Seq<
    MatchedModel,
> {
    if has_matched(m, n) {
        let i = choose|i: int| 0 <= i < m.len() && (#[trigger] m[i]).slot == n;
        m.update(i, MatchedModel { slot: n, tree: antiunify(m[i].tree, tree), creator })
    } else {
        m.push(MatchedModel { slot: n, tree, creator })
    }
}

/// The equalities after one more equality was merged into slot `n`.
pub open spec fn merge_equality(
    m: Seq<EqualityModel>,
    n: usize,
    from: TermTree,
    to: TermTree,
    creators: Seq<AbstractKey>,
) -> Seq<EqualityModel> {
    if has_equality(m, n) {
        let i = choose|i: int| 0 <= i < m.len() && (#[trigger] m[i]).slot == n;
        m.update(
            i,
            EqualityModel {
                slot: n,
                from: antiunify(m[i].from, from),
                to: antiunify(m[i].to, to),
                creators: extend_unique(m[i].creators, creators),
            },
        )
    } else {
        m.push(
            EqualityModel { slot: n, from, to, creators: extend_unique(Seq::empty(), creators) },
        )
    }
}

/// The class of the instantiations of one quantifier through one trigger:
/// per position of the trigger the generalised term that was matched there,
/// and per slot the generalised equality that was used.
pub struct AbstractInst {
    pub id: AbstractKey,
    pub matched_terms: Vec<(usize, MlMatchedTerm)>,
    pub equalities: Vec<(usize, MlEquality)>,
}

impl AbstractInst {
    /// No slot number occurs twice, and the table has every term.
    pub open spec fn wf(&self, terms: &Terms) -> bool {
        &&& forall|i: int, j: int|
            0 <= i < j < self.matched_terms@.len() ==> (#[trigger] self.matched_terms@[i]).0 != (
            #[trigger] self.matched_terms@[j]).0
        &&& forall|i: int, j: int|
            0 <= i < j < self.equalities@.len() ==> (#[trigger] self.equalities@[i]).0 != (
            #[trigger] self.equalities@[j]).0
        &&& forall|i: int|
            0 <= i < self.matched_terms@.len() ==> (#[trigger] self.matched_terms@[i]).1.matched.0
                < terms.rows().len()
        &&& forall|i: int|
            0 <= i < self.equalities@.len() ==> (#[trigger] self.equalities@[i]).1.from.0
                < terms.rows().len() && self.equalities@[i].1.to.0 < terms.rows().len()
    }

    /// The matched terms as trees.
    pub open spec fn matched_model(&self, terms: &Terms) -> Seq<MatchedModel> {
        Seq::new(
            self.matched_terms@.len(),
            |i: int|
                MatchedModel {
                    slot: self.matched_terms@[i].0,
                    tree: terms.tree(self.matched_terms@[i].1.matched),
                    creator: self.matched_terms@[i].1.creator,
                },
        )
    }

    /// The equalities as trees.
    pub open spec fn equality_model(&self, terms: &Terms) -> Seq<EqualityModel> {
        Seq::new(
            self.equalities@.len(),
            |i: int|
                EqualityModel {
                    slot: self.equalities@[i].0,
                    from: terms.tree(self.equalities@[i].1.from),
                    to: terms.tree(self.equalities@[i].1.to),
                    creators: self.equalities@[i].1.creators@,
                },
        )
    }

    /// The abstract instantiation as trees.
    pub open spec fn model(&self, terms: &Terms) -> AbstractModel {
        AbstractModel {
            id: self.id,
            matched: self.matched_model(terms),
            equalities: self.equality_model(terms),
        }
    }

    /// The abstract instantiation of a quantifier and a trigger, with no slot.
    pub fn from(id: AbstractKey) -> (r: Self)
        ensures
            r.id == id,
            r.matched_terms@.len() == 0,
            r.equalities@.len() == 0,
    {
        AbstractInst { id, matched_terms: Vec::new(), equalities: Vec::new() }
    }

    /// Appending rows to the table changes no tree of the abstract
    /// instantiation.
    pub proof fn lemma_model_extends(&self, before: &Terms, after: &Terms)
        requires
            self.wf(before),
            extends(before.rows(), after.rows()),
        ensures
            self.wf(after),
            self.model(after) == self.model(before),
    {
        assert forall|i: int| 0 <= i < self.matched_terms@.len() implies self.matched_model(
            after,
        )[i] == self.matched_model(before)[i] by {
            lemma_tree_of_extends(
                before.rows(),
                after.rows(),
                self.matched_terms@[i].1.matched.0 as int,
            );
        }
        assert(self.matched_model(after) =~= self.matched_model(before));
        assert forall|i: int| 0 <= i < self.equalities@.len() implies self.equality_model(after)[i]
            == self.equality_model(before)[i] by {
            lemma_tree_of_extends(
                before.rows(),
                after.rows(),
                self.equalities@[i].1.from.0 as int,
            );
            lemma_tree_of_extends(before.rows(), after.rows(), self.equalities@[i].1.to.0 as int);
        }
        assert(self.equality_model(after) =~= self.equality_model(before));
    }

    /// Merges a blamed term into slot `n`: the first term of a slot makes
    /// the slot, a later one is generalised with what the slot holds. The
    /// term is a row of the table.
    pub fn merge_nth_blame_term(
        &mut self,
        n: usize,
        blame_term: TermIdx,
        creator_quant: QuantIdx,
        creator_pattern: TermIdx,
        parser: &mut Z3Parser,
    )
        requires
            old(parser).terms.wf(),
            old(self).wf(&old(parser).terms),
            blame_term.0 < old(parser).terms.rows().len(),
        ensures
            final(parser).terms.wf(),
            extends(old(parser).terms.rows(), final(parser).terms.rows()),
            final(parser).same_records(old(parser)),
            final(self).wf(&final(parser).terms),
            final(self).id == old(self).id,
            final(self).equalities == old(self).equalities,
            final(self).matched_model(&final(parser).terms) == merge_matched(
                old(self).matched_model(&old(parser).terms),
                n,
                old(parser).terms.tree(blame_term),
                (creator_quant, creator_pattern),
            ),
            !has_matched(old(self).matched_model(&old(parser).terms), n) ==> *final(parser) == *old(parser) && final(self).matched_terms@ == old(self).matched_terms@.push(
                (n, MlMatchedTerm { matched: blame_term, creator: (creator_quant, creator_pattern) }),
            ),
            final(self).matched_terms@ == merge_matched_rows(
                final(parser).terms.rows(),
                old(self).matched_terms@,
                n,
                blame_term,
                (creator_quant, creator_pattern),
            ),
    {
        let ghost before = self.matched_model(&parser.terms);
        let ghost terms0 = parser.terms;
        let mut i: usize = 0;
        while i < self.matched_terms.len()
            invariant
                0 <= i <= self.matched_terms@.len(),
                *self == *old(self),
                *parser == *old(parser),
                forall|j: int| 0 <= j < i ==> (#[trigger] self.matched_terms@[j]).0 != n,
            ensures
                i < self.matched_terms@.len() ==> self.matched_terms@[i as int].0 == n,
            decreases self.matched_terms@.len() - i,
        {
            if self.matched_terms[i].0 == n {
                break ;
            }
            i += 1;
        }
        if i < self.matched_terms.len() {
            let mut entry = MlMatchedTerm {
                matched: self.matched_terms[i].1.matched,
                creator: self.matched_terms[i].1.creator,
            };
            entry.merge_with(blame_term, creator_quant, creator_pattern, parser);
            self.matched_terms.set(i, (n, entry));
            proof {
                let held = old(self).matched_terms@;
                assert(held[i as int].0 == n);
                assert(has_matched_row(held, n));
                assert(matched_at(held, n) == i) by {
                    assert(held[matched_at(held, n)].0 == n);
                }
                assert(held[i as int].1.matched.0 < terms0.rows().len());
                assert(self.matched_terms@ =~= merge_matched_rows(
                    parser.terms.rows(),
                    held,
                    n,
                    blame_term,
                    (creator_quant, creator_pattern),
                ));
                let after = self.matched_model(&parser.terms);
                assert(before[i as int].slot == n);
                let c = choose|c: int| 0 <= c < before.len() && (#[trigger] before[c]).slot == n;
                assert(c == i) by {
                    assert(old(self).matched_terms@[c].0 == before[c].slot);
                    assert(old(self).matched_terms@[i as int].0 == n);
                }
                old(self).lemma_model_extends(&terms0, &parser.terms);
                let want = merge_matched(
                    before,
                    n,
                    terms0.tree(blame_term),
                    (creator_quant, creator_pattern),
                );
                assert forall|j: int| 0 <= j < after.len() implies after[j] == want[j] by {
                    if j != i {
                        assert(self.matched_terms@[j] == old(self).matched_terms@[j]);
                        assert(old(self).matched_model(&parser.terms)[j] == before[j]);
                    }
                }
                assert(after =~= want);
                assert forall|a: int, b: int|
                    0 <= a < b < self.matched_terms@.len() implies (
                #[trigger] self.matched_terms@[a]).0 != (#[trigger] self.matched_terms@[b]).0 by {
                    assert(self.matched_terms@[a].0 == old(self).matched_terms@[a].0);
                    assert(self.matched_terms@[b].0 == old(self).matched_terms@[b].0);
                }
            }
        } else {
            self.matched_terms.push(
                (n, MlMatchedTerm::from(blame_term, creator_quant, creator_pattern)),
            );
            proof {
                assert(!has_matched_row(old(self).matched_terms@, n));
                let after = self.matched_model(&parser.terms);
                if has_matched(before, n) {
                    let c = choose|c: int| 0 <= c < before.len() && (#[trigger] before[c]).slot == n;
                    assert(old(self).matched_terms@[c].0 == n);
                }
                let want = merge_matched(
                    before,
                    n,
                    terms0.tree(blame_term),
                    (creator_quant, creator_pattern),
                );
                assert forall|j: int| 0 <= j < after.len() implies after[j] == want[j] by {
                    if j < before.len() {
                        assert(self.matched_terms@[j] == old(self).matched_terms@[j]);
                    }
                }
                assert(after =~= want);
            }
        }
    }

    /// Merges a blamed equality into slot `n`: the first equality of a slot
    /// makes the slot, a later one is generalised with what the slot holds.
    /// Both sides are rows of the table.
    pub fn merge_nth_equalities(
        &mut self,
        n: usize,
        from: TermIdx,
        to: TermIdx,
        creators: Vec<AbstractKey>,
        parser: &mut Z3Parser,
    )
        requires
            old(parser).terms.wf(),
            old(self).wf(&old(parser).terms),
            from.0 < old(parser).terms.rows().len(),
            to.0 < old(parser).terms.rows().len(),
        ensures
            final(parser).terms.wf(),
            extends(old(parser).terms.rows(), final(parser).terms.rows()),
            final(parser).same_records(old(parser)),
            final(self).wf(&final(parser).terms),
            final(self).id == old(self).id,
            final(self).matched_terms == old(self).matched_terms,
            final(self).equality_model(&final(parser).terms) == merge_equality(
                old(self).equality_model(&old(parser).terms),
                n,
                old(parser).terms.tree(from),
                old(parser).terms.tree(to),
                creators@,
            ),
            !has_equality(old(self).equality_model(&old(parser).terms), n) ==> *final(parser)
                == *old(parser),
            equality_rows(*final(self)) == merge_equality_rows(
                final(parser).terms.rows(),
                equality_rows(*old(self)),
                n,
                from,
                to,
                creators@,
            ),
    {
        let ghost before = self.equality_model(&parser.terms);
        let ghost terms0 = parser.terms;
        let mut i: usize = 0;
        while i < self.equalities.len()
            invariant
                0 <= i <= self.equalities@.len(),
                *self == *old(self),
                *parser == *old(parser),
                forall|j: int| 0 <= j < i ==> (#[trigger] self.equalities@[j]).0 != n,
            ensures
                i < self.equalities@.len() ==> self.equalities@[i as int].0 == n,
            decreases self.equalities@.len() - i,
        {
            if self.equalities[i].0 == n {
                break ;
            }
            i += 1;
        }
        if i < self.equalities.len() {
            let (slot, mut entry) = self.equalities.remove(i);
            let ghost held = entry;
            entry.merge_with(from, to, creators, parser);
            self.equalities.insert(i, (n, entry));
            proof {
                assert(self.equalities@ =~= old(self).equalities@.update(i as int, (n, entry)));
                let held = equality_rows(*old(self));
                assert(held[i as int].slot == n);
                assert(has_equality_row(held, n));
                assert(equality_at(held, n) == i) by {
                    let c = equality_at(held, n);
                    assert(held[c].slot == n);
                    assert(old(self).equalities@[c].0 == n);
                }
                assert(old(self).equalities@[i as int].1.from.0 < terms0.rows().len());
                assert(old(self).equalities@[i as int].1.to.0 < terms0.rows().len());
                assert(equality_rows(*self) =~= merge_equality_rows(
                    parser.terms.rows(),
                    held,
                    n,
                    from,
                    to,
                    creators@,
                ));
                let after = self.equality_model(&parser.terms);
                assert(before[i as int].slot == n);
                let c = choose|c: int| 0 <= c < before.len() && (#[trigger] before[c]).slot == n;
                assert(c == i) by {
                    assert(old(self).equalities@[c].0 == before[c].slot);
                    assert(old(self).equalities@[i as int].0 == n);
                }
                old(self).lemma_model_extends(&terms0, &parser.terms);
                let want = merge_equality(
                    before,
                    n,
                    terms0.tree(from),
                    terms0.tree(to),
                    creators@,
                );
                assert forall|j: int| 0 <= j < after.len() implies after[j] == want[j] by {
                    if j != i {
                        assert(self.equalities@[j] == old(self).equalities@[j]);
                        assert(old(self).equality_model(&parser.terms)[j] == before[j]);
                    }
                }
                assert(after =~= want);
                assert forall|a: int, b: int|
                    0 <= a < b < self.equalities@.len() implies (#[trigger] self.equalities@[a]).0
                    != (#[trigger] self.equalities@[b]).0 by {
                    assert(self.equalities@[a].0 == old(self).equalities@[a].0);
                    assert(self.equalities@[b].0 == old(self).equalities@[b].0);
                }
                assert forall|j: int| 0 <= j < self.matched_terms@.len() implies (
                #[trigger] self.matched_terms@[j]).1.matched.0 < parser.terms.rows().len() by {
                    assert(old(self).matched_terms@[j].1.matched.0 < terms0.rows().len());
                }
            }
        } else {
            self.equalities.push((n, MlEquality::from(from, to, creators)));
            proof {
                let held = equality_rows(*old(self));
                if has_equality_row(held, n) {
                    let c = equality_at(held, n);
                    assert(held[c].slot == n);
                    assert(old(self).equalities@[c].0 == n);
                }
                assert(equality_rows(*self) =~= merge_equality_rows(
                    parser.terms.rows(),
                    held,
                    n,
                    from,
                    to,
                    creators@,
                ));
                let after = self.equality_model(&parser.terms);
                if has_equality(before, n) {
                    let c = choose|c: int| 0 <= c < before.len() && (#[trigger] before[c]).slot == n;
                    assert(old(self).equalities@[c].0 == n);
                }
                let want = merge_equality(
                    before,
                    n,
                    terms0.tree(from),
                    terms0.tree(to),
                    creators@,
                );
                assert forall|j: int| 0 <= j < after.len() implies after[j] == want[j] by {
                    if j < before.len() {
                        assert(self.equalities@[j] == old(self).equalities@[j]);
                    }
                }
                assert(after =~= want);
            }
        }
    }
}

/// The abstract instantiations as trees.
pub open spec fn abstract_models(state: Seq<AbstractInst>, terms: &Terms) -> Seq<AbstractModel> {
    Seq::new(state.len(), |i: int| state[i].model(terms))
}

/// No abstract instantiation occurs twice, and each is well formed.
pub open spec fn abstract_wf(state: Seq<AbstractInst>, terms: &Terms) -> bool {
    &&& forall|i: int, j: int|
        0 <= i < j < state.len() ==> (#[trigger] state[i]).id != (#[trigger] state[j]).id
    &&& forall|i: int| 0 <= i < state.len() ==> (#[trigger] state[i]).wf(terms)
}

/// Whether the state has the abstract instantiation of a quantifier and a
/// trigger.
pub open spec fn has_abstract(state: Seq<AbstractModel>, key: AbstractKey) -> bool {
    exists|i: int| 0 <= i < state.len() && (#[trigger] state[i]).id == key
}

impl ContributionModel {
    /// The abstract instantiation that the contribution goes to.
    pub open spec fn key(self) -> AbstractKey {
        match self {
            ContributionModel::Term { key, .. } => key,
            ContributionModel::Equality { key, .. } => key,
        }
    }

    /// Whether the table has the terms of the contribution.
    pub open spec fn known(self, terms: &Terms) -> bool {
        match self {
            ContributionModel::Term { term, .. } => term.0 < terms.rows().len(),
            ContributionModel::Equality { from, to, .. } => from.0 < terms.rows().len() && to.0
                < terms.rows().len(),
        }
    }
}

/// The state after one contribution: its abstract instantiation is added at
/// the end where the state lacks it, and the contribution is merged into its
/// slot. A contribution with a term that the table lacks changes nothing.
pub open spec fn apply_contribution(state: Seq<AbstractModel>, terms: &Terms, c: ContributionModel) -> Seq<
    AbstractModel,
> {
    if !c.known(terms) {
        state
    } else {
        let base = if has_abstract(state, c.key()) {
            state
        } else {
            state.push(
                AbstractModel { id: c.key(), matched: Seq::empty(), equalities: Seq::empty() },
            )
        };
        let i = choose|i: int| 0 <= i < base.len() && (#[trigger] base[i]).id == c.key();
        match c {
            ContributionModel::Term { slot, term, creator, .. } => base.update(
                i,
                AbstractModel {
                    id: base[i].id,
                    matched: merge_matched(base[i].matched, slot, terms.tree(term), creator),
                    equalities: base[i].equalities,
                },
            ),
            ContributionModel::Equality { slot, from, to, creators, .. } => base.update(
                i,
                AbstractModel {
                    id: base[i].id,
                    matched: base[i].matched,
                    equalities: merge_equality(
                        base[i].equalities,
                        slot,
                        terms.tree(from),
                        terms.tree(to),
                        creators,
                    ),
                },
            ),
        }
    }
}

/// The state after a list of contributions, starting from no abstract
/// instantiation. The trees are those of the table before the first merge.
pub open spec fn fold_contributions(terms: &Terms, cs: Seq<ContributionModel>) -> Seq<AbstractModel>
    decreases cs.len(),
{
    if cs.len() == 0 {
        Seq::empty()
    } else {
        apply_contribution(fold_contributions(terms, cs.drop_last()), terms, cs.last())
    }
}

/// Applying a contribution reads only the trees of the terms that it names.
pub proof fn lemma_apply_extends(
    state: Seq<AbstractModel>,
    before: &Terms,
    after: &Terms,
    c: ContributionModel,
)
    requires
        extends(before.rows(), after.rows()),
        c.known(before),
    ensures
        apply_contribution(state, after, c) == apply_contribution(state, before, c),
{
    match c {
        ContributionModel::Term { term, .. } => {
            lemma_tree_of_extends(before.rows(), after.rows(), term.0 as int);
        },
        ContributionModel::Equality { from, to, .. } => {
            lemma_tree_of_extends(before.rows(), after.rows(), from.0 as int);
            lemma_tree_of_extends(before.rows(), after.rows(), to.0 as int);
        },
    }
}

/// Merges one contribution into the state.
pub fn merge_contribution(state: &mut Vec<AbstractInst>, c: Contribution, parser: &mut Z3Parser)
    requires
        old(parser).terms.wf(),
        abstract_wf(old(state)@, &old(parser).terms),
    ensures
        final(parser).terms.wf(),
        extends(old(parser).terms.rows(), final(parser).terms.rows()),
        final(parser).same_records(old(parser)),
        abstract_wf(final(state)@, &final(parser).terms),
        abstract_models(final(state)@, &final(parser).terms) == apply_contribution(
            abstract_models(old(state)@, &old(parser).terms),
            &old(parser).terms,
            c@,
        ),
        known_below(c@, old(parser).terms.rows().len()) ==> abstract_rows(final(state)@)
            == merged_rows(final(parser).terms.rows(), abstract_rows(old(state)@), c@),
        !known_below(c@, old(parser).terms.rows().len()) ==> final(state)@ == old(state)@
            && final(parser).terms.rows() == old(parser).terms.rows(),
{
    let n = parser.terms.len();
    let known = match &c {
        Contribution::Term { term, .. } => term.0 < n,
        Contribution::Equality { from, to, .. } => from.0 < n && to.0 < n,
    };
    if !known {
        return ;
    }
    let key = match &c {
        Contribution::Term { key, .. } => *key,
        Contribution::Equality { key, .. } => *key,
    };
    let ghost terms0 = parser.terms;
    let ghost models0 = abstract_models(state@, &parser.terms);
    let mut i: usize = 0;
    while i < state.len()
        invariant
            0 <= i <= state@.len(),
            *state == *old(state),
            *parser == *old(parser),
            forall|j: int| 0 <= j < i ==> (#[trigger] state@[j]).id != key,
        ensures
            i < state@.len() ==> state@[i as int].id == key,
        decreases state@.len() - i,
    {
        if key_eq(&state[i].id, &key) {
            break ;
        }
        i += 1;
    }
    if i == state.len() {
        state.push(AbstractInst::from(key));
    }
    let ghost based = state@;
    let ghost base = abstract_models(based, &parser.terms);
    proof {
        if has_abstract(models0, key) {
            let w = choose|w: int| 0 <= w < models0.len() && (#[trigger] models0[w]).id == key;
            assert(old(state)@[w].id == key);
            assert(base =~= models0);
        } else {
            assert(i == old(state)@.len()) by {
                if i < old(state)@.len() {
                    assert(models0[i as int].id == key);
                }
            }
            assert(based[i as int].matched_model(&terms0) =~= Seq::<MatchedModel>::empty());
            assert(based[i as int].equality_model(&terms0) =~= Seq::<EqualityModel>::empty());
            assert(base =~= models0.push(
                AbstractModel { id: key, matched: Seq::empty(), equalities: Seq::empty() },
            ));
        }
        assert(base[i as int].id == key);
        let w = choose|w: int| 0 <= w < base.len() && (#[trigger] base[w]).id == key;
        assert(w == i) by {
            assert(based[w].id == key);
            assert(based[i as int].id == key);
        }
        assert(abstract_wf(based, &terms0)) by {
            assert forall|a: int, b: int| 0 <= a < b < based.len() implies (#[trigger] based[a]).id
                != (#[trigger] based[b]).id by {
                if b == old(state)@.len() {
                    assert(based[a] == old(state)@[a]);
                }
            }
        }
    }
    let ghost model = c@;
    let mut entry = state.remove(i);
    match c {
        Contribution::Term { slot, term, creator, .. } => {
            entry.merge_nth_blame_term(slot, term, creator.0, creator.1, parser);
        },
        Contribution::Equality { slot, from, to, creators, .. } => {
            entry.merge_nth_equalities(slot, from, to, creators, parser);
        },
    }
    state.insert(i, entry);
    proof {
        assert(state@ =~= based.update(i as int, entry));
        let held = abstract_rows(old(state)@);
        let start = if has_abstract_rows(held, key) {
            held
        } else {
            held.push(AbstractRows { id: key, matched: Seq::empty(), equalities: Seq::empty() })
        };
        if has_abstract_rows(held, key) {
            let w = choose|w: int| 0 <= w < held.len() && (#[trigger] held[w]).id == key;
            assert(old(state)@[w].id == key);
            assert(models0[w].id == key);
        } else {
            if has_abstract(models0, key) {
                let w = choose|w: int| 0 <= w < models0.len() && (#[trigger] models0[w]).id == key;
                assert(held[w].id == key);
            }
            assert(equality_rows(based[i as int]) =~= Seq::<EqualityRows>::empty());
            assert(based[i as int].matched_terms@ =~= Seq::<(usize, MlMatchedTerm)>::empty());
        }
        assert(start =~= abstract_rows(based));
        assert(start[i as int].id == key);
        assert(abstract_at(start, key) == i) by {
            let w = abstract_at(start, key);
            assert(start[w].id == key);
            assert(based[w].id == key);
            assert(based[i as int].id == key);
        }
        assert(known_below(model, terms0.rows().len()));
        assert(abstract_rows(state@) =~= merged_rows(parser.terms.rows(), held, model));
        let after = abstract_models(state@, &parser.terms);
        let want = apply_contribution(models0, &terms0, c@);
        assert forall|j: int| 0 <= j < after.len() implies after[j] == want[j] by {
            based[j].lemma_model_extends(&terms0, &parser.terms);
            assert(base[j] == based[j].model(&terms0));
        }
        assert(after =~= want);
        assert forall|j: int| 0 <= j < state@.len() implies (#[trigger] state@[j]).wf(
            &parser.terms,
        ) by {
            if j != i {
                based[j].lemma_model_extends(&terms0, &parser.terms);
            }
        }
        assert forall|a: int, b: int| 0 <= a < b < state@.len() implies (#[trigger] state@[a]).id
            != (#[trigger] state@[b]).id by {
            assert(state@[a].id == based[a].id);
            assert(state@[b].id == based[b].id);
        }
    }
}

/// The table has every term of a state that is well formed in it.
pub proof fn lemma_wf_rows_below(state: Seq<AbstractInst>, terms: &Terms)
    requires
        abstract_wf(state, terms),
    ensures
        rows_below(abstract_rows(state), terms.rows().len()),
{
    let rows = abstract_rows(state);
    assert forall|i: int, j: int|
        0 <= i < rows.len() && 0 <= j < rows[i].matched.len() implies (
    #[trigger] rows[i].matched[j]).1.matched.0 < terms.rows().len() by {
        assert(state[i].wf(terms));
        assert(state[i].matched_terms@[j].1.matched.0 < terms.rows().len());
    }
    assert forall|i: int, j: int|
        0 <= i < rows.len() && 0 <= j < rows[i].equalities.len() implies (
    #[trigger] rows[i].equalities[j]).from.0 < terms.rows().len() && rows[i].equalities[j].to.0
        < terms.rows().len() by {
        assert(state[i].wf(terms));
        assert(state[i].equalities@[j].1.from.0 < terms.rows().len());
    }
}

/// Folds a list of contributions into abstract instantiations. Every slot
/// holds the row that `fold_rows` names, in the table as it is left.
pub fn fold_abstract_insts(cs: Vec<Contribution>, parser: &mut Z3Parser) -> (state: Vec<AbstractInst>)
    requires
        old(parser).terms.wf(),
    ensures
        final(parser).terms.wf(),
        extends(old(parser).terms.rows(), final(parser).terms.rows()),
        final(parser).same_records(old(parser)),
        abstract_wf(state@, &final(parser).terms),
        abstract_models(state@, &final(parser).terms) == fold_contributions(
            &old(parser).terms,
            contribution_views(cs@),
        ),
        abstract_rows(state@) == fold_rows(
            final(parser).terms.rows(),
            old(parser).terms.rows().len(),
            contribution_views(cs@),
        ),
        fold_known(
            final(parser).terms.rows(),
            old(parser).terms.rows().len(),
            contribution_views(cs@),
        ),
        cs@.len() == 0 ==> state@.len() == 0 && final(parser).terms.rows() == old(parser).terms.rows(),
{
    let mut state: Vec<AbstractInst> = Vec::new();
    let mut cs = cs;
    let ghost all = contribution_views(cs@);
    let ghost terms0 = parser.terms;
    let ghost mut done: Seq<ContributionModel> = Seq::empty();
    let n0 = parser.terms.len();
    assert(abstract_models(state@, &parser.terms) =~= Seq::<AbstractModel>::empty());
    assert(abstract_rows(state@) =~= Seq::<AbstractRows>::empty());
    while cs.len() > 0
        invariant
            parser.terms.wf(),
            n0 == terms0.rows().len(),
            extends(terms0.rows(), parser.terms.rows()),
            parser.same_records(old(parser)),
            terms0 == old(parser).terms,
            abstract_wf(state@, &parser.terms),
            all == done + contribution_views(cs@),
            abstract_models(state@, &parser.terms) == fold_contributions(&terms0, done),
            abstract_rows(state@) == fold_rows(parser.terms.rows(), n0 as nat, done),
            fold_known(parser.terms.rows(), n0 as nat, done),
            all.len() == 0 ==> state@.len() == 0 && parser.terms.rows() == terms0.rows(),
        decreases cs@.len(),
    {
        let ghost rest = contribution_views(cs@);
        let c = cs.remove(0);
        let ghost now = parser.terms;
        proof {
            assert(rest[0] == c@);
            assert(contribution_views(cs@) =~= rest.drop_first());
            assert(done.push(c@) + rest.drop_first() =~= done + rest);
            assert(done.push(c@).drop_last() =~= done);
            if c@.known(&terms0) {
                lemma_apply_extends(fold_contributions(&terms0, done), &terms0, &now, c@);
            }
        }
        let known = match &c {
            Contribution::Term { term, .. } => term.0 < n0,
            Contribution::Equality { from, to, .. } => from.0 < n0 && to.0 < n0,
        };
        let ghost model = c@;
        if known {
            merge_contribution(&mut state, c, parser);
        }
        proof {
            assert(known == known_below(model, n0 as nat));
            lemma_fold_rows_stays(now.rows(), parser.terms.rows(), n0 as nat, done);
            lemma_wf_rows_below(state@, &parser.terms);
            assert(done.push(model).drop_last() =~= done);
            assert(done.push(model).last() == model);
            done = done.push(model);
        }
    }
    proof {
        assert(contribution_views(cs@) =~= Seq::<ContributionModel>::empty());
        assert(done + Seq::<ContributionModel>::empty() =~= done);
    }
    state
}

/// `state` is what the instantiations fold into, and `patterns` lists the
/// generalised triggers that `state` names: the trees of `state` in the table
/// after are the fold of what the instantiations contribute, read in the
/// table before, and every slot of `state` holds the row that the table
/// after shares for it.
pub open spec fn folds_to(
    before: &Z3Parser,
    after: &Z3Parser,
    insts: Seq<InstIdx>,
    state: Seq<AbstractInst>,
    patterns: Seq<(AbstractKey, TermIdx)>,
) -> bool {
    &&& abstract_wf(state, &after.terms)
    &&& abstract_models(state, &after.terms) == fold_contributions(
        &before.terms,
        before.contributions(insts),
    )
    &&& abstract_rows(state) == fold_rows(
        after.terms.rows(),
        before.terms.rows().len(),
        before.contributions(insts),
    )
    &&& fold_known(after.terms.rows(), before.terms.rows().len(), before.contributions(insts))
    &&& patterns_ok(patterns, &before.terms, &after.terms)
    &&& patterns_cover(patterns, state, &before.terms)
}

/// The graph is the graph of what the instantiations fold into.
pub open spec fn is_loop_graph(g: &MlGraph, before: &Z3Parser, after: &Z3Parser, insts: Seq<InstIdx>) -> bool {
    exists|state: Seq<AbstractInst>, patterns: Seq<(AbstractKey, TermIdx)>|
        #![auto]
        folds_to(before, after, insts, state, patterns) && g.labels() == ml_graph_of(
            patterns,
            state,
        ).labels && g.edges() == ml_graph_of(patterns, state).edges
}

/// Folds the instantiations of one matching loop into its graph of abstract
/// instantiations: the instantiations are read in the order given, their
/// blamed terms and equalities are merged by generalisation, and the graph
/// joins each abstract instantiation with what it is blamed on and with what
/// produced that. Instantiations that contribute nothing leave the term
/// table as it is.
pub fn fold_matching_loop(insts: &Vec<InstIdx>, parser: &mut Z3Parser) -> (g: MlGraph)
    requires
        old(parser).terms.wf(),
    ensures
        final(parser).terms.wf(),
        extends(old(parser).terms.rows(), final(parser).terms.rows()),
        final(parser).same_records(old(parser)),
        g.wf(),
        is_loop_graph(&g, old(parser), final(parser), insts@),
        old(parser).contributions(insts@).len() == 0 ==> final(parser).terms.rows() == old(parser).terms.rows(),
{
    let n0 = parser.terms.len();
    let ghost terms0 = parser.terms;
    let cs = parser.collect_contributions(insts);
    let state = fold_abstract_insts(cs, parser);
    let ghost mid = parser.terms;
    let patterns = generalise_patterns_from(&state, parser, n0, Ghost(terms0));
    let g = build_ml_graph(&state, &patterns);
    proof {
        assert forall|i: int| 0 <= i < state@.len() implies (#[trigger] state@[i]).wf(
            &parser.terms,
        ) && state@[i].model(&parser.terms) == state@[i].model(&mid) by {
            state@[i].lemma_model_extends(&mid, &parser.terms);
        }
        assert(abstract_models(state@, &parser.terms) =~= abstract_models(state@, &mid));
        lemma_fold_rows_stays(
            mid.rows(),
            parser.terms.rows(),
            terms0.rows().len(),
            old(parser).contributions(insts@),
        );
        assert(folds_to(old(parser), parser, insts@, state@, patterns@));
    }
    g
}

/// What stands behind a node of a matching loop: an instantiation, with the
/// name of its quantifier and the kind of its match, or an equality.
#[derive(Clone, Debug)]
pub enum InstOrEquality {
    Inst(String, crate::items::MatchKind),
    Equality,
}

impl InstOrEquality {
    /// The text of the node: the name of the quantifier; nothing for an
    /// equality.
    pub fn text(&self) -> (r: String)
        ensures
            r@ == match *self {
                InstOrEquality::Inst(quant, _) => quant@,
                InstOrEquality::Equality => Seq::<char>::empty(),
            },
    {
        match self {
            InstOrEquality::Inst(quant, _) => quant.clone(),
            InstOrEquality::Equality => String::new(),
        }
    }
}

/// The graph of a matching loop has a node exactly if its instantiations
/// contribute to some abstract instantiation. A loop of instantiations
/// without a trigger, or whose matched e-nodes no instantiation produced,
/// contributes nothing, and its graph has no node.
pub proof fn lemma_loop_graph_empty(g: &MlGraph, before: &Z3Parser, after: &Z3Parser, insts: Seq<InstIdx>)
    requires
        is_loop_graph(g, before, after, insts),
    ensures
        g.labels().len() == 0 <==> fold_contributions(
            &before.terms,
            before.contributions(insts),
        ).len() == 0,
{
    let (state, patterns) = choose|state: Seq<AbstractInst>, patterns: Seq<(AbstractKey, TermIdx)>|
        #![auto]
        folds_to(before, after, insts, state, patterns) && g.labels() == ml_graph_of(
            patterns,
            state,
        ).labels && g.edges() == ml_graph_of(patterns, state).edges;
    lemma_ml_graph_empty(patterns, state);
    assert(abstract_models(state, &after.terms).len() == state.len());
}

/// Folding the same instantiations again gives the same graph: the table
/// shares the rows of the generalisations, so a fold that starts in the
/// table that a first fold left, or in one grown from it, finds every row
/// again. This holds of a model whose records name rows of the term table
/// only.
pub proof fn lemma_fold_again(
    g: &MlGraph,
    again: &MlGraph,
    first: &Z3Parser,
    folded: &Z3Parser,
    second: &Z3Parser,
    refolded: &Z3Parser,
    insts: Seq<InstIdx>,
)
    requires
        folded.terms.wf(),
        extends(first.terms.rows(), folded.terms.rows()),
        extends(folded.terms.rows(), second.terms.rows()),
        extends(second.terms.rows(), refolded.terms.rows()),
        is_loop_graph(g, first, folded, insts),
        is_loop_graph(again, second, refolded, insts),
        second.same_records(first),
        first.names_rows_only(),
    ensures
        again.labels() == g.labels(),
        again.edges() == g.edges(),
{
    let (state, patterns) = choose|state: Seq<AbstractInst>, patterns: Seq<(AbstractKey, TermIdx)>|
        #![auto]
        folds_to(first, folded, insts, state, patterns) && g.labels() == ml_graph_of(
            patterns,
            state,
        ).labels && g.edges() == ml_graph_of(patterns, state).edges;
    let (others, listed) = choose|state: Seq<AbstractInst>, patterns: Seq<(AbstractKey, TermIdx)>|
        #![auto]
        folds_to(second, refolded, insts, state, patterns) && again.labels() == ml_graph_of(
            patterns,
            state,
        ).labels && again.edges() == ml_graph_of(patterns, state).edges;
    first.lemma_contributions_alike(second, insts);
    let cs = first.contributions(insts);
    let n = first.terms.rows().len();
    let m = second.terms.rows().len();
    lemma_fold_rows_stays(folded.terms.rows(), refolded.terms.rows(), n, cs);
    crate::folded::lemma_fold_rows_known(refolded.terms.rows(), n, m, cs);
    assert(abstract_rows(state) == abstract_rows(others));
    assert(abstract_rows(state).len() == state.len());
    assert(abstract_rows(others).len() == others.len());
    assert forall|a: int, key: AbstractKey|
        0 <= a < state.len() && names_key(#[trigger] state[a], key) implies #[trigger] same_pattern(
        patterns,
        listed,
        key,
    ) by {
        crate::ml_graph::lemma_names_rows(state[a], key);
        crate::ml_graph::lemma_names_rows(others[a], key);
        assert(abstract_rows(state)[a] == rows_of(state[a]));
        assert(abstract_rows(others)[a] == rows_of(others[a]));
        crate::folded::lemma_fold_names(folded.terms.rows(), n, cs, a, key);
        let k = choose|k: int|
            0 <= k < cs.len() && crate::folded::contribution_names(#[trigger] cs[k], key);
        assert(key.1.0 < n);
        assert(names_key(others[a], key));
        assert(pattern_listed(patterns, key));
        assert(pattern_listed(listed, key));
        crate::ml_graph::lemma_pattern_of_listed(patterns, &first.terms, &folded.terms, key);
        crate::ml_graph::lemma_pattern_of_listed(listed, &second.terms, &refolded.terms, key);
        crate::terms::lemma_pattern_row_stays(
            folded.terms.rows(),
            refolded.terms.rows(),
            key.1.0 as int,
        );
    }
    crate::ml_graph::empty_ml_graph().lemma_abstracts_alike(
        patterns,
        listed,
        state,
        others,
        state.len() as int,
    );
}

} // verus!
