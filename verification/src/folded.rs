//! The abstract instantiations by the rows of their terms: which rows a
//! fold of contributions leaves in every slot, and why a table that has
//! those rows gives the same rows when the fold is made again.

use vstd::prelude::*;
use crate::contribution::ContributionModel;
use crate::idx::TermIdx;
use crate::matching_loop::{extend_unique, AbstractInst, AbstractKey, MlMatchedTerm};
use crate::terms::{
    extends, generalised_row, lemma_generalised_row_bounds, lemma_generalised_row_stays, rows_wf,
    Term,
};

verus! {

/// A blamed equality of an abstract instantiation, with its sides as rows.
pub struct EqualityRows {
    pub slot: usize,
    pub from: TermIdx,
    pub to: TermIdx,
    pub creators: Seq<AbstractKey>,
}

/// An abstract instantiation with its terms as rows.
pub struct AbstractRows {
    pub id: AbstractKey,
    pub matched: Seq<(usize, MlMatchedTerm)>,
    pub equalities: Seq<EqualityRows>,
}

/// The equalities of an abstract instantiation.
pub open spec fn equality_rows(a: AbstractInst) -> Seq<EqualityRows> {
    Seq::new(
        a.equalities@.len(),
        |i: int|
            EqualityRows {
                slot: a.equalities@[i].0,
                from: a.equalities@[i].1.from,
                to: a.equalities@[i].1.to,
                creators: a.equalities@[i].1.creators@,
            },
    )
}

/// An abstract instantiation with its terms as rows.
pub open spec fn rows_of(a: AbstractInst) -> AbstractRows {
    AbstractRows { id: a.id, matched: a.matched_terms@, equalities: equality_rows(a) }
}

/// The abstract instantiations with their terms as rows.
pub open spec fn abstract_rows(state: Seq<AbstractInst>) -> Seq<AbstractRows> {
    Seq::new(state.len(), |i: int| rows_of(state[i]))
}

/// The row that generalises two rows.
pub open spec fn shared(rows: Seq<Term>, a: TermIdx, b: TermIdx) -> TermIdx {
    TermIdx(generalised_row(rows, a.0 as int, b.0 as int) as usize)
}

/// Whether a slot number occurs among the matched terms.
pub open spec fn has_matched_row(m: Seq<(usize, MlMatchedTerm)>, n: usize) -> bool {
    exists|i: int| 0 <= i < m.len() && (#[trigger] m[i]).0 == n
}

/// Whether a slot number occurs among the equalities.
pub open spec fn has_equality_row(m: Seq<EqualityRows>, n: usize) -> bool {
    exists|i: int| 0 <= i < m.len() && (#[trigger] m[i]).slot == n
}

/// The place of slot `n` among the matched terms that have it.
pub open spec fn matched_at(m: Seq<(usize, MlMatchedTerm)>, n: usize) -> int {
    choose|i: int| 0 <= i < m.len() && (#[trigger] m[i]).0 == n
}

/// The place of slot `n` among the equalities that have it.
pub open spec fn equality_at(m: Seq<EqualityRows>, n: usize) -> int {
    choose|i: int| 0 <= i < m.len() && (#[trigger] m[i]).slot == n
}

/// The place of an abstract instantiation in a state that has it.
pub open spec fn abstract_at(state: Seq<AbstractRows>, key: AbstractKey) -> int {
    choose|i: int| 0 <= i < state.len() && (#[trigger] state[i]).id == key
}

/// The matched terms after one more term was merged into slot `n`: a new
/// slot holds the term; a slot that is there holds the row that generalises
/// what it held and the term, and the new creator.
pub open spec fn merge_matched_rows(
    rows: Seq<Term>,
    m: Seq<(usize, MlMatchedTerm)>,
    n: usize,
    term: TermIdx,
    creator: AbstractKey,
) -> Seq<(usize, MlMatchedTerm)> {
    if has_matched_row(m, n) {
        let i = matched_at(m, n);
        m.update(i, (n, MlMatchedTerm { matched: shared(rows, m[i].1.matched, term), creator }))
    } else {
        m.push((n, MlMatchedTerm { matched: term, creator }))
    }
}

/// The equalities after one more equality was merged into slot `n`.
pub open spec fn merge_equality_rows(
    rows: Seq<Term>,
    m: Seq<EqualityRows>,
    n: usize,
    from: TermIdx,
    to: TermIdx,
    creators: Seq<AbstractKey>,
) -> Seq<EqualityRows> {
    if has_equality_row(m, n) {
        let i = equality_at(m, n);
        m.update(
            i,
            EqualityRows {
                slot: n,
                from: shared(rows, m[i].from, from),
                to: shared(rows, m[i].to, to),
                creators: extend_unique(m[i].creators, creators),
            },
        )
    } else {
        m.push(
            EqualityRows { slot: n, from, to, creators: extend_unique(Seq::empty(), creators) },
        )
    }
}

/// Whether the state has the abstract instantiation of a quantifier and a
/// trigger.
pub open spec fn has_abstract_rows(state: Seq<AbstractRows>, key: AbstractKey) -> bool {
    exists|i: int| 0 <= i < state.len() && (#[trigger] state[i]).id == key
}

/// Whether the terms of a contribution are among the first `n` rows.
pub open spec fn known_below(c: ContributionModel, n: nat) -> bool {
    match c {
        ContributionModel::Term { term, .. } => term.0 < n,
        ContributionModel::Equality { from, to, .. } => from.0 < n && to.0 < n,
    }
}

/// The state after one contribution was merged: its abstract instantiation
/// is added at the end where the state lacks it, and the contribution is
/// merged into its slot.
pub open spec fn merged_rows(rows: Seq<Term>, state: Seq<AbstractRows>, c: ContributionModel) -> Seq<
    AbstractRows,
> {
    let base = if has_abstract_rows(state, c.key()) {
        state
    } else {
        state.push(AbstractRows { id: c.key(), matched: Seq::empty(), equalities: Seq::empty() })
    };
    let i = abstract_at(base, c.key());
    match c {
        ContributionModel::Term { slot, term, creator, .. } => base.update(
            i,
            AbstractRows {
                id: base[i].id,
                matched: merge_matched_rows(rows, base[i].matched, slot, term, creator),
                equalities: base[i].equalities,
            },
        ),
        ContributionModel::Equality { slot, from, to, creators, .. } => base.update(
            i,
            AbstractRows {
                id: base[i].id,
                matched: base[i].matched,
                equalities: merge_equality_rows(rows, base[i].equalities, slot, from, to, creators),
            },
        ),
    }
}

/// The state after a list of contributions, starting from no abstract
/// instantiation, in a table that has the rows of all its generalisations.
/// A contribution with a term that is not among the first `n0` rows changes
/// nothing.
pub open spec fn fold_rows(rows: Seq<Term>, n0: nat, cs: Seq<ContributionModel>) -> Seq<AbstractRows>
    decreases cs.len(),
{
    if cs.len() == 0 {
        Seq::empty()
    } else if known_below(cs.last(), n0) {
        merged_rows(rows, fold_rows(rows, n0, cs.drop_last()), cs.last())
    } else {
        fold_rows(rows, n0, cs.drop_last())
    }
}

/// Every term of the state is among the first `n` rows.
pub open spec fn rows_below(state: Seq<AbstractRows>, n: nat) -> bool {
    &&& forall|i: int, j: int|
        0 <= i < state.len() && 0 <= j < state[i].matched.len() ==> (
        #[trigger] state[i].matched[j]).1.matched.0 < n
    &&& forall|i: int, j: int|
        0 <= i < state.len() && 0 <= j < state[i].equalities.len() ==> (
        #[trigger] state[i].equalities[j]).from.0 < n && state[i].equalities[j].to.0 < n
}

/// The table has the rows of every state that the fold goes through.
pub open spec fn fold_known(rows: Seq<Term>, n0: nat, cs: Seq<ContributionModel>) -> bool
    decreases cs.len(),
{
    cs.len() == 0 || (fold_known(rows, n0, cs.drop_last()) && rows_below(
        fold_rows(rows, n0, cs),
        rows.len(),
    ))
}

/// Appending rows to a table that has the row that generalises two rows
/// changes nothing of which row that is.
pub proof fn lemma_shared_stays(base: Seq<Term>, ext: Seq<Term>, a: TermIdx, b: TermIdx)
    requires
        rows_wf(base),
        base.len() <= usize::MAX,
        extends(base, ext),
        a.0 < base.len(),
        b.0 < base.len(),
        shared(base, a, b).0 < base.len(),
    ensures
        shared(ext, a, b) == shared(base, a, b),
{
    lemma_generalised_row_bounds(base, a.0 as int, b.0 as int);
    lemma_generalised_row_stays(base, ext, a.0 as int, b.0 as int);
}

/// Appending rows to a table that has the rows of a merge changes nothing
/// of what is merged.
pub proof fn lemma_merged_rows_stays(
    base: Seq<Term>,
    ext: Seq<Term>,
    state: Seq<AbstractRows>,
    c: ContributionModel,
)
    requires
        rows_wf(base),
        base.len() <= usize::MAX,
        extends(base, ext),
        known_below(c, base.len()),
        rows_below(state, base.len()),
        rows_below(merged_rows(base, state, c), base.len()),
    ensures
        merged_rows(ext, state, c) == merged_rows(base, state, c),
{
    let start = if has_abstract_rows(state, c.key()) {
        state
    } else {
        state.push(AbstractRows { id: c.key(), matched: Seq::empty(), equalities: Seq::empty() })
    };
    if has_abstract_rows(state, c.key()) {
        let w = choose|w: int| 0 <= w < state.len() && (#[trigger] state[w]).id == c.key();
        assert(start[w].id == c.key());
    } else {
        assert(start[state.len() as int].id == c.key());
    }
    let i = abstract_at(start, c.key());
    let below = merged_rows(base, state, c);
    if i < state.len() {
        assert(start[i] == state[i]);
    }
    match c {
        ContributionModel::Term { slot, term, creator, .. } => {
            let m = start[i].matched;
            assert(below[i].matched == merge_matched_rows(base, m, slot, term, creator));
            if has_matched_row(m, slot) {
                let j = matched_at(m, slot);
                assert(state[i].matched[j] == m[j]);
                assert(below[i].matched[j].1.matched == shared(base, m[j].1.matched, term));
                lemma_shared_stays(base, ext, m[j].1.matched, term);
            }
        },
        ContributionModel::Equality { slot, from, to, creators, .. } => {
            let m = start[i].equalities;
            assert(below[i].equalities == merge_equality_rows(base, m, slot, from, to, creators));
            if has_equality_row(m, slot) {
                let j = equality_at(m, slot);
                assert(state[i].equalities[j] == m[j]);
                assert(below[i].equalities[j].from == shared(base, m[j].from, from));
                assert(below[i].equalities[j].to == shared(base, m[j].to, to));
                lemma_shared_stays(base, ext, m[j].from, from);
                lemma_shared_stays(base, ext, m[j].to, to);
            }
        },
    }
}

/// A table shares the rows of a fold: once it has the rows of every state
/// that the fold goes through, appending rows changes nothing of what the
/// fold leaves.
pub proof fn lemma_fold_rows_stays(base: Seq<Term>, ext: Seq<Term>, n0: nat, cs: Seq<ContributionModel>)
    requires
        rows_wf(base),
        base.len() <= usize::MAX,
        extends(base, ext),
        n0 <= base.len(),
        fold_known(base, n0, cs),
    ensures
        fold_rows(ext, n0, cs) == fold_rows(base, n0, cs),
        fold_known(ext, n0, cs),
    decreases cs.len(),
{
    if cs.len() > 0 {
        lemma_fold_rows_stays(base, ext, n0, cs.drop_last());
        let before = fold_rows(base, n0, cs.drop_last());
        if known_below(cs.last(), n0) {
            if cs.len() == 1 {
                assert(before =~= Seq::<AbstractRows>::empty());
            } else {
                assert(fold_known(base, n0, cs.drop_last()));
                assert(cs.drop_last().len() > 0);
                assert(rows_below(before, base.len()));
            }
            lemma_merged_rows_stays(base, ext, before, cs.last());
        }
        assert(rows_below(fold_rows(ext, n0, cs), ext.len()));
    }
}

/// Whether an abstract instantiation names `key`: as itself, as the
/// creator of a matched term, or as a creator of an equality.
pub open spec fn names_rows(a: AbstractRows, key: AbstractKey) -> bool {
    ||| a.id == key
    ||| exists|k: int| 0 <= k < a.matched.len() && (#[trigger] a.matched[k]).1.creator == key
    ||| exists|k: int, c: int|
        0 <= k < a.equalities.len() && 0 <= c < a.equalities[k].creators.len() && (
        #[trigger] a.equalities[k].creators[c]) == key
}

/// Whether a contribution names `key`: as the abstract instantiation that it
/// goes to, or as a creator.
pub open spec fn contribution_names(c: ContributionModel, key: AbstractKey) -> bool {
    ||| c.key() == key
    ||| match c {
        ContributionModel::Term { creator, .. } => creator == key,
        ContributionModel::Equality { creators, .. } => creators.contains(key),
    }
}

/// Every term that the contributions hold, and the trigger of every key
/// that they name, is among the first `n` rows.
pub open spec fn contributions_known(cs: Seq<ContributionModel>, n: nat) -> bool {
    &&& forall|k: int| 0 <= k < cs.len() ==> known_below(#[trigger] cs[k], n)
    &&& forall|k: int, key: AbstractKey|
        0 <= k < cs.len() && #[trigger] contribution_names(cs[k], key) ==> key.1.0 < n
}

/// A creator of a grown list was there, or was added.
pub proof fn lemma_extend_unique_from(held: Seq<AbstractKey>, add: Seq<AbstractKey>, key: AbstractKey)
    requires
        extend_unique(held, add).contains(key),
    ensures
        held.contains(key) || add.contains(key),
    decreases add.len(),
{
    if add.len() > 0 {
        let before = extend_unique(held, add.drop_last());
        let now = extend_unique(held, add);
        if before.contains(key) {
            lemma_extend_unique_from(held, add.drop_last(), key);
            if add.drop_last().contains(key) {
                let j = choose|j: int| 0 <= j < add.drop_last().len() && add.drop_last()[j] == key;
                assert(add[j] == key);
            }
        } else {
            let j = choose|j: int| 0 <= j < now.len() && now[j] == key;
            assert(now == before.push(add.last()));
            if j < before.len() {
                assert(before[j] == key);
            }
            assert(add[add.len() - 1] == key);
        }
    }
}

/// Where every contribution is among the first `n` rows, it does not matter
/// to the fold how many more rows count as known.
pub proof fn lemma_fold_rows_known(rows: Seq<Term>, n: nat, m: nat, cs: Seq<ContributionModel>)
    requires
        n <= m,
        forall|k: int| 0 <= k < cs.len() ==> known_below(#[trigger] cs[k], n),
    ensures
        fold_rows(rows, m, cs) == fold_rows(rows, n, cs),
    decreases cs.len(),
{
    if cs.len() > 0 {
        assert forall|k: int| 0 <= k < cs.drop_last().len() implies known_below(
            #[trigger] cs.drop_last()[k],
            n,
        ) by {
            assert(cs.drop_last()[k] == cs[k]);
        }
        lemma_fold_rows_known(rows, n, m, cs.drop_last());
        assert(known_below(cs[cs.len() - 1], n));
    }
}

/// Every key that the state of a fold names is named by a contribution.
pub proof fn lemma_fold_names(rows: Seq<Term>, n0: nat, cs: Seq<ContributionModel>, a: int, key: AbstractKey)
    requires
        0 <= a < fold_rows(rows, n0, cs).len(),
        names_rows(fold_rows(rows, n0, cs)[a], key),
    ensures
        exists|k: int| 0 <= k < cs.len() && contribution_names(#[trigger] cs[k], key),
    decreases cs.len(),
{
    if cs.len() > 0 {
        let last = cs.len() - 1;
        let c = cs[last];
        let prev = fold_rows(rows, n0, cs.drop_last());
        let now = fold_rows(rows, n0, cs);
        let from_before = 0 <= a < prev.len() && names_rows(prev[a], key);
        if !known_below(c, n0) {
            assert(from_before);
        } else {
            let start = if has_abstract_rows(prev, c.key()) {
                prev
            } else {
                prev.push(
                    AbstractRows { id: c.key(), matched: Seq::empty(), equalities: Seq::empty() },
                )
            };
            if has_abstract_rows(prev, c.key()) {
                let w = choose|w: int| 0 <= w < prev.len() && (#[trigger] prev[w]).id == c.key();
                assert(start[w].id == c.key());
            } else {
                assert(start[prev.len() as int].id == c.key());
            }
            let i = abstract_at(start, c.key());
            assert(start[i].id == c.key());
            if i >= prev.len() {
                assert(start[i].matched.len() == 0 && start[i].equalities.len() == 0);
            } else {
                assert(start[i] == prev[i]);
            }
            if a != i {
                assert(now[a] == start[a]);
                if a >= prev.len() {
                    assert(start[a].id == c.key());
                    assert(!has_abstract_rows(prev, c.key()));
                    assert(contribution_names(c, key));
                } else {
                    assert(from_before);
                }
            } else if now[a].id == key {
                assert(contribution_names(c, key));
            } else if exists|k: int|
                0 <= k < now[a].matched.len() && (#[trigger] now[a].matched[k]).1.creator == key {
                let k = choose|k: int|
                    0 <= k < now[a].matched.len() && (#[trigger] now[a].matched[k]).1.creator == key;
                match c {
                    ContributionModel::Term { slot, term, creator, .. } => {
                        let m = start[i].matched;
                        assert(now[a].matched == merge_matched_rows(rows, m, slot, term, creator));
                        if has_matched_row(m, slot) {
                            if k == matched_at(m, slot) {
                                assert(contribution_names(c, key));
                            } else {
                                assert(now[a].matched[k] == m[k]);
                                assert(from_before);
                            }
                        } else {
                            if k == m.len() {
                                assert(contribution_names(c, key));
                            } else {
                                assert(now[a].matched[k] == m[k]);
                                assert(from_before);
                            }
                        }
                    },
                    ContributionModel::Equality { .. } => {
                        assert(now[a].matched == start[i].matched);
                        assert(start[i].matched[k].1.creator == key);
                        assert(from_before);
                    },
                }
            } else {
                let (k, x) = choose|k: int, x: int|
                    0 <= k < now[a].equalities.len() && 0 <= x < now[a].equalities[k].creators.len()
                        && (#[trigger] now[a].equalities[k].creators[x]) == key;
                match c {
                    ContributionModel::Term { .. } => {
                        assert(now[a].equalities == start[i].equalities);
                        assert(start[i].equalities[k].creators[x] == key);
                        assert(from_before);
                    },
                    ContributionModel::Equality { slot, from, to, creators, .. } => {
                        let m = start[i].equalities;
                        assert(now[a].equalities == merge_equality_rows(
                            rows,
                            m,
                            slot,
                            from,
                            to,
                            creators,
                        ));
                        let grown = now[a].equalities[k].creators;
                        assert(grown.contains(key)) by {
                            assert(grown[x] == key);
                        }
                        if has_equality_row(m, slot) {
                            if k == equality_at(m, slot) {
                                lemma_extend_unique_from(m[k].creators, creators, key);
                                if m[k].creators.contains(key) {
                                    let y = choose|y: int|
                                        0 <= y < m[k].creators.len() && m[k].creators[y] == key;
                                    assert(start[i].equalities[k].creators[y] == key);
                                    assert(from_before);
                                } else {
                                    assert(contribution_names(c, key));
                                }
                            } else {
                                assert(now[a].equalities[k] == m[k]);
                                assert(start[i].equalities[k].creators[x] == key);
                                assert(from_before);
                            }
                        } else {
                            if k == m.len() {
                                lemma_extend_unique_from(Seq::empty(), creators, key);
                                assert(contribution_names(c, key));
                            } else {
                                assert(now[a].equalities[k] == m[k]);
                                assert(start[i].equalities[k].creators[x] == key);
                                assert(from_before);
                            }
                        }
                    },
                }
            }
        }
        if from_before {
            lemma_fold_names(rows, n0, cs.drop_last(), a, key);
            let k = choose|k: int|
                0 <= k < cs.drop_last().len() && contribution_names(
                    #[trigger] cs.drop_last()[k],
                    key,
                );
            assert(cs[k] == cs.drop_last()[k]);
            assert(contribution_names(cs[k], key));
        } else {
            assert(contribution_names(cs[last], key));
        }
    }
}

} // verus!
