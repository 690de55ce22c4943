//! What a fold leaves in the slot of a matched term: the generalisation of
//! all the terms that were handed to the slot, which depends on the set of
//! those terms only.

use vstd::prelude::*;
use crate::contribution::ContributionModel;
use crate::matching_loop::{
    apply_contribution, fold_contributions, has_abstract, has_matched, merge_matched, AbstractKey,
    AbstractModel, MatchedModel,
};
use crate::terms::{
    generalise_all, lemma_generalise_all_by_set, lemma_tree_of_ok, tree_ok, trees_ok, TermTree,
    Terms,
};

verus! {

/// Whether a contribution hands a term that the table has to slot `slot` of
/// the abstract instantiation `key`.
pub open spec fn hands_to(terms: &Terms, c: ContributionModel, key: AbstractKey, slot: usize) -> bool {
    match c {
        ContributionModel::Term { key: k, slot: s, term, .. } => k == key && s == slot && term.0
            < terms.rows().len(),
        ContributionModel::Equality { .. } => false,
    }
}

/// The trees of the terms that the contributions hand to slot `slot` of
/// `key`, in the order of the contributions.
pub open spec fn slot_trees(terms: &Terms, cs: Seq<ContributionModel>, key: AbstractKey, slot: usize) -> Seq<
    TermTree,
>
    decreases cs.len(),
{
    if cs.len() == 0 {
        Seq::empty()
    } else {
        let rest = slot_trees(terms, cs.drop_last(), key, slot);
        if hands_to(terms, cs.last(), key, slot) {
            rest.push(terms.tree(cs.last()->Term_term))
        } else {
            rest
        }
    }
}

/// The creator of the last term that the contributions hand to slot `slot`
/// of `key`; the key itself where they hand it none.
pub open spec fn last_creator(terms: &Terms, cs: Seq<ContributionModel>, key: AbstractKey, slot: usize) -> AbstractKey
    decreases cs.len(),
{
    if cs.len() == 0 {
        key
    } else if hands_to(terms, cs.last(), key, slot) {
        cs.last()->Term_creator
    } else {
        last_creator(terms, cs.drop_last(), key, slot)
    }
}

/// No abstract instantiation occurs twice in the state, and no slot twice
/// among the matched terms of one.
pub open spec fn slots_once(state: Seq<AbstractModel>) -> bool {
    &&& forall|i: int, j: int|
        0 <= i < j < state.len() ==> (#[trigger] state[i]).id != (#[trigger] state[j]).id
    &&& forall|i: int, a: int, b: int|
        0 <= i < state.len() && 0 <= a < b < state[i].matched.len() ==> (
        #[trigger] state[i].matched[a]).slot != (#[trigger] state[i].matched[b]).slot
}

/// Every matched term of the state is the generalisation of the terms that
/// the contributions hand to its slot, and its creator is the creator of
/// the last of them.
pub open spec fn slots_hold(terms: &Terms, cs: Seq<ContributionModel>, state: Seq<AbstractModel>) -> bool {
    forall|i: int, j: int|
        0 <= i < state.len() && 0 <= j < state[i].matched.len() ==> slot_trees(
            terms,
            cs,
            state[i].id,
            (#[trigger] state[i].matched[j]).slot,
        ).len() > 0 && state[i].matched[j].tree == generalise_all(
            slot_trees(terms, cs, state[i].id, state[i].matched[j].slot),
        ) && state[i].matched[j].creator == last_creator(
            terms,
            cs,
            state[i].id,
            state[i].matched[j].slot,
        )
}

/// The state has slot `slot` of `key`.
pub open spec fn has_slot(state: Seq<AbstractModel>, key: AbstractKey, slot: usize) -> bool {
    exists|i: int, j: int|
        0 <= i < state.len() && 0 <= j < state[i].matched.len() && state[i].id == key && (
        #[trigger] state[i].matched[j]).slot == slot
}

/// Every slot that a contribution hands a term to is in the state.
pub open spec fn slots_there(terms: &Terms, cs: Seq<ContributionModel>, state: Seq<AbstractModel>) -> bool {
    forall|key: AbstractKey, slot: usize|
        (#[trigger] slot_trees(terms, cs, key, slot)).len() > 0 ==> has_slot(state, key, slot)
}

/// The trees of a slot are trees of rows.
pub proof fn lemma_slot_trees_ok(terms: &Terms, cs: Seq<ContributionModel>, key: AbstractKey, slot: usize)
    ensures
        trees_ok(slot_trees(terms, cs, key, slot)),
    decreases cs.len(),
{
    if cs.len() > 0 {
        lemma_slot_trees_ok(terms, cs.drop_last(), key, slot);
        let rest = slot_trees(terms, cs.drop_last(), key, slot);
        let now = slot_trees(terms, cs, key, slot);
        if hands_to(terms, cs.last(), key, slot) {
            lemma_tree_of_ok(terms.rows(), cs.last()->Term_term.0 as int);
            assert forall|i: int| 0 <= i < now.len() implies tree_ok(#[trigger] now[i]) by {
                if i < rest.len() {
                    assert(now[i] == rest[i]);
                }
            }
        }
    }
}

/// A fold leaves in every slot of a matched term the generalisation of the
/// terms that were handed to the slot, one after the other.
pub proof fn lemma_fold_slots(terms: &Terms, cs: Seq<ContributionModel>)
    ensures
        slots_once(fold_contributions(terms, cs)),
        slots_hold(terms, cs, fold_contributions(terms, cs)),
        slots_there(terms, cs, fold_contributions(terms, cs)),
    decreases cs.len(),
{
    if cs.len() > 0 {
        let before = cs.drop_last();
        let c = cs.last();
        lemma_fold_slots(terms, before);
        let prev = fold_contributions(terms, before);
        let now = fold_contributions(terms, cs);
        assert(now == apply_contribution(prev, terms, c));
        if !c.known(terms) {
            assert forall|key: AbstractKey, slot: usize|
                slot_trees(terms, cs, key, slot) == slot_trees(terms, before, key, slot)
                    && last_creator(terms, cs, key, slot) == last_creator(
                    terms,
                    before,
                    key,
                    slot,
                ) by {
            }
            assert(slots_hold(terms, cs, now));
            assert(slots_there(terms, cs, now));
        } else {
            let key = c.key();
            let base = if has_abstract(prev, key) {
                prev
            } else {
                prev.push(AbstractModel { id: key, matched: Seq::empty(), equalities: Seq::empty() })
            };
            if has_abstract(prev, key) {
                let w = choose|w: int| 0 <= w < prev.len() && (#[trigger] prev[w]).id == key;
                assert(base[w].id == key);
            } else {
                assert(base[prev.len() as int].id == key);
            }
            let i0 = choose|i: int| 0 <= i < base.len() && (#[trigger] base[i]).id == key;
            assert(base[i0].id == key);
            assert(slots_once(base)) by {
                assert forall|i: int, j: int| 0 <= i < j < base.len() implies (#[trigger] base[i]).id
                    != (#[trigger] base[j]).id by {
                    if j == prev.len() {
                        assert(prev[i].id != key);
                    }
                }
                assert forall|i: int, a: int, b: int|
                    0 <= i < base.len() && 0 <= a < b < base[i].matched.len() implies (
                #[trigger] base[i].matched[a]).slot != (#[trigger] base[i].matched[b]).slot by {
                    assert(base[i] == prev[i]);
                }
            }
            match c {
                ContributionModel::Term { slot, term, creator, .. } => {
                    let m = base[i0].matched;
                    let tree = terms.tree(term);
                    let merged = merge_matched(m, slot, tree, creator);
                    assert(now == base.update(
                        i0,
                        AbstractModel {
                            id: base[i0].id,
                            matched: merged,
                            equalities: base[i0].equalities,
                        },
                    ));
                    let old_trees = slot_trees(terms, before, key, slot);
                    assert(slot_trees(terms, cs, key, slot) == old_trees.push(tree));
                    assert(old_trees.push(tree).drop_last() =~= old_trees);
                    assert forall|k: AbstractKey, s: usize| !(k == key && s == slot) implies slot_trees(
                        terms,
                        cs,
                        k,
                        s,
                    ) == slot_trees(terms, before, k, s) && last_creator(terms, cs, k, s)
                        == last_creator(terms, before, k, s) by {
                    }
                    assert(last_creator(terms, cs, key, slot) == creator);
                    if has_matched(m, slot) {
                        let j0 = choose|j: int| 0 <= j < m.len() && (#[trigger] m[j]).slot == slot;
                        assert(m[j0].slot == slot);
                        assert(i0 < prev.len());
                        assert(prev[i0].matched[j0].slot == slot);
                        assert(old_trees.len() > 0);
                        assert(merged[j0].tree == generalise_all(old_trees.push(tree)));
                        assert forall|i: int, j: int|
                            0 <= i < now.len() && 0 <= j < now[i].matched.len() implies slot_trees(
                            terms,
                            cs,
                            now[i].id,
                            (#[trigger] now[i].matched[j]).slot,
                        ).len() > 0 && now[i].matched[j].tree == generalise_all(
                            slot_trees(terms, cs, now[i].id, now[i].matched[j].slot),
                        ) && now[i].matched[j].creator == last_creator(
                            terms,
                            cs,
                            now[i].id,
                            now[i].matched[j].slot,
                        ) by {
                            if i == i0 {
                                if j != j0 {
                                    assert(now[i].matched[j] == prev[i].matched[j]);
                                    assert(prev[i].matched[j].slot != prev[i].matched[j0].slot);
                                }
                            } else {
                                assert(now[i] == prev[i]);
                                assert(prev[i].id != prev[i0].id);
                                assert(prev[i].matched[j].slot == now[i].matched[j].slot);
                            }
                        }
                        assert forall|a: int, b: int|
                            0 <= a < b < merged.len() implies merged[a].slot != merged[b].slot by {
                            assert(merged[a].slot == prev[i0].matched[a].slot);
                            assert(merged[b].slot == prev[i0].matched[b].slot);
                        }
                    } else {
                        assert(merged == m.push(MatchedModel { slot, tree, creator }));
                        if old_trees.len() > 0 {
                            assert(has_slot(prev, key, slot));
                            let (i, j) = choose|i: int, j: int|
                                0 <= i < prev.len() && 0 <= j < prev[i].matched.len() && prev[i].id
                                    == key && (#[trigger] prev[i].matched[j]).slot == slot;
                            assert(has_abstract(prev, key));
                            assert(i == i0);
                            assert(m[j].slot == slot);
                        }
                        assert(old_trees =~= Seq::<TermTree>::empty());
                        assert forall|i: int, j: int|
                            0 <= i < now.len() && 0 <= j < now[i].matched.len() implies slot_trees(
                            terms,
                            cs,
                            now[i].id,
                            (#[trigger] now[i].matched[j]).slot,
                        ).len() > 0 && now[i].matched[j].tree == generalise_all(
                            slot_trees(terms, cs, now[i].id, now[i].matched[j].slot),
                        ) && now[i].matched[j].creator == last_creator(
                            terms,
                            cs,
                            now[i].id,
                            now[i].matched[j].slot,
                        ) by {
                            if i == i0 {
                                if j < m.len() {
                                    assert(now[i].matched[j] == m[j]);
                                    assert(m[j].slot != slot);
                                    assert(prev[i].matched[j] == m[j]);
                                }
                            } else {
                                assert(now[i] == base[i]);
                                assert(base[i].id != base[i0].id);
                                assert(now[i] == prev[i]);
                                assert(prev[i].matched[j].slot == now[i].matched[j].slot);
                            }
                        }
                        assert forall|a: int, b: int|
                            0 <= a < b < merged.len() implies merged[a].slot != merged[b].slot by {
                            if b < m.len() {
                                assert(base[i0].matched[a].slot != base[i0].matched[b].slot);
                            } else {
                                assert(m[a].slot != slot);
                            }
                        }
                    }
                    assert(slots_once(now)) by {
                        assert forall|i: int, j: int| 0 <= i < j < now.len() implies (
                        #[trigger] now[i]).id != (#[trigger] now[j]).id by {
                            assert(now[i].id == base[i].id);
                            assert(now[j].id == base[j].id);
                        }
                        assert forall|i: int, a: int, b: int|
                            0 <= i < now.len() && 0 <= a < b < now[i].matched.len() implies (
                        #[trigger] now[i].matched[a]).slot != (#[trigger] now[i].matched[b]).slot by {
                            if i != i0 {
                                assert(now[i] == base[i]);
                                assert(base[i].matched[a].slot != base[i].matched[b].slot);
                            } else {
                                assert(merged[a].slot != merged[b].slot);
                            }
                        }
                    }
                    assert forall|k: AbstractKey, s: usize|
                        (#[trigger] slot_trees(terms, cs, k, s)).len() > 0 implies has_slot(
                        now,
                        k,
                        s,
                    ) by {
                        if k == key && s == slot {
                            if has_matched(m, slot) {
                                let j0 = choose|j: int|
                                    0 <= j < m.len() && (#[trigger] m[j]).slot == slot;
                                assert(now[i0].matched[j0].slot == slot);
                            } else {
                                assert(now[i0].matched[m.len() as int].slot == slot);
                            }
                        } else {
                            assert(slot_trees(terms, before, k, s).len() > 0);
                            assert(has_slot(prev, k, s));
                            let (i, j) = choose|i: int, j: int|
                                0 <= i < prev.len() && 0 <= j < prev[i].matched.len() && prev[i].id
                                    == k && (#[trigger] prev[i].matched[j]).slot == s;
                            if i == i0 {
                                if has_matched(m, slot) {
                                    let j0 = choose|j: int|
                                        0 <= j < m.len() && (#[trigger] m[j]).slot == slot;
                                    if j == j0 {
                                        assert(now[i0].matched[j0].slot == slot);
                                    } else {
                                        assert(now[i].matched[j] == prev[i].matched[j]);
                                    }
                                } else {
                                    assert(now[i].matched[j] == prev[i].matched[j]);
                                }
                                assert(now[i].matched[j].slot == s);
                            } else {
                                assert(now[i] == prev[i]);
                                assert(now[i].matched[j].slot == s);
                            }
                        }
                    }
                },
                ContributionModel::Equality { .. } => {
                    assert forall|k: AbstractKey, s: usize|
                        slot_trees(terms, cs, k, s) == slot_trees(terms, before, k, s)
                            && last_creator(terms, cs, k, s) == last_creator(terms, before, k, s) by {
                    }
                    assert forall|i: int| 0 <= i < now.len() implies (#[trigger] now[i]).id
                        == base[i].id && now[i].matched == base[i].matched by {
                    }
                    assert(slots_once(now)) by {
                        assert forall|i: int, j: int| 0 <= i < j < now.len() implies (
                        #[trigger] now[i]).id != (#[trigger] now[j]).id by {
                            assert(now[i].id == base[i].id);
                            assert(now[j].id == base[j].id);
                        }
                        assert forall|i: int, a: int, b: int|
                            0 <= i < now.len() && 0 <= a < b < now[i].matched.len() implies (
                        #[trigger] now[i].matched[a]).slot != (#[trigger] now[i].matched[b]).slot by {
                            assert(base[i].matched[a].slot != base[i].matched[b].slot);
                        }
                    }
                    assert forall|i: int, j: int|
                        0 <= i < now.len() && 0 <= j < now[i].matched.len() implies slot_trees(
                        terms,
                        cs,
                        now[i].id,
                        (#[trigger] now[i].matched[j]).slot,
                    ).len() > 0 && now[i].matched[j].tree == generalise_all(
                        slot_trees(terms, cs, now[i].id, now[i].matched[j].slot),
                    ) && now[i].matched[j].creator == last_creator(
                        terms,
                        cs,
                        now[i].id,
                        now[i].matched[j].slot,
                    ) by {
                        assert(now[i].matched == base[i].matched);
                        assert(i < prev.len());
                        assert(prev[i].matched[j] == now[i].matched[j]);
                    }
                    assert forall|k: AbstractKey, s: usize|
                        (#[trigger] slot_trees(terms, cs, k, s)).len() > 0 implies has_slot(
                        now,
                        k,
                        s,
                    ) by {
                        assert(slot_trees(terms, before, k, s).len() > 0);
                        assert(has_slot(prev, k, s));
                        let (i, j) = choose|i: int, j: int|
                            0 <= i < prev.len() && 0 <= j < prev[i].matched.len() && prev[i].id == k
                                && (#[trigger] prev[i].matched[j]).slot == s;
                        assert(now[i].matched == base[i].matched);
                        assert(now[i].matched[j].slot == s);
                    }
                },
            }
        }
    }
}

/// Two folds that hand the same set of terms to a slot both have the slot,
/// or both lack it.
pub proof fn lemma_slot_there_by_set(
    terms: &Terms,
    one: Seq<ContributionModel>,
    other: Seq<ContributionModel>,
    key: AbstractKey,
    slot: usize,
)
    requires
        forall|t: TermTree|
            slot_trees(terms, one, key, slot).contains(t) == slot_trees(
                terms,
                other,
                key,
                slot,
            ).contains(t),
    ensures
        has_slot(fold_contributions(terms, one), key, slot) == has_slot(
            fold_contributions(terms, other),
            key,
            slot,
        ),
{
    lemma_fold_slots(terms, one);
    lemma_fold_slots(terms, other);
    let a = slot_trees(terms, one, key, slot);
    let b = slot_trees(terms, other, key, slot);
    if a.len() > 0 {
        assert(a.contains(a[0]));
        assert(b.contains(a[0]));
    }
    if b.len() > 0 {
        assert(b.contains(b[0]));
        assert(a.contains(b[0]));
    }
    let s1 = fold_contributions(terms, one);
    let s2 = fold_contributions(terms, other);
    if has_slot(s1, key, slot) {
        let (i, j) = choose|i: int, j: int|
            0 <= i < s1.len() && 0 <= j < s1[i].matched.len() && s1[i].id == key && (
            #[trigger] s1[i].matched[j]).slot == slot;
        assert(a.len() > 0);
    }
    if has_slot(s2, key, slot) {
        let (i, j) = choose|i: int, j: int|
            0 <= i < s2.len() && 0 <= j < s2[i].matched.len() && s2[i].id == key && (
            #[trigger] s2[i].matched[j]).slot == slot;
        assert(b.len() > 0);
    }
}

/// Two folds that hand the same set of terms to a slot leave the same
/// generalised term in it, in whatever order and however often the terms
/// came. The creator of the slot is the creator of the term that came last.
pub proof fn lemma_slot_by_set(
    terms: &Terms,
    one: Seq<ContributionModel>,
    other: Seq<ContributionModel>,
    key: AbstractKey,
    slot: usize,
    i: int,
    j: int,
    k: int,
    l: int,
)
    requires
        forall|t: TermTree|
            slot_trees(terms, one, key, slot).contains(t) == slot_trees(
                terms,
                other,
                key,
                slot,
            ).contains(t),
        0 <= i < fold_contributions(terms, one).len(),
        0 <= j < fold_contributions(terms, one)[i].matched.len(),
        fold_contributions(terms, one)[i].id == key,
        fold_contributions(terms, one)[i].matched[j].slot == slot,
        0 <= k < fold_contributions(terms, other).len(),
        0 <= l < fold_contributions(terms, other)[k].matched.len(),
        fold_contributions(terms, other)[k].id == key,
        fold_contributions(terms, other)[k].matched[l].slot == slot,
    ensures
        fold_contributions(terms, one)[i].matched[j].tree == fold_contributions(
            terms,
            other,
        )[k].matched[l].tree,
        fold_contributions(terms, one)[i].matched[j].creator == last_creator(
            terms,
            one,
            key,
            slot,
        ),
        fold_contributions(terms, other)[k].matched[l].creator == last_creator(
            terms,
            other,
            key,
            slot,
        ),
{
    lemma_fold_slots(terms, one);
    lemma_fold_slots(terms, other);
    lemma_slot_trees_ok(terms, one, key, slot);
    lemma_slot_trees_ok(terms, other, key, slot);
    let a = slot_trees(terms, one, key, slot);
    let b = slot_trees(terms, other, key, slot);
    assert(fold_contributions(terms, one)[i].matched[j].tree == generalise_all(a));
    assert(fold_contributions(terms, other)[k].matched[l].tree == generalise_all(b));
    assert forall|x: int| 0 <= x < a.len() implies b.contains(#[trigger] a[x]) by {
        assert(a.contains(a[x]));
    }
    assert forall|x: int| 0 <= x < b.len() implies a.contains(#[trigger] b[x]) by {
        assert(b.contains(b[x]));
    }
    lemma_generalise_all_by_set(a, b);
}

} // verus!
