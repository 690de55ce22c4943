//! What one instantiation of a matching loop contributes to its abstract
//! instantiation: the terms that its trigger matched and the equalities that
//! rewrote them, each with the abstract instantiation that produced it.

use vstd::prelude::*;
use crate::idx::{EqGivenIdx, InstIdx, TermIdx};
use crate::items::{trigger_pieces, blame_views, Blame, BlameKind};
use crate::folded::{contribution_names, contributions_known, known_below};
use crate::matching_loop::AbstractKey;
use crate::model::Z3Parser;

verus! {

/// One merge into an abstract instantiation.
pub enum Contribution {
    /// The term matched at position `slot`, and who produced its e-node.
    Term { key: AbstractKey, slot: usize, term: TermIdx, creator: AbstractKey },
    /// An equality used at `slot`, its two sides, and who produced it.
    Equality { key: AbstractKey, slot: usize, from: TermIdx, to: TermIdx, creators: Vec<AbstractKey> },
}

/// A contribution with its creators as a sequence.
pub enum ContributionModel {
    Term { key: AbstractKey, slot: usize, term: TermIdx, creator: AbstractKey },
    Equality { key: AbstractKey, slot: usize, from: TermIdx, to: TermIdx, creators: Seq<AbstractKey> },
}

impl View for Contribution {
    type V = ContributionModel;

    open spec fn view(&self) -> ContributionModel {
        match *self {
            Contribution::Term { key, slot, term, creator } => ContributionModel::Term {
                key,
                slot,
                term,
                creator,
            },
            Contribution::Equality { key, slot, from, to, creators } => ContributionModel::Equality {
                key,
                slot,
                from,
                to,
                creators: creators@,
            },
        }
    }
}

/// The models of a list of contributions.
pub open spec fn contribution_views(v: Seq<Contribution>) -> Seq<ContributionModel> {
    Seq::new(v.len(), |i: int| v[i]@)
}

/// An e-node first, and equalities only after it.
pub open spec fn piece_ok(piece: Seq<BlameKind>) -> bool {
    &&& piece.len() > 0
    &&& piece[0] is Term
    &&& forall|k: int| 1 <= k < piece.len() ==> (#[trigger] piece[k]) is Equality
}

impl Z3Parser {
    /// The abstract instantiations behind a chain of given equalities: for
    /// each that an instantiation with quantifier and trigger produced, the
    /// two of them, in the order of the chain.
    pub open spec fn spec_creators_of(&self, path: Seq<EqGivenIdx>) -> Seq<AbstractKey>
        decreases path.len(),
    {
        if path.len() == 0 {
            Seq::empty()
        } else {
            let rest = self.spec_creators_of(path.drop_last());
            match self.spec_given_creator(path.last()) {
                Some(ci) => match self.spec_quant_pattern(ci) {
                    Some(key) => rest.push(key),
                    None => rest,
                },
                None => rest,
            }
        }
    }

    /// What the term at position `k` contributes: the owner of its e-node,
    /// where an instantiation with quantifier and trigger created the e-node
    /// and the term table has the owner.
    pub open spec fn term_contribution(&self, key: AbstractKey, k: int, piece: Seq<BlameKind>) -> Option<
        ContributionModel,
    > {
        if piece_ok(piece) && piece[0]->term.0 < self.enodes@.len() && 0 <= k <= usize::MAX {
            let en = self.enodes@[piece[0]->term.0 as int];
            match en.created_by {
                Some(ci) => match self.spec_quant_pattern(ci) {
                    Some(creator) => if en.owner.0 < self.terms.rows().len() {
                        Some(
                            ContributionModel::Term {
                                key,
                                slot: k as usize,
                                term: en.owner,
                                creator,
                            },
                        )
                    } else {
                        None
                    },
                    None => None,
                },
                None => None,
            }
        } else {
            None
        }
    }

    /// What the equality number `j` of position `k` contributes: the owners
    /// of its two sides, where an instantiation produced it, the term table
    /// has both owners, and the slot number `k + j` can be written.
    pub open spec fn eq_contribution(&self, key: AbstractKey, k: int, piece: Seq<BlameKind>, j: int) -> Option<
        ContributionModel,
    > {
        if piece_ok(piece) && 0 <= j && j + 1 < piece.len() && piece[j + 1]->eq.0
            < self.eq_trans@.len() && 0 <= k && k + j <= usize::MAX {
            let t = self.eq_trans@[piece[j + 1]->eq.0 as int];
            let creators = self.spec_creators_of(t.path@);
            if creators.len() > 0 && t.from.0 < self.enodes@.len() && t.to.0 < self.enodes@.len()
                && self.enodes@[t.from.0 as int].owner.0 < self.terms.rows().len()
                && self.enodes@[t.to.0 as int].owner.0 < self.terms.rows().len() {
                Some(
                    ContributionModel::Equality {
                        key,
                        slot: (k + j) as usize,
                        from: self.enodes@[t.from.0 as int].owner,
                        to: self.enodes@[t.to.0 as int].owner,
                        creators,
                    },
                )
            } else {
                None
            }
        } else {
            None
        }
    }

    /// The contributions of the first `upto` equalities of position `k`.
    pub open spec fn piece_eq_contributions(
        &self,
        key: AbstractKey,
        k: int,
        piece: Seq<BlameKind>,
        upto: int,
    ) -> Seq<ContributionModel>
        decreases upto,
    {
        if upto <= 0 {
            Seq::empty()
        } else {
            let rest = self.piece_eq_contributions(key, k, piece, upto - 1);
            match self.eq_contribution(key, k, piece, upto - 1) {
                Some(c) => rest.push(c),
                None => rest,
            }
        }
    }

    /// The term contributions of the first `upto` positions.
    pub open spec fn term_contributions(
        &self,
        key: AbstractKey,
        pieces: Seq<Seq<BlameKind>>,
        upto: int,
    ) -> Seq<ContributionModel>
        decreases upto,
    {
        if upto <= 0 || upto > pieces.len() {
            Seq::empty()
        } else {
            let rest = self.term_contributions(key, pieces, upto - 1);
            match self.term_contribution(key, upto - 1, pieces[upto - 1]) {
                Some(c) => rest.push(c),
                None => rest,
            }
        }
    }

    /// The equality contributions of the first `upto` positions.
    pub open spec fn eq_contributions(
        &self,
        key: AbstractKey,
        pieces: Seq<Seq<BlameKind>>,
        upto: int,
    ) -> Seq<ContributionModel>
        decreases upto,
    {
        if upto <= 0 || upto > pieces.len() {
            Seq::empty()
        } else {
            self.eq_contributions(key, pieces, upto - 1) + self.piece_eq_contributions(
                key,
                upto - 1,
                pieces[upto - 1],
                pieces[upto - 1].len() - 1,
            )
        }
    }

    /// The number of positions of an instantiation that are read: as many as
    /// its trigger has terms and as its blames have pieces.
    pub open spec fn position_count(&self, i: InstIdx) -> int {
        match (self.spec_quant_pattern(i), self.spec_match_idx(i)) {
            (Some(key), Some(m)) => if key.1.0 < self.terms.rows().len() {
                let arity = self.terms.rows()[key.1.0 as int].child_ids@.len() as int;
                let pieces = trigger_pieces(self.matches@[m.0 as int].blamed@).len() as int;
                if arity < pieces {
                    arity
                } else {
                    pieces
                }
            } else {
                0
            },
            _ => 0,
        }
    }

    /// What one instantiation contributes: first the terms of all positions,
    /// then the equalities of all positions. An instantiation without
    /// quantifier or trigger contributes nothing.
    pub open spec fn inst_contributions(&self, i: InstIdx) -> Seq<ContributionModel> {
        match (self.spec_quant_pattern(i), self.spec_match_idx(i)) {
            (Some(key), Some(m)) => {
                let pieces = trigger_pieces(self.matches@[m.0 as int].blamed@);
                let count = self.position_count(i);
                self.term_contributions(key, pieces, count) + self.eq_contributions(
                    key,
                    pieces,
                    count,
                )
            },
            _ => Seq::empty(),
        }
    }

    /// What a list of instantiations contributes, one after the other.
    pub open spec fn contributions(&self, insts: Seq<InstIdx>) -> Seq<ContributionModel>
        decreases insts.len(),
    {
        if insts.len() == 0 {
            Seq::empty()
        } else {
            self.contributions(insts.drop_last()) + self.inst_contributions(insts.last())
        }
    }

    /// The abstract instantiations behind a chain of given equalities.
    pub fn creators_of(&self, path: &Vec<EqGivenIdx>) -> (r: Vec<AbstractKey>)
        ensures
            r@ == self.spec_creators_of(path@),
    {
        let mut out: Vec<AbstractKey> = Vec::new();
        let mut i: usize = 0;
        assert(path@.subrange(0, 0) =~= Seq::<EqGivenIdx>::empty());
        while i < path.len()
            invariant
                0 <= i <= path@.len(),
                out@ == self.spec_creators_of(path@.subrange(0, i as int)),
            decreases path@.len() - i,
        {
            proof {
                assert(path@.subrange(0, i as int + 1).drop_last() =~= path@.subrange(0, i as int));
            }
            match self.given_creator(path[i]) {
                Some(ci) => match self.quant_pattern(ci) {
                    Some(key) => {
                        out.push(key);
                    },
                    None => {},
                },
                None => {},
            }
            i += 1;
        }
        assert(path@.subrange(0, path@.len() as int) =~= path@);
        out
    }

    /// Appends what the term at position `k` contributes.
    fn push_term_contribution(
        &self,
        key: AbstractKey,
        k: usize,
        piece: Blame<'_>,
        out: &mut Vec<Contribution>,
    )
        ensures
            contribution_views(final(out)@) == match self.term_contribution(key, k as int, piece@) {
                Some(c) => contribution_views(old(out)@).push(c),
                None => contribution_views(old(out)@),
            },
    {
        if !piece.is_well_formed() {
            return ;
        }
        let e = piece.enode();
        if e.0 >= self.enodes.len() {
            return ;
        }
        let en = self.enodes[e.0];
        let ci = match en.created_by {
            Some(ci) => ci,
            None => {
                return ;
            },
        };
        let creator = match self.quant_pattern(ci) {
            Some(c) => c,
            None => {
                return ;
            },
        };
        if en.owner.0 >= self.terms.len() {
            return ;
        }
        let c = Contribution::Term { key, slot: k, term: en.owner, creator };
        out.push(c);
        assert(contribution_views(out@) =~= contribution_views(old(out)@).push(c@));
    }

    /// Appends what the equalities of position `k` contribute.
    fn push_eq_contributions(
        &self,
        key: AbstractKey,
        k: usize,
        piece: Blame<'_>,
        out: &mut Vec<Contribution>,
    )
        ensures
            contribution_views(final(out)@) == contribution_views(old(out)@)
                + self.piece_eq_contributions(key, k as int, piece@, piece@.len() - 1),
    {
        if !piece.is_well_formed() {
            proof {
                self.lemma_no_eq_contributions(key, k as int, piece@, piece@.len() - 1);
            }
            assert(contribution_views(out@) + Seq::<ContributionModel>::empty()
                =~= contribution_views(out@));
            return ;
        }
        let eqs = piece.equalities();
        let mut j: usize = 0;
        assert(contribution_views(out@) + Seq::<ContributionModel>::empty() =~= contribution_views(
            out@,
        ));
        while j < eqs.len()
            invariant
                0 <= j <= eqs@.len(),
                piece_ok(piece@),
                eqs@ == piece.spec_equalities(),
                eqs@.len() == piece@.len() - 1,
                contribution_views(out@) == contribution_views(old(out)@)
                    + self.piece_eq_contributions(key, k as int, piece@, j as int),
            decreases eqs@.len() - j,
        {
            let eq = eqs[j];
            let ghost before = contribution_views(out@);
            let ghost sofar = self.piece_eq_contributions(key, k as int, piece@, j as int);
            assert(eq == piece@[j as int + 1]->eq);
            let mut pushed = false;
            if eq.0 < self.eq_trans.len() && j <= usize::MAX - k {
                let t = &self.eq_trans[eq.0];
                let creators = self.creators_of(&t.path);
                if creators.len() > 0 && t.from.0 < self.enodes.len() && t.to.0 < self.enodes.len() {
                    let from = self.enodes[t.from.0].owner;
                    let to = self.enodes[t.to.0].owner;
                    if from.0 < self.terms.len() && to.0 < self.terms.len() {
                        let c = Contribution::Equality { key, slot: k + j, from, to, creators };
                        out.push(c);
                        assert(contribution_views(out@) =~= before.push(c@));
                        assert(c@ == self.eq_contribution(key, k as int, piece@, j as int)->0);
                        pushed = true;
                    }
                }
            }
            proof {
                let next = self.piece_eq_contributions(key, k as int, piece@, j as int + 1);
                if pushed {
                    assert(contribution_views(old(out)@) + next =~= (contribution_views(old(out)@)
                        + sofar).push(self.eq_contribution(key, k as int, piece@, j as int)->0));
                } else {
                    assert(self.eq_contribution(key, k as int, piece@, j as int) is None);
                }
            }
            j += 1;
        }
    }

    /// A piece that is not an e-node followed by equalities contributes no
    /// equality.
    proof fn lemma_no_eq_contributions(
        &self,
        key: AbstractKey,
        k: int,
        piece: Seq<BlameKind>,
        upto: int,
    )
        requires
            !piece_ok(piece),
        ensures
            self.piece_eq_contributions(key, k, piece, upto) == Seq::<ContributionModel>::empty(),
        decreases upto,
    {
        if upto > 0 {
            self.lemma_no_eq_contributions(key, k, piece, upto - 1);
        }
    }

    /// Appends what one instantiation contributes.
    pub fn push_inst_contributions(&self, i: InstIdx, out: &mut Vec<Contribution>)
        ensures
            contribution_views(final(out)@) == contribution_views(old(out)@)
                + self.inst_contributions(i),
    {
        assert(contribution_views(out@) + Seq::<ContributionModel>::empty() =~= contribution_views(
            out@,
        ));
        let key = match self.quant_pattern(i) {
            Some(k) => k,
            None => {
                return ;
            },
        };
        let m = match self.match_idx(i) {
            Some(m) => m,
            None => {
                return ;
            },
        };
        let pieces = self.matches[m.0].trigger_matches();
        let arity = match self.terms.get(key.1) {
            Some(row) => row.child_ids.len(),
            None => 0,
        };
        let count = if arity < pieces.len() {
            arity
        } else {
            pieces.len()
        };
        let ghost views = blame_views(pieces@);
        assert(count == self.position_count(i));
        let mut k: usize = 0;
        while k < count
            invariant
                0 <= k <= count <= pieces@.len(),
                views == blame_views(pieces@),
                contribution_views(out@) == contribution_views(old(out)@) + self.term_contributions(
                    key,
                    views,
                    k as int,
                ),
            decreases count - k,
        {
            let ghost before = contribution_views(out@);
            let ghost sofar = self.term_contributions(key, views, k as int);
            self.push_term_contribution(key, k, pieces[k], out);
            proof {
                assert(views[k as int] == pieces@[k as int]@);
                match self.term_contribution(key, k as int, views[k as int]) {
                    Some(c) => {
                        assert(contribution_views(old(out)@) + sofar.push(c) =~= before.push(c));
                    },
                    None => {},
                }
            }
            k += 1;
        }
        let ghost terms_part = self.term_contributions(key, views, count as int);
        let mut k: usize = 0;
        assert(contribution_views(out@) + Seq::<ContributionModel>::empty() =~= contribution_views(
            out@,
        ));
        assert(contribution_views(old(out)@) + terms_part + Seq::<ContributionModel>::empty()
            =~= contribution_views(old(out)@) + terms_part);
        while k < count
            invariant
                0 <= k <= count <= pieces@.len(),
                views == blame_views(pieces@),
                contribution_views(out@) == contribution_views(old(out)@) + terms_part
                    + self.eq_contributions(key, views, k as int),
            decreases count - k,
        {
            let ghost before = contribution_views(out@);
            let ghost sofar = self.eq_contributions(key, views, k as int);
            self.push_eq_contributions(key, k, pieces[k], out);
            proof {
                assert(views[k as int] == pieces@[k as int]@);
                let add = self.piece_eq_contributions(
                    key,
                    k as int,
                    views[k as int],
                    views[k as int].len() - 1,
                );
                assert(contribution_views(old(out)@) + terms_part + (sofar + add) =~= before + add);
            }
            k += 1;
        }
        assert(contribution_views(old(out)@) + (terms_part + self.eq_contributions(
            key,
            views,
            count as int,
        )) =~= contribution_views(out@));
    }

    /// What a list of instantiations contributes, one after the other.
    pub fn collect_contributions(&self, insts: &Vec<InstIdx>) -> (r: Vec<Contribution>)
        ensures
            contribution_views(r@) == self.contributions(insts@),
    {
        let mut out: Vec<Contribution> = Vec::new();
        let mut i: usize = 0;
        assert(insts@.subrange(0, 0) =~= Seq::<InstIdx>::empty());
        assert(contribution_views(out@) =~= Seq::<ContributionModel>::empty());
        while i < insts.len()
            invariant
                0 <= i <= insts@.len(),
                contribution_views(out@) == self.contributions(insts@.subrange(0, i as int)),
            decreases insts@.len() - i,
        {
            proof {
                assert(insts@.subrange(0, i as int + 1).drop_last() =~= insts@.subrange(
                    0,
                    i as int,
                ));
            }
            self.push_inst_contributions(insts[i], &mut out);
            i += 1;
        }
        assert(insts@.subrange(0, insts@.len() as int) =~= insts@);
        out
    }
}

/// The terms of two lists of contributions are all known where those of
/// each list are.
pub proof fn lemma_known_joined(a: Seq<ContributionModel>, b: Seq<ContributionModel>, n: nat)
    requires
        contributions_known(a, n),
        contributions_known(b, n),
    ensures
        contributions_known(a + b, n),
{
    let c = a + b;
    assert forall|k: int| 0 <= k < c.len() implies known_below(#[trigger] c[k], n) by {
        if k < a.len() {
            assert(c[k] == a[k]);
        } else {
            assert(c[k] == b[k - a.len()]);
        }
    }
    assert forall|k: int, key: AbstractKey|
        0 <= k < c.len() && #[trigger] contribution_names(c[k], key) implies key.1.0 < n by {
        if k < a.len() {
            assert(c[k] == a[k]);
            assert(contribution_names(a[k], key));
        } else {
            assert(c[k] == b[k - a.len()]);
            assert(contribution_names(b[k - a.len()], key));
        }
    }
}

/// The terms of a list with one more contribution are all known where
/// those of the list and of the contribution are.
pub proof fn lemma_known_pushed(a: Seq<ContributionModel>, c: ContributionModel, n: nat)
    requires
        contributions_known(a, n),
        contributions_known(seq![c], n),
    ensures
        contributions_known(a.push(c), n),
{
    lemma_known_joined(a, seq![c], n);
    assert(a.push(c) =~= a + seq![c]);
}

impl Z3Parser {
    /// The records name rows of the term table only: every e-node stands
    /// for a row, and the trigger of every instantiation is one.
    pub open spec fn names_rows_only(&self) -> bool {
        &&& forall|e: int|
            0 <= e < self.enodes@.len() ==> (#[trigger] self.enodes@[e]).owner.0
                < self.terms.rows().len()
        &&& forall|i: InstIdx|
            (#[trigger] self.spec_quant_pattern(i)) matches Some(key) ==> key.1.0
                < self.terms.rows().len()
    }

    /// The creators of a chain of equalities do not depend on the term
    /// table, and their triggers are rows of it.
    pub proof fn lemma_creators_alike(&self, later: &Z3Parser, path: Seq<EqGivenIdx>)
        requires
            later.same_records(self),
            self.names_rows_only(),
        ensures
            later.spec_creators_of(path) == self.spec_creators_of(path),
            forall|c: int|
                0 <= c < self.spec_creators_of(path).len() ==> (#[trigger] self.spec_creators_of(
                    path,
                )[c]).1.0 < self.terms.rows().len(),
        decreases path.len(),
    {
        if path.len() > 0 {
            self.lemma_creators_alike(later, path.drop_last());
            assert(later.spec_given_creator(path.last()) == self.spec_given_creator(path.last()));
            match self.spec_given_creator(path.last()) {
                Some(ci) => {
                    assert(later.spec_quant_pattern(ci) == self.spec_quant_pattern(ci));
                },
                None => {},
            }
        }
    }

    /// What a position contributes by its term does not depend on rows that
    /// were appended to the term table.
    pub proof fn lemma_term_contribution_alike(
        &self,
        later: &Z3Parser,
        key: AbstractKey,
        k: int,
        piece: Seq<BlameKind>,
    )
        requires
            later.same_records(self),
            self.terms.rows().len() <= later.terms.rows().len(),
            self.names_rows_only(),
            key.1.0 < self.terms.rows().len(),
        ensures
            later.term_contribution(key, k, piece) == self.term_contribution(key, k, piece),
            self.term_contribution(key, k, piece) matches Some(c) ==> contributions_known(
                seq![c],
                self.terms.rows().len(),
            ),
    {
        if piece_ok(piece) && piece[0]->term.0 < self.enodes@.len() && 0 <= k <= usize::MAX {
            let en = self.enodes@[piece[0]->term.0 as int];
            match en.created_by {
                Some(ci) => {
                    assert(later.spec_quant_pattern(ci) == self.spec_quant_pattern(ci));
                },
                None => {},
            }
        }
    }

    /// What a position contributes by one of its equalities does not depend
    /// on rows that were appended to the term table.
    pub proof fn lemma_eq_contribution_alike(
        &self,
        later: &Z3Parser,
        key: AbstractKey,
        k: int,
        piece: Seq<BlameKind>,
        j: int,
    )
        requires
            later.same_records(self),
            self.terms.rows().len() <= later.terms.rows().len(),
            self.names_rows_only(),
            key.1.0 < self.terms.rows().len(),
        ensures
            later.eq_contribution(key, k, piece, j) == self.eq_contribution(key, k, piece, j),
            self.eq_contribution(key, k, piece, j) matches Some(c) ==> contributions_known(
                seq![c],
                self.terms.rows().len(),
            ),
    {
        if piece_ok(piece) && 0 <= j && j + 1 < piece.len() && piece[j + 1]->eq.0
            < self.eq_trans@.len() && 0 <= k && k + j <= usize::MAX {
            let t = self.eq_trans@[piece[j + 1]->eq.0 as int];
            self.lemma_creators_alike(later, t.path@);
            let creators = self.spec_creators_of(t.path@);
            match self.eq_contribution(key, k, piece, j) {
                Some(c) => {
                    assert forall|x: int, named: AbstractKey|
                        0 <= x < 1 && #[trigger] contribution_names(seq![c][x], named) implies named.1.0
                        < self.terms.rows().len() by {
                        if c.key() != named {
                            let y = choose|y: int| 0 <= y < creators.len() && creators[y] == named;
                            assert(creators[y].1.0 < self.terms.rows().len());
                        }
                    }
                },
                None => {},
            }
        }
    }

    /// What the equalities of a position contribute does not depend on rows
    /// that were appended to the term table.
    pub proof fn lemma_piece_eq_alike(
        &self,
        later: &Z3Parser,
        key: AbstractKey,
        k: int,
        piece: Seq<BlameKind>,
        upto: int,
    )
        requires
            later.same_records(self),
            self.terms.rows().len() <= later.terms.rows().len(),
            self.names_rows_only(),
            key.1.0 < self.terms.rows().len(),
        ensures
            later.piece_eq_contributions(key, k, piece, upto) == self.piece_eq_contributions(
                key,
                k,
                piece,
                upto,
            ),
            contributions_known(
                self.piece_eq_contributions(key, k, piece, upto),
                self.terms.rows().len(),
            ),
        decreases upto,
    {
        if upto > 0 {
            self.lemma_piece_eq_alike(later, key, k, piece, upto - 1);
            self.lemma_eq_contribution_alike(later, key, k, piece, upto - 1);
            match self.eq_contribution(key, k, piece, upto - 1) {
                Some(c) => {
                    lemma_known_pushed(
                        self.piece_eq_contributions(key, k, piece, upto - 1),
                        c,
                        self.terms.rows().len(),
                    );
                },
                None => {},
            }
        }
    }

    /// What the terms of the first positions contribute does not depend on
    /// rows that were appended to the term table.
    pub proof fn lemma_term_contributions_alike(
        &self,
        later: &Z3Parser,
        key: AbstractKey,
        pieces: Seq<Seq<BlameKind>>,
        upto: int,
    )
        requires
            later.same_records(self),
            self.terms.rows().len() <= later.terms.rows().len(),
            self.names_rows_only(),
            key.1.0 < self.terms.rows().len(),
        ensures
            later.term_contributions(key, pieces, upto) == self.term_contributions(
                key,
                pieces,
                upto,
            ),
            contributions_known(
                self.term_contributions(key, pieces, upto),
                self.terms.rows().len(),
            ),
        decreases upto,
    {
        if 0 < upto <= pieces.len() {
            self.lemma_term_contributions_alike(later, key, pieces, upto - 1);
            self.lemma_term_contribution_alike(later, key, upto - 1, pieces[upto - 1]);
            match self.term_contribution(key, upto - 1, pieces[upto - 1]) {
                Some(c) => {
                    lemma_known_pushed(
                        self.term_contributions(key, pieces, upto - 1),
                        c,
                        self.terms.rows().len(),
                    );
                },
                None => {},
            }
        }
    }

    /// What the equalities of the first positions contribute does not depend
    /// on rows that were appended to the term table.
    pub proof fn lemma_eq_contributions_alike(
        &self,
        later: &Z3Parser,
        key: AbstractKey,
        pieces: Seq<Seq<BlameKind>>,
        upto: int,
    )
        requires
            later.same_records(self),
            self.terms.rows().len() <= later.terms.rows().len(),
            self.names_rows_only(),
            key.1.0 < self.terms.rows().len(),
        ensures
            later.eq_contributions(key, pieces, upto) == self.eq_contributions(key, pieces, upto),
            contributions_known(
                self.eq_contributions(key, pieces, upto),
                self.terms.rows().len(),
            ),
        decreases upto,
    {
        if 0 < upto <= pieces.len() {
            self.lemma_eq_contributions_alike(later, key, pieces, upto - 1);
            self.lemma_piece_eq_alike(
                later,
                key,
                upto - 1,
                pieces[upto - 1],
                pieces[upto - 1].len() - 1,
            );
            lemma_known_joined(
                self.eq_contributions(key, pieces, upto - 1),
                self.piece_eq_contributions(
                    key,
                    upto - 1,
                    pieces[upto - 1],
                    pieces[upto - 1].len() - 1,
                ),
                self.terms.rows().len(),
            );
        }
    }

    /// What a list of instantiations contributes does not depend on rows
    /// that were appended to the term table, where the records name rows of
    /// the table only; and every term and trigger that they contribute is a
    /// row of the table.
    pub proof fn lemma_contributions_alike(&self, later: &Z3Parser, insts: Seq<InstIdx>)
        requires
            later.same_records(self),
            crate::terms::extends(self.terms.rows(), later.terms.rows()),
            self.names_rows_only(),
        ensures
            later.contributions(insts) == self.contributions(insts),
            contributions_known(self.contributions(insts), self.terms.rows().len()),
        decreases insts.len(),
    {
        if insts.len() > 0 {
            self.lemma_contributions_alike(later, insts.drop_last());
            let i = insts.last();
            assert(later.spec_quant_pattern(i) == self.spec_quant_pattern(i));
            assert(later.spec_match_idx(i) == self.spec_match_idx(i));
            match (self.spec_quant_pattern(i), self.spec_match_idx(i)) {
                (Some(key), Some(m)) => {
                    let pieces = trigger_pieces(self.matches@[m.0 as int].blamed@);
                    assert(later.terms.rows()[key.1.0 as int] == self.terms.rows()[key.1.0 as int]);
                    let count = self.position_count(i);
                    assert(later.position_count(i) == count);
                    self.lemma_term_contributions_alike(later, key, pieces, count);
                    self.lemma_eq_contributions_alike(later, key, pieces, count);
                    lemma_known_joined(
                        self.term_contributions(key, pieces, count),
                        self.eq_contributions(key, pieces, count),
                        self.terms.rows().len(),
                    );
                },
                _ => {},
            }
            lemma_known_joined(
                self.contributions(insts.drop_last()),
                self.inst_contributions(i),
                self.terms.rows().len(),
            );
        }
    }
}

} // verus!
