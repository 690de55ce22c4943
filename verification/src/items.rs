//! The records of a solver trace: instantiations, matches, blames and
//! fingerprints.

use vstd::prelude::*;
use vstd::slice::slice_subrange;
use vstd::string::StrSliceExecFns;
use crate::error::{Either, Error};
use crate::idx::{ENodeIdx, EqTransIdx, MatchIdx, QuantIdx, TermIdx};

verus! {

/// The name that the solver gave a term: a namespace and a number in it.
#[derive(Clone, Copy, Debug, PartialEq, Eq, Hash, Structural)]
pub struct TermId {
    pub namespace: usize,
    pub id: Option<usize>,
}

/// One quantifier instantiation.
#[derive(Debug, Clone)]
pub struct Instantiation {
    pub match_: MatchIdx,
    pub fingerprint: Fingerprint,
    pub proof_id: Option<Either<TermIdx, TermId>>,
    pub z3_generation: Option<u32>,
    pub yields_terms: Vec<ENodeIdx>,
}

impl Instantiation {
    /// The term that the instantiation proved, where the solver registered one.
    pub open spec fn resulting_term(self) -> Option<TermIdx> {
        match self.proof_id {
            Some(Either::Left(t)) => Some(t),
            _ => None,
        }
    }

    pub fn get_resulting_term(&self) -> (r: Option<TermIdx>)
        ensures
            r == self.resulting_term(),
    {
        match &self.proof_id {
            Some(Either::Left(t)) => Some(*t),
            _ => None,
        }
    }
}

/// How an instantiation came about, and what it was blamed on.
#[derive(Debug, Clone)]
pub struct Match {
    pub kind: MatchKind,
    pub blamed: Vec<BlameKind>,
}

/// The number of term entries in a blame list.
pub open spec fn term_count(s: Seq<BlameKind>) -> nat
    decreases s.len(),
{
    if s.len() == 0 {
        0
    } else {
        term_count(s.drop_last()) + if s.last() is Term {
            1nat
        } else {
            0nat
        }
    }
}

/// The pieces of a split, one after the other.
pub open spec fn concat_all(pieces: Seq<Seq<BlameKind>>) -> Seq<BlameKind>
    decreases pieces.len(),
{
    if pieces.len() == 0 {
        Seq::empty()
    } else {
        concat_all(pieces.drop_last()) + pieces.last()
    }
}

/// `pieces` cuts `blamed` before every term entry but the first: each piece
/// holds one term entry, and each piece after the first starts with its own.
pub open spec fn is_trigger_split(blamed: Seq<BlameKind>, pieces: Seq<Seq<BlameKind>>) -> bool {
    &&& pieces.len() == term_count(blamed)
    &&& pieces.len() > 0 ==> concat_all(pieces) == blamed
    &&& forall|j: int| 0 <= j < pieces.len() ==> term_count(#[trigger] pieces[j]) == 1
    &&& forall|j: int| 1 <= j < pieces.len() ==> (#[trigger] pieces[j])[0] is Term
}

/// The split of a blame list, built from the left: the entries up to the
/// first term entry and the entries that follow it make the first piece,
/// every later term entry starts a piece of its own, and an entry that is no
/// term entry joins the last piece. A list without a term entry has no piece.
pub open spec fn trigger_pieces(blamed: Seq<BlameKind>) -> Seq<Seq<BlameKind>>
    decreases blamed.len(),
{
    if blamed.len() == 0 {
        Seq::empty()
    } else {
        let before = trigger_pieces(blamed.drop_last());
        let x = blamed.last();
        if before.len() == 0 {
            if x is Term {
                seq![blamed]
            } else {
                Seq::empty()
            }
        } else if x is Term {
            before.push(seq![x])
        } else {
            before.update(before.len() - 1, before.last().push(x))
        }
    }
}

/// The views of a list of blames.
pub open spec fn blame_views(v: Seq<Blame>) -> Seq<Seq<BlameKind>> {
    Seq::new(v.len(), |j: int| v[j]@)
}

proof fn lemma_term_count_push(s: Seq<BlameKind>, b: BlameKind)
    ensures
        term_count(s.push(b)) == term_count(s) + if b is Term {
            1nat
        } else {
            0nat
        },
{
    assert(s.push(b).drop_last() =~= s);
}

proof fn lemma_term_count_prefix(s: Seq<BlameKind>, i: int)
    requires
        0 <= i < s.len(),
    ensures
        term_count(s.subrange(0, i + 1)) == term_count(s.subrange(0, i)) + if s[i] is Term {
            1nat
        } else {
            0nat
        },
{
    assert(s.subrange(0, i + 1) =~= s.subrange(0, i).push(s[i]));
    lemma_term_count_push(s.subrange(0, i), s[i]);
}

proof fn lemma_term_count_window(s: Seq<BlameKind>, a: int, i: int)
    requires
        0 <= a <= i < s.len(),
    ensures
        term_count(s.subrange(a, i + 1)) == term_count(s.subrange(a, i)) + if s[i] is Term {
            1nat
        } else {
            0nat
        },
{
    assert(s.subrange(a, i + 1) =~= s.subrange(a, i).push(s[i]));
    lemma_term_count_push(s.subrange(a, i), s[i]);
}

impl Match {
    /// A quantifier may have several triggers, and an instantiation matches
    /// exactly one of them. The trigger is a sequence of terms that were all
    /// matched: the result explains, term by term, how each was matched.
    pub fn trigger_matches(&self) -> (r: Vec<Blame<'_>>)
        ensures
            blame_views(r@) == trigger_pieces(self.blamed@),
            is_trigger_split(self.blamed@, blame_views(r@)),
    {
        let blamed = self.blamed.as_slice();
        let n = blamed.len();
        let mut out: Vec<Blame<'_>> = Vec::new();
        let mut last: usize = 0;
        let mut seen = false;
        let mut i: usize = 0;
        assert(blamed@.subrange(0, 0) =~= Seq::<BlameKind>::empty());
        while i < n
            invariant
                blamed@ == self.blamed@,
                n == blamed@.len(),
                0 <= last <= i <= n,
                trigger_pieces(blamed@.subrange(0, i as int)) == (if seen {
                    blame_views(out@).push(blamed@.subrange(last as int, i as int))
                } else {
                    Seq::empty()
                }),
                !seen ==> last == 0 && out@.len() == 0 && term_count(blamed@.subrange(0, i as int))
                    == 0,
                seen ==> term_count(blamed@.subrange(last as int, i as int)) == 1,
                seen ==> out@.len() + 1 == term_count(blamed@.subrange(0, i as int)),
                seen && last > 0 ==> blamed@[last as int] is Term,
                concat_all(blame_views(out@)) == blamed@.subrange(0, last as int),
                forall|j: int| 0 <= j < out@.len() ==> term_count(#[trigger] blame_views(out@)[j]) == 1,
                forall|j: int| 1 <= j < out@.len() ==> (#[trigger] blame_views(out@)[j])[0] is Term,
            decreases n - i,
        {
            proof {
                lemma_term_count_prefix(blamed@, i as int);
                lemma_term_count_window(blamed@, last as int, i as int);
                let s = blamed@.subrange(0, i as int + 1);
                assert(s.drop_last() =~= blamed@.subrange(0, i as int));
                assert(s.last() == blamed@[i as int]);
                if seen {
                    let before = blame_views(out@).push(blamed@.subrange(last as int, i as int));
                    assert(before.last().push(blamed@[i as int]) =~= blamed@.subrange(
                        last as int,
                        i as int + 1,
                    ));
                    assert(before.update(
                        before.len() - 1,
                        before.last().push(blamed@[i as int]),
                    ) =~= blame_views(out@).push(blamed@.subrange(last as int, i as int + 1)));
                    assert(seq![blamed@[i as int]] =~= blamed@.subrange(i as int, i as int + 1));
                }
            }
            let is_term = match blamed[i] {
                BlameKind::Term { .. } => true,
                BlameKind::Equality { .. } => false,
            };
            if is_term {
                if seen {
                    let piece = Blame { slice: slice_subrange(blamed, last, i) };
                    proof {
                        let before = blame_views(out@);
                        let after = blame_views(out@.push(piece));
                        assert(after.drop_last() =~= before);
                        assert(after.last() == piece@);
                        assert(after =~= before.push(piece@));
                        assert(blamed@.subrange(0, last as int) + blamed@.subrange(
                            last as int,
                            i as int,
                        ) =~= blamed@.subrange(0, i as int));
                        assert(blamed@.subrange(i as int, i as int + 1) =~= Seq::empty().push(
                            blamed@[i as int],
                        ));
                        lemma_term_count_push(Seq::empty(), blamed@[i as int]);
                        assert forall|j: int| 0 <= j < after.len() implies term_count(
                            #[trigger] after[j],
                        ) == 1 by {
                            if j < before.len() {
                                assert(after[j] == before[j]);
                            }
                        }
                        assert forall|j: int| 1 <= j < after.len() implies (#[trigger] after[j])[0]
                            is Term by {
                            if j < before.len() {
                                assert(after[j] == before[j]);
                            }
                        }
                    }
                    out.push(piece);
                    last = i;
                } else {
                    proof {
                        assert(blamed@.subrange(0, i as int + 1) =~= blamed@.subrange(
                            last as int,
                            i as int + 1,
                        ));
                    }
                    seen = true;
                }
            }
            i += 1;
        }
        assert(blamed@.subrange(0, n as int) =~= blamed@);
        if seen {
            let piece = Blame { slice: slice_subrange(blamed, last, n) };
            proof {
                let before = blame_views(out@);
                let after = blame_views(out@.push(piece));
                assert(after.drop_last() =~= before);
                assert(after.last() == piece@);
                assert(after =~= before.push(piece@));
                assert(blamed@.subrange(0, last as int) + blamed@.subrange(last as int, n as int)
                    =~= blamed@);
                assert forall|j: int| 0 <= j < after.len() implies term_count(#[trigger] after[j])
                    == 1 by {
                    if j < before.len() {
                        assert(after[j] == before[j]);
                    }
                }
                assert forall|j: int| 1 <= j < after.len() implies (#[trigger] after[j])[0]
                    is Term by {
                    if j < before.len() {
                        assert(after[j] == before[j]);
                    }
                }
            }
            out.push(piece);
        }
        out
    }
}

/// What caused an instantiation.
#[derive(Debug, Clone, Hash, Eq, PartialEq)]
#[allow(inconsistent_fields)]
pub enum MatchKind {
    MBQI { quant: QuantIdx, bound_terms: Vec<ENodeIdx> },
    TheorySolving { axiom_id: TermId, bound_terms: Vec<TermIdx>, rewrite_of: Option<TermIdx> },
    Axiom { quant: QuantIdx, pattern: TermIdx, bound_terms: Vec<TermIdx> },
    Quantifier { quant: QuantIdx, pattern: TermIdx, bound_terms: Vec<ENodeIdx> },
}

impl MatchKind {
    /// The quantifier that was instantiated; theory solving has none.
    pub open spec fn spec_quant_idx(self) -> Option<QuantIdx> {
        match self {
            MatchKind::MBQI { quant, .. } => Some(quant),
            MatchKind::Axiom { quant, .. } => Some(quant),
            MatchKind::Quantifier { quant, .. } => Some(quant),
            MatchKind::TheorySolving { .. } => None,
        }
    }

    /// The trigger that was matched; only axioms and quantifiers have one.
    pub open spec fn spec_pattern(self) -> Option<TermIdx> {
        match self {
            MatchKind::Axiom { pattern, .. } => Some(pattern),
            MatchKind::Quantifier { pattern, .. } => Some(pattern),
            _ => None,
        }
    }

    /// The number of terms bound to the quantified variables.
    pub open spec fn bound_len(self) -> nat {
        match self {
            MatchKind::MBQI { bound_terms, .. } => bound_terms@.len(),
            MatchKind::Quantifier { bound_terms, .. } => bound_terms@.len(),
            MatchKind::TheorySolving { bound_terms, .. } => bound_terms@.len(),
            MatchKind::Axiom { bound_terms, .. } => bound_terms@.len(),
        }
    }

    /// Whether the bound terms are e-nodes (else they are terms).
    pub open spec fn binds_enodes(self) -> bool {
        self is MBQI || self is Quantifier
    }

    /// The e-nodes bound to the variables; empty where terms are bound.
    pub open spec fn bound_enodes(self) -> Seq<ENodeIdx> {
        match self {
            MatchKind::MBQI { bound_terms, .. } => bound_terms@,
            MatchKind::Quantifier { bound_terms, .. } => bound_terms@,
            _ => Seq::empty(),
        }
    }

    /// The terms bound to the variables; empty where e-nodes are bound.
    pub open spec fn bound_plain_terms(self) -> Seq<TermIdx> {
        match self {
            MatchKind::TheorySolving { bound_terms, .. } => bound_terms@,
            MatchKind::Axiom { bound_terms, .. } => bound_terms@,
            _ => Seq::empty(),
        }
    }

    pub fn quant_idx(&self) -> (r: Option<QuantIdx>)
        ensures
            r == self.spec_quant_idx(),
    {
        match self {
            MatchKind::MBQI { quant, .. } => Some(*quant),
            MatchKind::Axiom { quant, .. } => Some(*quant),
            MatchKind::Quantifier { quant, .. } => Some(*quant),
            MatchKind::TheorySolving { .. } => None,
        }
    }

    pub fn pattern(&self) -> (r: Option<TermIdx>)
        ensures
            r == self.spec_pattern(),
    {
        match self {
            MatchKind::MBQI { .. } => None,
            MatchKind::TheorySolving { .. } => None,
            MatchKind::Axiom { pattern, .. } => Some(*pattern),
            MatchKind::Quantifier { pattern, .. } => Some(*pattern),
        }
    }

    /// Maps the bound terms, in order: e-nodes through `enode`, terms through
    /// `term`.
    pub fn bound_terms<T>(
        &self,
        enode: impl Fn(ENodeIdx) -> T,
        term: impl Fn(TermIdx) -> T,
    ) -> (r: Vec<T>)
        requires
            forall|i: int|
                0 <= i < self.bound_enodes().len() ==> call_requires(
                    enode,
                    (#[trigger] self.bound_enodes()[i],),
                ),
            forall|i: int|
                0 <= i < self.bound_plain_terms().len() ==> call_requires(
                    term,
                    (#[trigger] self.bound_plain_terms()[i],),
                ),
        ensures
            r@.len() == self.bound_len(),
            self.binds_enodes() ==> forall|i: int|
                0 <= i < r@.len() ==> call_ensures(
                    enode,
                    (self.bound_enodes()[i],),
                    #[trigger] r@[i],
                ),
            !self.binds_enodes() ==> forall|i: int|
                0 <= i < r@.len() ==> call_ensures(
                    term,
                    (self.bound_plain_terms()[i],),
                    #[trigger] r@[i],
                ),
    {
        match self {
            MatchKind::MBQI { bound_terms, .. } | MatchKind::Quantifier { bound_terms, .. } => {
                let mut out: Vec<T> = Vec::new();
                let mut i: usize = 0;
                while i < bound_terms.len()
                    invariant
                        0 <= i <= bound_terms@.len(),
                        out@.len() == i,
                        bound_terms@ == self.bound_enodes(),
                        forall|k: int|
                            0 <= k < bound_terms@.len() ==> call_requires(
                                enode,
                                (#[trigger] bound_terms@[k],),
                            ),
                        forall|k: int|
                            0 <= k < i ==> call_ensures(
                                enode,
                                (bound_terms@[k],),
                                #[trigger] out@[k],
                            ),
                    decreases bound_terms@.len() - i,
                {
                    out.push(enode(bound_terms[i]));
                    i += 1;
                }
                out
            },
            MatchKind::TheorySolving { bound_terms, .. } | MatchKind::Axiom { bound_terms, .. } => {
                let mut out: Vec<T> = Vec::new();
                let mut i: usize = 0;
                while i < bound_terms.len()
                    invariant
                        0 <= i <= bound_terms@.len(),
                        out@.len() == i,
                        bound_terms@ == self.bound_plain_terms(),
                        forall|k: int|
                            0 <= k < bound_terms@.len() ==> call_requires(
                                term,
                                (#[trigger] bound_terms@[k],),
                            ),
                        forall|k: int|
                            0 <= k < i ==> call_ensures(
                                term,
                                (bound_terms@[k],),
                                #[trigger] out@[k],
                            ),
                    decreases bound_terms@.len() - i,
                {
                    out.push(term(bound_terms[i]));
                    i += 1;
                }
                out
            },
        }
    }

    /// Whether the solver discovered the instance by itself, without a
    /// quantifier.
    pub fn is_discovered(&self) -> (r: bool)
        ensures
            r == (self.spec_quant_idx() is None),
    {
        self.quant_idx().is_none()
    }

    pub fn is_mbqi(&self) -> (r: bool)
        ensures
            r == (*self is MBQI),
    {
        match self {
            MatchKind::MBQI { .. } => true,
            _ => false,
        }
    }

    /// The term that a theory-solving step rewrote.
    pub fn rewrite_of(&self) -> (r: Option<TermIdx>)
        ensures
            r == match *self {
                MatchKind::TheorySolving { rewrite_of, .. } => rewrite_of,
                _ => None,
            },
    {
        match self {
            MatchKind::TheorySolving { rewrite_of, .. } => *rewrite_of,
            _ => None,
        }
    }
}

/// The kind of dependency between two quantifier instantiations.
/// - Term: one instantiation produced a term that the other triggered on.
/// - Equality: the dependency rests on an equality.
#[derive(Debug, Clone, Copy)]
pub enum BlameKind {
    Term { term: ENodeIdx },
    Equality { eq: EqTransIdx },
}

impl BlameKind {
    pub fn unwrap_enode(&self) -> (r: &ENodeIdx)
        requires
            *self is Term,
        ensures
            *r == self->term,
    {
        match self {
            BlameKind::Term { term } => term,
            BlameKind::Equality { .. } => vstd::pervasive::unreached(),
        }
    }

    pub fn unwrap_eq(&self) -> (r: &EqTransIdx)
        requires
            *self is Equality,
        ensures
            *r == self->eq,
    {
        match self {
            BlameKind::Equality { eq } => eq,
            BlameKind::Term { .. } => vstd::pervasive::unreached(),
        }
    }
}

/// Explains how one term of a trigger was matched: an e-node, then the
/// equalities that rewrote distinct subexpressions of it.
#[derive(Debug, Clone, Copy)]
pub struct Blame<'a> {
    slice: &'a [BlameKind],
}

impl<'a> View for Blame<'a> {
    type V = Seq<BlameKind>;

    closed spec fn view(&self) -> Seq<BlameKind> {
        self.slice@
    }
}

impl<'a> Blame<'a> {
    /// An e-node first, and equalities only after it.
    pub open spec fn well_formed(self) -> bool {
        &&& self@.len() > 0
        &&& self@[0] is Term
        &&& forall|k: int| 1 <= k < self@.len() ==> (#[trigger] self@[k]) is Equality
    }

    /// The equalities of a well-formed blame, in order.
    pub open spec fn spec_equalities(self) -> Seq<EqTransIdx> {
        Seq::new((self@.len() - 1) as nat, |k: int| self@[k + 1]->eq)
    }

    /// Takes the entries of `slice` as one blame.
    pub fn new(slice: &'a [BlameKind]) -> (r: Self)
        ensures
            r@ == slice@,
    {
        Blame { slice }
    }

    /// Whether the blame is an e-node followed by equalities only.
    pub fn is_well_formed(self) -> (r: bool)
        ensures
            r == self.well_formed(),
    {
        if self.slice.len() == 0 {
            return false;
        }
        match self.slice[0] {
            BlameKind::Term { .. } => {},
            BlameKind::Equality { .. } => {
                return false;
            },
        }
        let mut k: usize = 1;
        while k < self.slice.len()
            invariant
                1 <= k <= self.slice@.len(),
                self@ == self.slice@,
                forall|j: int| 1 <= j < k ==> (#[trigger] self@[j]) is Equality,
            decreases self.slice@.len() - k,
        {
            match self.slice[k] {
                BlameKind::Equality { .. } => {},
                BlameKind::Term { .. } => {
                    return false;
                },
            }
            k += 1;
        }
        true
    }

    pub fn enode(self) -> (r: ENodeIdx)
        requires
            self@.len() > 0,
            self@[0] is Term,
        ensures
            r == self@[0]->term,
    {
        *self.slice[0].unwrap_enode()
    }

    pub fn equalities_len(self) -> (r: usize)
        requires
            self@.len() > 0,
        ensures
            r == self@.len() - 1,
    {
        self.slice.len() - 1
    }

    pub fn equalities(self) -> (r: Vec<EqTransIdx>)
        requires
            self.well_formed(),
        ensures
            r@ == self.spec_equalities(),
    {
        let mut out: Vec<EqTransIdx> = Vec::new();
        let mut k: usize = 1;
        while k < self.slice.len()
            invariant
                1 <= k <= self.slice@.len(),
                self@ == self.slice@,
                self.well_formed(),
                out@.len() == k - 1,
                forall|j: int| 0 <= j < out@.len() ==> out@[j] == (#[trigger] self@[j + 1])->eq,
            decreases self.slice@.len() - k,
        {
            out.push(*self.slice[k].unwrap_eq());
            k += 1;
        }
        assert(out@ =~= self.spec_equalities());
        out
    }

    /// The equality at position `idx` among the equalities.
    pub fn index(&self, idx: usize) -> (r: &EqTransIdx)
        requires
            idx + 1 < self@.len(),
            self@[idx + 1] is Equality,
        ensures
            *r == self@[idx + 1]->eq,
    {
        let n = self.slice.len();
        assert(idx + 1 < n);
        self.slice[idx + 1].unwrap_eq()
    }
}

/// The identifier of an instantiation, written in logs as a hexadecimal
/// number of up to 16 digits.
#[derive(Debug, Clone, Copy, PartialEq, Eq, Hash, Structural)]
pub struct Fingerprint(pub u64);

/// The value of one hexadecimal digit.
pub open spec fn hex_digit_value(c: char) -> Option<int> {
    if '0' <= c <= '9' {
        Some(c as int - '0' as int)
    } else if 'a' <= c <= 'f' {
        Some(c as int - 'a' as int + 10)
    } else if 'A' <= c <= 'F' {
        Some(c as int - 'A' as int + 10)
    } else {
        None
    }
}

/// The number that a run of hexadecimal digits denotes; none where a
/// character is no digit.
pub open spec fn hex_value(s: Seq<char>) -> Option<int>
    decreases s.len(),
{
    if s.len() == 0 {
        Some(0)
    } else {
        match (hex_value(s.drop_last()), hex_digit_value(s.last())) {
            (Some(v), Some(d)) => Some(16 * v + d),
            _ => None,
        }
    }
}

/// The text without a leading `0x`.
pub open spec fn strip_hex_prefix(s: Seq<char>) -> Seq<char> {
    if s.len() >= 2 && s[0] == '0' && s[1] == 'x' {
        s.subrange(2, s.len() as int)
    } else {
        s
    }
}

/// The digits of a number text: what follows an optional `+`.
pub open spec fn strip_plus(s: Seq<char>) -> Seq<char> {
    if s.len() >= 1 && s[0] == '+' {
        s.subrange(1, s.len() as int)
    } else {
        s
    }
}

/// The fingerprint that a text denotes: an optional `0x`, an optional `+`,
/// then at least one hexadecimal digit, the number fitting 64 bits.
pub open spec fn fingerprint_of(s: Seq<char>) -> Option<u64> {
    let digits = strip_plus(strip_hex_prefix(s));
    if digits.len() == 0 {
        None
    } else {
        match hex_value(digits) {
            Some(v) => if v <= u64::MAX {
                Some(v as u64)
            } else {
                None
            },
            None => None,
        }
    }
}

proof fn lemma_hex_value_prefix(s: Seq<char>, k: int)
    requires
        0 <= k <= s.len(),
        hex_value(s) is Some,
    ensures
        hex_value(s.subrange(0, k)) is Some,
        0 <= hex_value(s.subrange(0, k))->0 <= hex_value(s)->0,
    decreases s.len(),
{
    if k == s.len() {
        assert(s.subrange(0, k) =~= s);
        lemma_hex_value_prefix_nonneg(s);
    } else {
        lemma_hex_value_prefix(s.drop_last(), k);
        assert(s.drop_last().subrange(0, k) =~= s.subrange(0, k));
    }
}

proof fn lemma_hex_value_prefix_nonneg(s: Seq<char>)
    requires
        hex_value(s) is Some,
    ensures
        hex_value(s)->0 >= 0,
    decreases s.len(),
{
    if s.len() > 0 {
        lemma_hex_value_prefix_nonneg(s.drop_last());
    }
}

fn hex_digit(c: char) -> (r: Option<u64>)
    ensures
        r is Some <==> hex_digit_value(c) is Some,
        r is Some ==> r->0 as int == hex_digit_value(c)->0 && r->0 < 16,
{
    if '0' <= c && c <= '9' {
        Some((c as u32 - '0' as u32) as u64)
    } else if 'a' <= c && c <= 'f' {
        Some((c as u32 - 'a' as u32) as u64 + 10)
    } else if 'A' <= c && c <= 'F' {
        Some((c as u32 - 'A' as u32) as u64 + 10)
    } else {
        None
    }
}

impl Fingerprint {
    /// Reads a fingerprint from its hexadecimal text.
    pub fn parse(value: &str) -> (r: Result<Fingerprint, Error>)
        ensures
            match fingerprint_of(value@) {
                Some(v) => r == Ok::<Fingerprint, Error>(Fingerprint(v)),
                None => r == Err::<Fingerprint, Error>(Error::InvalidFingerprint),
            },
    {
        let n = value.unicode_len();
        let mut start: usize = 0;
        if n >= 2 && value.get_char(0) == '0' && value.get_char(1) == 'x' {
            start = 2;
        }
        if start < n && value.get_char(start) == '+' {
            start += 1;
        }
        let ghost digits = strip_plus(strip_hex_prefix(value@));
        assert(digits =~= value@.subrange(start as int, n as int));
        if start == n {
            return Err(Error::InvalidFingerprint);
        }
        let mut acc: u64 = 0;
        let mut i: usize = start;
        assert(digits.subrange(0, 0) =~= Seq::<char>::empty());
        while i < n
            invariant
                start <= i <= n,
                n == value@.len(),
                digits == value@.subrange(start as int, n as int),
                digits == strip_plus(strip_hex_prefix(value@)),
                digits.len() > 0,
                hex_value(digits.subrange(0, i - start)) == Some(acc as int),
            decreases n - i,
        {
            let c = value.get_char(i);
            proof {
                assert(digits.subrange(0, i - start + 1).drop_last() =~= digits.subrange(
                    0,
                    i - start,
                ));
                assert(digits.subrange(0, i - start + 1).last() == c);
                if hex_value(digits) is Some {
                    lemma_hex_value_prefix(digits, i - start + 1);
                }
            }
            match hex_digit(c) {
                None => {
                    return Err(Error::InvalidFingerprint);
                },
                Some(d) => {
                    if acc > (u64::MAX - d) / 16 {
                        assert(16 * acc + d > u64::MAX);
                        return Err(Error::InvalidFingerprint);
                    }
                    acc = acc * 16 + d;
                },
            }
            i += 1;
        }
        assert(digits.subrange(0, n - start) =~= digits);
        Ok(Fingerprint(acc))
    }

    pub fn is_zero(&self) -> (r: bool)
        ensures
            r == (self.0 == 0),
    {
        self.0 == 0
    }

    /// The number itself.
    pub fn value(&self) -> (r: u64)
        ensures
            r == self.0,
    {
        self.0
    }
}

} // verus!
