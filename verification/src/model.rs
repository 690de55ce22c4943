//! The tables that a parsed solver trace fills, and the order in which its
//! events were emitted.

use vstd::prelude::*;
use crate::idx::{ENodeIdx, EqGivenIdx, EqTransIdx, InstIdx, MatchIdx, QuantIdx, TermIdx};
use crate::items::{Instantiation, Match};
use crate::terms::{Meaning, Terms};

verus! {

/// A node of the solver's e-graph: the term that it stands for and the
/// instantiation that produced it, if one did.
#[derive(Clone, Copy, Debug)]
pub struct ENode {
    pub owner: TermIdx,
    pub created_by: Option<InstIdx>,
}

/// Why the solver holds two e-nodes equal, in one step.
#[derive(Clone, Debug)]
pub enum EqualityExpl {
    /// The e-node is the root of its class.
    Root { id: ENodeIdx },
    /// The equality is a literal, itself an e-node.
    Literal { from: ENodeIdx, eq: ENodeIdx, to: ENodeIdx },
    /// The arguments are equal, by the listed equalities.
    Congruence { from: ENodeIdx, uses: Vec<EqTransIdx>, to: ENodeIdx },
    /// A theory decided it.
    Theory { from: ENodeIdx, to: ENodeIdx },
}

/// An equality derived by chaining given equalities.
#[derive(Clone, Debug)]
pub struct TransitiveExpl {
    pub from: ENodeIdx,
    pub to: ENodeIdx,
    pub path: Vec<EqGivenIdx>,
}

/// A quantifier: its name and the term that introduces it.
#[derive(Clone, Debug)]
pub struct Quantifier {
    pub name: String,
    pub term: Option<TermIdx>,
}

/// One event of the trace; each becomes one node of the raw graph.
#[derive(Clone, Copy, Debug, PartialEq, Eq, Hash, Structural)]
pub enum NodeKind {
    /// An e-node was created.
    ENode(ENodeIdx),
    /// The solver asserted an equality.
    GivenEquality(EqGivenIdx),
    /// The solver derived an equality by transitivity.
    TransEquality(EqTransIdx),
    /// A quantifier was instantiated.
    Instantiation(InstIdx),
}

impl NodeKind {
    /// The instantiation of an instantiation event.
    pub open spec fn spec_inst(self) -> Option<InstIdx> {
        match self {
            NodeKind::Instantiation(i) => Some(i),
            _ => None,
        }
    }

    pub fn inst(&self) -> (r: Option<InstIdx>)
        ensures
            r == self.spec_inst(),
    {
        match self {
            NodeKind::Instantiation(i) => Some(*i),
            _ => None,
        }
    }
}

/// The model of one loaded trace.
pub struct Z3Parser {
    pub insts: Vec<Instantiation>,
    pub matches: Vec<Match>,
    pub enodes: Vec<ENode>,
    pub eq_given: Vec<EqualityExpl>,
    pub eq_trans: Vec<TransitiveExpl>,
    pub quants: Vec<Quantifier>,
    /// The events in the order of their emission.
    pub events: Vec<NodeKind>,
    pub terms: Terms,
}

impl Z3Parser {
    /// A model without any record.
    pub fn new() -> (r: Z3Parser)
        ensures
            r.insts@.len() == 0,
            r.matches@.len() == 0,
            r.enodes@.len() == 0,
            r.eq_given@.len() == 0,
            r.eq_trans@.len() == 0,
            r.quants@.len() == 0,
            r.events@.len() == 0,
            r.terms.rows().len() == 0,
            r.terms.meanings() == Map::<usize, Meaning>::empty(),
            r.terms.wf(),
    {
        Z3Parser {
            insts: Vec::new(),
            matches: Vec::new(),
            enodes: Vec::new(),
            eq_given: Vec::new(),
            eq_trans: Vec::new(),
            quants: Vec::new(),
            events: Vec::new(),
            terms: Terms::new(),
        }
    }

    /// The match of an instantiation, where both records exist.
    pub open spec fn spec_match_idx(&self, i: InstIdx) -> Option<MatchIdx> {
        if i.0 < self.insts@.len() && self.insts@[i.0 as int].match_.0 < self.matches@.len() {
            Some(self.insts@[i.0 as int].match_)
        } else {
            None
        }
    }

    /// The quantifier of an instantiation, where it has one.
    pub open spec fn spec_quant_of(&self, i: InstIdx) -> Option<QuantIdx> {
        match self.spec_match_idx(i) {
            Some(m) => self.matches@[m.0 as int].kind.spec_quant_idx(),
            None => None,
        }
    }

    /// The quantifier and the trigger of an instantiation, where it has both.
    pub open spec fn spec_quant_pattern(&self, i: InstIdx) -> Option<(QuantIdx, TermIdx)> {
        match self.spec_match_idx(i) {
            Some(m) => match (
                self.matches@[m.0 as int].kind.spec_quant_idx(),
                self.matches@[m.0 as int].kind.spec_pattern(),
            ) {
                (Some(q), Some(p)) => Some((q, p)),
                _ => None,
            },
            None => None,
        }
    }

    /// Whether an instantiation is a step of theory solving.
    pub open spec fn spec_is_theory(&self, i: InstIdx) -> bool {
        match self.spec_match_idx(i) {
            Some(m) => self.matches@[m.0 as int].kind is TheorySolving,
            None => false,
        }
    }

    /// The instantiation that led to one given equality: the creator of the
    /// e-node of a literal, nothing for the other kinds.
    pub open spec fn spec_given_creator(&self, g: EqGivenIdx) -> Option<InstIdx> {
        if g.0 < self.eq_given@.len() {
            match self.eq_given@[g.0 as int] {
                EqualityExpl::Literal { eq, .. } => if eq.0 < self.enodes@.len() {
                    self.enodes@[eq.0 as int].created_by
                } else {
                    None
                },
                _ => None,
            }
        } else {
            None
        }
    }

    /// The term of an e-node.
    pub open spec fn spec_owner(&self, e: ENodeIdx) -> Option<TermIdx> {
        if e.0 < self.enodes@.len() {
            Some(self.enodes@[e.0 as int].owner)
        } else {
            None
        }
    }

    pub fn match_idx(&self, i: InstIdx) -> (r: Option<MatchIdx>)
        ensures
            r == self.spec_match_idx(i),
    {
        if i.0 < self.insts.len() {
            let m = self.insts[i.0].match_;
            if m.0 < self.matches.len() {
                return Some(m);
            }
        }
        None
    }

    pub fn quant_of(&self, i: InstIdx) -> (r: Option<QuantIdx>)
        ensures
            r == self.spec_quant_of(i),
    {
        match self.match_idx(i) {
            Some(m) => self.matches[m.0].kind.quant_idx(),
            None => None,
        }
    }

    pub fn quant_pattern(&self, i: InstIdx) -> (r: Option<(QuantIdx, TermIdx)>)
        ensures
            r == self.spec_quant_pattern(i),
    {
        match self.match_idx(i) {
            Some(m) => {
                let q = self.matches[m.0].kind.quant_idx();
                let p = self.matches[m.0].kind.pattern();
                match (q, p) {
                    (Some(q), Some(p)) => Some((q, p)),
                    _ => None,
                }
            },
            None => None,
        }
    }

    pub fn is_theory(&self, i: InstIdx) -> (r: bool)
        ensures
            r == self.spec_is_theory(i),
    {
        match self.match_idx(i) {
            Some(m) => match &self.matches[m.0].kind {
                crate::items::MatchKind::TheorySolving { .. } => true,
                _ => false,
            },
            None => false,
        }
    }

    pub fn given_creator(&self, g: EqGivenIdx) -> (r: Option<InstIdx>)
        ensures
            r == self.spec_given_creator(g),
    {
        if g.0 < self.eq_given.len() {
            match &self.eq_given[g.0] {
                EqualityExpl::Literal { eq, .. } => {
                    if eq.0 < self.enodes.len() {
                        self.enodes[eq.0].created_by
                    } else {
                        None
                    }
                },
                _ => None,
            }
        } else {
            None
        }
    }

    pub fn owner(&self, e: ENodeIdx) -> (r: Option<TermIdx>)
        ensures
            r == self.spec_owner(e),
    {
        if e.0 < self.enodes.len() {
            Some(self.enodes[e.0].owner)
        } else {
            None
        }
    }
}

} // verus!

verus! {

impl Z3Parser {
    /// Every table but the term table is the same in both models, and so are
    /// the meanings of the terms.
    pub open spec fn same_records(&self, other: &Z3Parser) -> bool {
        &&& self.insts == other.insts
        &&& self.matches == other.matches
        &&& self.enodes == other.enodes
        &&& self.eq_given == other.eq_given
        &&& self.eq_trans == other.eq_trans
        &&& self.quants == other.quants
        &&& self.events == other.events
        &&& self.terms.meanings() == other.terms.meanings()
    }
}

} // verus!
