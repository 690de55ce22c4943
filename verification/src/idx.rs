//! Typed integer handles. Each handle names one row of one table.

use vstd::prelude::*;

verus! {

/// Row of the term table.
#[derive(Clone, Copy, Debug, PartialEq, Eq, Hash, Structural)]
pub struct TermIdx(pub usize);

/// Row of the e-node table.
#[derive(Clone, Copy, Debug, PartialEq, Eq, Hash, Structural)]
pub struct ENodeIdx(pub usize);

/// Row of the quantifier table.
#[derive(Clone, Copy, Debug, PartialEq, Eq, Hash, Structural)]
pub struct QuantIdx(pub usize);

/// Row of the table of given equalities.
#[derive(Clone, Copy, Debug, PartialEq, Eq, Hash, Structural)]
pub struct EqGivenIdx(pub usize);

/// Row of the table of transitive equalities.
#[derive(Clone, Copy, Debug, PartialEq, Eq, Hash, Structural)]
pub struct EqTransIdx(pub usize);

/// Row of the match table.
#[derive(Clone, Copy, Debug, PartialEq, Eq, Hash, Structural)]
pub struct MatchIdx(pub usize);

/// Row of the instantiation table.
#[derive(Clone, Copy, Debug, PartialEq, Eq, Hash, Structural)]
pub struct InstIdx(pub usize);

/// Node of the raw dependency graph.
#[derive(Clone, Copy, Debug, PartialEq, Eq, Hash, Structural)]
pub struct RawNodeIndex(pub usize);

} // verus!

verus! {

impl From<usize> for TermIdx {
    fn from(v: usize) -> (r: TermIdx) {
        TermIdx(v)
    }
}

impl vstd::std_specs::convert::FromSpecImpl<usize> for TermIdx {
    open spec fn obeys_from_spec() -> bool {
        true
    }

    open spec fn from_spec(v: usize) -> TermIdx {
        TermIdx(v)
    }
}

impl From<TermIdx> for usize {
    fn from(v: TermIdx) -> (r: usize) {
        v.0
    }
}

impl vstd::std_specs::convert::FromSpecImpl<TermIdx> for usize {
    open spec fn obeys_from_spec() -> bool {
        true
    }

    open spec fn from_spec(v: TermIdx) -> usize {
        v.0
    }
}

} // verus!
