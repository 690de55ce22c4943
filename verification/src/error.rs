//! Failures that the tables and analyses report.

use vstd::prelude::*;
use crate::idx::TermIdx;

verus! {

/// Why an operation on the model stopped.
#[derive(Clone, Copy, Debug, PartialEq, Eq, Structural)]
pub enum Error {
    /// A fingerprint was not a hexadecimal number that fits 64 bits.
    InvalidFingerprint,
    /// A term identifier named no registered term.
    UnknownId,
    /// The term is not a quantifier.
    UnknownQuantifierIdx(TermIdx),
    /// An event referred to an event that was not emitted before it.
    MissingBlame,
    /// Memory or index space ran out.
    Alloc,
    /// The caller withdrew the analysis.
    AnalysisCancelled,
}

/// One of two alternatives.
#[derive(Clone, Copy, Debug)]
pub enum Either<L, R> {
    Left(L),
    Right(R),
}

impl<L, R> Either<L, R> {
    /// The left alternative as success, the right one as failure.
    pub fn as_result(&self) -> (r: Result<&L, &R>)
        ensures
            r == match *self {
                Either::Left(l) => Ok::<&L, &R>(&l),
                Either::Right(x) => Err::<&L, &R>(&x),
            },
    {
        match self {
            Either::Left(l) => Ok(l),
            Either::Right(x) => Err(x),
        }
    }
}

} // verus!
