//! The rows of the term table, kept in a `TiVec` of the
//! `typed-index-collections` crate and addressed by `TermIdx`, and the room
//! that the table asks for before it grows.

use vstd::prelude::*;
use std::collections::HashMap;
use typed_index_collections::TiVec;
use crate::idx::TermIdx;
use crate::terms::{Meaning, Term};

verus! {

/// `typed_index_collections::TiVec`: a vector that is indexed by keys of one
/// type only.
#[verifier::external_type_specification]
#[verifier::external_body]
#[verifier::reject_recursive_types(K)]
#[verifier::reject_recursive_types(V)]
pub struct ExTiVec<K, V>(TiVec<K, V>);

/// The rows of a term table, in the order in which they were appended.
pub uninterp spec fn term_rows(t: TiVec<TermIdx, Term>) -> Seq<Term>;

/// `TiVec::new`: a table without rows.
#[verifier::external_body]
pub(crate) fn rows_new() -> (t: TiVec<TermIdx, Term>)
    ensures
        term_rows(t) == Seq::<Term>::empty(),
{
    TiVec::new()
}

/// `TiVec::len`: the number of rows.
#[verifier::external_body]
pub(crate) fn rows_len(t: &TiVec<TermIdx, Term>) -> (n: usize)
    ensures
        n == term_rows(*t).len(),
{
    t.len()
}

/// `TiVec::push_and_get_key`: appends `row` and returns the key of the new
/// row, which is the number of rows that the table had.
#[verifier::external_body]
pub(crate) fn rows_push(t: &mut TiVec<TermIdx, Term>, row: Term) -> (key: TermIdx)
    ensures
        term_rows(*final(t)) == term_rows(*old(t)).push(row),
        key.0 == term_rows(*old(t)).len(),
{
    t.push_and_get_key(row)
}

/// `Vec::try_reserve` on the rows of a `TiVec`: asks for the room of one
/// more row, and tells whether it was given. The rows stay as they are.
#[verifier::external_body]
pub(crate) fn rows_try_reserve(t: &mut TiVec<TermIdx, Term>) -> (given: bool)
    ensures
        term_rows(*final(t)) == term_rows(*old(t)),
{
    t.raw.try_reserve(1).is_ok()
}

/// `HashMap::try_reserve`: asks for the room of one more entry, and tells
/// whether it was given. The entries stay as they are.
#[verifier::external_body]
pub(crate) fn meanings_try_reserve(m: &mut HashMap<usize, Meaning>) -> (given: bool)
    ensures
        final(m)@ == old(m)@,
{
    m.try_reserve(1).is_ok()
}

/// Indexing a `TiVec` by a key: the row at that position. The crate panics
/// on a key past the last row.
#[verifier::external_body]
pub(crate) fn rows_get(t: &TiVec<TermIdx, Term>, key: TermIdx) -> (row: &Term)
    requires
        key.0 < term_rows(*t).len(),
    ensures
        *row == term_rows(*t)[key.0 as int],
{
    &t[key]
}

} // verus!
