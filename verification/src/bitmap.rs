//! Compressed sets of 32-bit numbers, kept by the `roaring` crate.

use vstd::prelude::*;
use roaring::RoaringBitmap;

verus! {

/// `roaring::RoaringBitmap`: a compressed set of 32-bit numbers.
#[verifier::external_type_specification]
#[verifier::external_body]
pub struct ExRoaringBitmap(RoaringBitmap);

/// The numbers that a bitmap holds.
pub uninterp spec fn bitmap_values(b: RoaringBitmap) -> Set<u32>;

/// `RoaringBitmap::new`: a bitmap that holds nothing.
#[verifier::external_body]
pub(crate) fn bitmap_new() -> (b: RoaringBitmap)
    ensures
        bitmap_values(b) == Set::<u32>::empty(),
{
    RoaringBitmap::new()
}

/// `RoaringBitmap::insert`: afterwards the bitmap holds `value` besides what
/// it held; the result tells whether `value` was absent before.
#[verifier::external_body]
pub(crate) fn bitmap_insert(b: &mut RoaringBitmap, value: u32) -> (added: bool)
    ensures
        bitmap_values(*final(b)) == bitmap_values(*old(b)).insert(value),
        added == !bitmap_values(*old(b)).contains(value),
{
    b.insert(value)
}

/// `RoaringBitmap::contains`: whether the bitmap holds `value`.
#[verifier::external_body]
pub(crate) fn bitmap_contains(b: &RoaringBitmap, value: u32) -> (r: bool)
    ensures
        r == bitmap_values(*b).contains(value),
{
    b.contains(value)
}

/// `BitOrAssign<&RoaringBitmap>`: afterwards the bitmap holds the union of
/// what it held and what `other` holds.
#[verifier::external_body]
pub(crate) fn bitmap_union_with(b: &mut RoaringBitmap, other: &RoaringBitmap)
    ensures
        bitmap_values(*final(b)) == bitmap_values(*old(b)).union(bitmap_values(*other)),
{
    *b |= other;
}

/// `RoaringBitmap::iter`: every number that the bitmap holds, once, in
/// ascending order.
#[verifier::external_body]
pub(crate) fn bitmap_to_vec(b: &RoaringBitmap) -> (r: Vec<u32>)
    ensures
        forall|v: u32| r@.contains(v) <==> bitmap_values(*b).contains(v),
        forall|i: int, j: int| 0 <= i < j < r@.len() ==> r@[i] < r@[j],
{
    b.iter().collect()
}

} // verus!
