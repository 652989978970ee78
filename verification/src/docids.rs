//! Trusted boundary around the document-id bitmaps.
//!
//! Document sets are held in compressed bitmaps from the `roaring` crate.
//! The bitmap value is opaque to the verifier; `bitmap_as_set` names the set
//! of document ids it holds, and every operation the engine performs on a
//! bitmap goes through a wrapper whose contract is stated over that name.

use vstd::prelude::*;

verus! {

#[verifier::external_type_specification]
#[verifier::external_body]
pub struct ExRoaringBitmap(roaring::RoaringBitmap);

/// The set of document ids held by a `roaring::RoaringBitmap`.
pub uninterp spec fn bitmap_as_set(b: roaring::RoaringBitmap) -> Set<u32>;

/// Relies on RoaringBitmap::new: the fresh bitmap holds no value.
#[verifier::external_body]
pub fn bitmap_new() -> (r: roaring::RoaringBitmap)
    ensures
        bitmap_as_set(r) == Set::<u32>::empty(),
        bitmap_as_set(r).finite(),
{
    roaring::RoaringBitmap::new()
}


/// Relies on RoaringBitmap::is_empty: true exactly when no value is held.
#[verifier::external_body]
pub fn bitmap_is_empty(b: &roaring::RoaringBitmap) -> (r: bool)
    ensures
        r == (bitmap_as_set(*b) == Set::<u32>::empty()),
{
    b.is_empty()
}

/// Relies on RoaringBitmap::clone: the copy holds the same values.
#[verifier::external_body]
pub fn bitmap_clone(b: &roaring::RoaringBitmap) -> (r: roaring::RoaringBitmap)
    ensures
        bitmap_as_set(r) == bitmap_as_set(*b),
        bitmap_as_set(*b).finite() ==> bitmap_as_set(r).finite(),
{
    b.clone()
}

/// Relies on the `BitAnd` impl of RoaringBitmap: set intersection.
#[verifier::external_body]
pub fn bitmap_and(a: &roaring::RoaringBitmap, b: &roaring::RoaringBitmap) -> (r:
    roaring::RoaringBitmap)
    ensures
        bitmap_as_set(r) == bitmap_as_set(*a).intersect(bitmap_as_set(*b)),
        bitmap_as_set(*a).finite() ==> bitmap_as_set(r).finite(),
{
    a & b
}

/// Relies on the `BitOrAssign` impl of RoaringBitmap: set union in place.
#[verifier::external_body]
pub fn bitmap_or_assign(a: &mut roaring::RoaringBitmap, b: &roaring::RoaringBitmap)
    ensures
        bitmap_as_set(*final(a)) == bitmap_as_set(*old(a)).union(bitmap_as_set(*b)),
        bitmap_as_set(*old(a)).finite() && bitmap_as_set(*b).finite() ==> bitmap_as_set(
            *final(a),
        ).finite(),
{
    *a |= b;
}

/// Relies on the `BitAndAssign` impl of RoaringBitmap: set intersection in place.
#[verifier::external_body]
pub fn bitmap_and_assign(a: &mut roaring::RoaringBitmap, b: &roaring::RoaringBitmap)
    ensures
        bitmap_as_set(*final(a)) == bitmap_as_set(*old(a)).intersect(bitmap_as_set(*b)),
        bitmap_as_set(*old(a)).finite() ==> bitmap_as_set(*final(a)).finite(),
{
    *a &= b;
}

} // verus!
