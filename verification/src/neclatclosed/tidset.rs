//! Trusted layer over `roaring::RoaringBitmap`, the compressed bitmap that
//! NEclatClosed keeps per-item transaction id sets in.
//!
//! Each wrapper's contract speaks of `rb_set`, the mathematical set of ids
//! the bitmap holds; everything built on top is verified against these
//! contracts.

use vstd::prelude::*;

verus! {

#[verifier::external_type_specification]
#[verifier::external_body]
pub struct ExRoaringBitmap(roaring::RoaringBitmap);

/// What a roaring bitmap holds: the set of inserted ids.
pub uninterp spec fn rb_set(b: roaring::RoaringBitmap) -> Set<int>;

/// Relies on roaring::RoaringBitmap::new: an empty bitmap.
#[verifier::external_body]
pub(crate) fn rb_new() -> (r: roaring::RoaringBitmap)
    ensures
        rb_set(r) == Set::<int>::empty(),
{
    roaring::RoaringBitmap::new()
}

/// Relies on roaring::RoaringBitmap::insert: adds one id, keeps the rest.
#[verifier::external_body]
pub(crate) fn rb_insert(b: &mut roaring::RoaringBitmap, value: u32)
    ensures
        rb_set(*final(b)) == rb_set(*old(b)).insert(value as int),
{
    b.insert(value);
}

/// Relies on roaring::RoaringBitmap::len: the number of distinct ids held.
#[verifier::external_body]
pub(crate) fn rb_len(b: &roaring::RoaringBitmap) -> (r: u64)
    requires
        rb_set(*b).finite(),
    ensures
        r as int == rb_set(*b).len(),
{
    b.len()
}

/// Relies on roaring::RoaringBitmap::is_empty: empty containers are pruned,
/// so no containers means no ids.
#[verifier::external_body]
pub(crate) fn rb_is_empty(b: &roaring::RoaringBitmap) -> (r: bool)
    ensures
        r == (rb_set(*b) == Set::<int>::empty()),
{
    b.is_empty()
}

/// Relies on Sub for &RoaringBitmap: the set difference of two bitmaps.
#[verifier::external_body]
pub(crate) fn rb_sub(a: &roaring::RoaringBitmap, b: &roaring::RoaringBitmap) -> (r:
    roaring::RoaringBitmap)
    ensures
        rb_set(r) == rb_set(*a).difference(rb_set(*b)),
{
    a - b
}

/// Relies on Clone for RoaringBitmap: an equal, independent bitmap.
#[verifier::external_body]
pub(crate) fn rb_clone(a: &roaring::RoaringBitmap) -> (r: roaring::RoaringBitmap)
    ensures
        rb_set(r) == rb_set(*a),
{
    a.clone()
}

} // verus!
