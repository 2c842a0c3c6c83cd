//! The set-membership filter: a compressed bitmap of document ids, supplied
//! by the `roaring` crate. Verus sees the bitmap only through the trusted
//! declarations below, whose contracts speak of the set of ids it holds.

use vstd::prelude::*;
use roaring::RoaringBitmap;

verus! {

#[verifier::external_type_specification]
#[verifier::external_body]
pub struct ExRoaringBitmap(RoaringBitmap);

/// The set of document ids a bitmap holds.
pub uninterp spec fn bitmap_ids(b: RoaringBitmap) -> Set<u32>;

/// Relies on roaring::RoaringBitmap::new: creates an empty bitmap.
#[verifier::external_body]
pub(crate) fn bitmap_new() -> (r: RoaringBitmap)
    ensures
        bitmap_ids(r) == Set::<u32>::empty(),
{
    RoaringBitmap::new()
}

/// Relies on roaring::RoaringBitmap::insert: adds a value to the set and
/// returns whether it was absent.
#[verifier::external_body]
pub(crate) fn bitmap_insert(b: &mut RoaringBitmap, value: u32) -> (r: bool)
    ensures
        bitmap_ids(*final(b)) == bitmap_ids(*old(b)).insert(value),
        r == !bitmap_ids(*old(b)).contains(value),
{
    b.insert(value)
}

/// Relies on roaring::RoaringBitmap::contains: membership test.
#[verifier::external_body]
pub(crate) fn bitmap_contains(b: &RoaringBitmap, value: u32) -> (r: bool)
    ensures
        r == bitmap_ids(*b).contains(value),
{
    b.contains(value)
}

/// Relies on roaring::RoaringBitmap::len: the number of distinct integers in
/// the set.
#[verifier::external_body]
pub(crate) fn bitmap_len(b: &RoaringBitmap) -> (r: u64)
    ensures
        r == bitmap_ids(*b).len(),
{
    b.len()
}

/// Relies on roaring::RoaringBitmap::is_empty: whether the set is empty.
#[verifier::external_body]
pub(crate) fn bitmap_is_empty(b: &RoaringBitmap) -> (r: bool)
    ensures
        r == (bitmap_ids(*b) =~= Set::<u32>::empty()),
{
    b.is_empty()
}

/// Relies on roaring::RoaringBitmap::iter: yields each contained id exactly
/// once, in ascending order; so the returned vector is strictly increasing
/// and holds exactly the bitmap's ids.
#[verifier::external_body]
pub(crate) fn bitmap_to_vec(b: &RoaringBitmap) -> (r: Vec<u32>)
    ensures
        forall|k: int, l: int| #![trigger r@[k], r@[l]] 0 <= k < l < r@.len() ==> r@[k] < r@[l],
        r@.to_set() == bitmap_ids(*b),
{
    b.iter().collect()
}

} // verus!
