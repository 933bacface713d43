//! Document sets. A set of document ids is a `roaring::RoaringBitmap`; what Verus knows
//! of one is stated here and nowhere proved.

use roaring::RoaringBitmap;
use vstd::prelude::*;

verus! {

#[verifier::external_type_specification]
#[verifier::external_body]
pub struct ExRoaringBitmap(RoaringBitmap);

/// The integers that a bitmap holds.
pub uninterp spec fn bitmap_set(b: &RoaringBitmap) -> Set<u32>;

/// `RoaringBitmap::new`: a bitmap that holds nothing.
#[verifier::external_body]
pub(crate) fn bitmap_new() -> (b: RoaringBitmap)
    ensures
        bitmap_set(&b) == Set::<u32>::empty(),
{
    RoaringBitmap::new()
}

/// `RoaringBitmap::full`: a bitmap that holds every 32-bit integer.
#[verifier::external_body]
pub(crate) fn bitmap_full() -> (b: RoaringBitmap)
    ensures
        bitmap_set(&b) == Set::<u32>::full(),
{
    RoaringBitmap::full()
}

/// `RoaringBitmap::insert`: adds `value`; the result tells whether it was absent.
#[verifier::external_body]
pub(crate) fn bitmap_insert(b: &mut RoaringBitmap, value: u32) -> (added: bool)
    ensures
        bitmap_set(final(b)) == bitmap_set(old(b)).insert(value),
        added == !bitmap_set(old(b)).contains(value),
{
    b.insert(value)
}

/// `RoaringBitmap::remove`: takes `value` out; the result tells whether it was present.
#[verifier::external_body]
pub(crate) fn bitmap_remove(b: &mut RoaringBitmap, value: u32) -> (removed: bool)
    ensures
        bitmap_set(final(b)) == bitmap_set(old(b)).remove(value),
        removed == bitmap_set(old(b)).contains(value),
{
    b.remove(value)
}

/// `RoaringBitmap::contains`: whether the bitmap holds `value`.
#[verifier::external_body]
pub(crate) fn bitmap_contains(b: &RoaringBitmap, value: u32) -> (r: bool)
    ensures
        r == bitmap_set(b).contains(value),
{
    b.contains(value)
}

/// `RoaringBitmap::is_empty`: whether the bitmap holds nothing.
#[verifier::external_body]
pub(crate) fn bitmap_is_empty(b: &RoaringBitmap) -> (r: bool)
    ensures
        r == (bitmap_set(b) == Set::<u32>::empty()),
{
    b.is_empty()
}

/// `BitOrAssign<&RoaringBitmap>`: `b` becomes the union of the two.
#[verifier::external_body]
pub(crate) fn bitmap_union_with(b: &mut RoaringBitmap, other: &RoaringBitmap)
    ensures
        bitmap_set(final(b)) == bitmap_set(old(b)).union(bitmap_set(other)),
{
    *b |= other;
}

/// `BitAndAssign<&RoaringBitmap>`: `b` becomes the intersection of the two.
#[verifier::external_body]
pub(crate) fn bitmap_intersect_with(b: &mut RoaringBitmap, other: &RoaringBitmap)
    ensures
        bitmap_set(final(b)) == bitmap_set(old(b)).intersect(bitmap_set(other)),
{
    *b &= other;
}

/// `SubAssign<&RoaringBitmap>`: `b` loses what `other` holds.
#[verifier::external_body]
pub(crate) fn bitmap_subtract(b: &mut RoaringBitmap, other: &RoaringBitmap)
    ensures
        bitmap_set(final(b)) == bitmap_set(old(b)).difference(bitmap_set(other)),
{
    *b -= other;
}

} // verus!
