use vstd::prelude::*;

verus! {

/// `roaring::RoaringBitmap`, a set of 32-bit integers, of which only
/// `bitmap_ids` is known.
#[verifier::external_type_specification]
#[verifier::external_body]
pub struct ExRoaringBitmap(roaring::RoaringBitmap);

/// The integers that the bitmap holds.
pub uninterp spec fn bitmap_ids(bitmap: roaring::RoaringBitmap) -> Set<u32>;

/// `RoaringBitmap::new`: an empty bitmap.
#[verifier::external_body]
pub(crate) fn bitmap_new() -> (bitmap: roaring::RoaringBitmap)
    ensures
        bitmap_ids(bitmap) == Set::<u32>::empty(),
{
    roaring::RoaringBitmap::new()
}

/// `RoaringBitmap::insert`: adds the value and says whether it was absent.
#[verifier::external_body]
pub(crate) fn bitmap_insert(bitmap: &mut roaring::RoaringBitmap, value: u32) -> (added: bool)
    ensures
        bitmap_ids(*final(bitmap)) == bitmap_ids(*old(bitmap)).insert(value),
        added == !bitmap_ids(*old(bitmap)).contains(value),
{
    bitmap.insert(value)
}

/// `RoaringBitmap::remove`: takes the value away and says whether it was
/// present.
#[verifier::external_body]
pub(crate) fn bitmap_remove(bitmap: &mut roaring::RoaringBitmap, value: u32) -> (removed: bool)
    ensures
        bitmap_ids(*final(bitmap)) == bitmap_ids(*old(bitmap)).remove(value),
        removed == bitmap_ids(*old(bitmap)).contains(value),
{
    bitmap.remove(value)
}

/// `RoaringBitmap::insert_range` with a range that leaves its end out:
/// adds every value from `start` up to `end`, `end` left out.
#[verifier::external_body]
pub(crate) fn bitmap_insert_range(bitmap: &mut roaring::RoaringBitmap, start: u32, end: u32)
    ensures
        forall|value: u32|
            bitmap_ids(*final(bitmap)).contains(value) <==> bitmap_ids(*old(bitmap)).contains(value)
                || start <= value < end,
{
    let _ = bitmap.insert_range(start..end);
}

/// `-=` of `RoaringBitmap`: takes away every value that `other` holds.
#[verifier::external_body]
pub(crate) fn bitmap_sub_assign(bitmap: &mut roaring::RoaringBitmap, other: &roaring::RoaringBitmap)
    ensures
        bitmap_ids(*final(bitmap)) == bitmap_ids(*old(bitmap)).difference(bitmap_ids(*other)),
{
    *bitmap -= other;
}

/// `RoaringBitmap::len`: the number of values.
#[verifier::external_body]
pub(crate) fn bitmap_len(bitmap: &roaring::RoaringBitmap) -> (count: u64)
    ensures
        count == bitmap_ids(*bitmap).len(),
{
    bitmap.len()
}

/// `RoaringBitmap::min`: the lowest value of the bitmap, or `None` if it is
/// empty.
#[verifier::external_body]
pub(crate) fn bitmap_min(bitmap: &roaring::RoaringBitmap) -> (min: Option<u32>)
    ensures
        min is None <==> bitmap_ids(*bitmap) == Set::<u32>::empty(),
        min matches Some(m) ==> bitmap_ids(*bitmap).contains(m) && forall|value: u32|
            bitmap_ids(*bitmap).contains(value) ==> m <= value,
{
    bitmap.min()
}

/// `RoaringBitmap::max`: the highest value of the bitmap, or `None` if it
/// is empty.
#[verifier::external_body]
pub(crate) fn bitmap_max(bitmap: &roaring::RoaringBitmap) -> (max: Option<u32>)
    ensures
        max is None <==> bitmap_ids(*bitmap) == Set::<u32>::empty(),
        max matches Some(m) ==> bitmap_ids(*bitmap).contains(m) && forall|value: u32|
            bitmap_ids(*bitmap).contains(value) ==> value <= m,
{
    bitmap.max()
}

/// `Clone` of `RoaringBitmap`: a bitmap that holds the same values.
#[verifier::external_body]
pub(crate) fn bitmap_clone(bitmap: &roaring::RoaringBitmap) -> (copy: roaring::RoaringBitmap)
    ensures
        bitmap_ids(copy) == bitmap_ids(*bitmap),
{
    bitmap.clone()
}

/// There are only finitely many 32-bit integers, so every set of them is
/// finite.
pub proof fn lemma_ids_finite(ids: Set<u32>)
    ensures
        ids.finite(),
{
    let all = vstd::set_lib::set_int_range(0, 0x1_0000_0000);
    vstd::set_lib::lemma_int_range(0, 0x1_0000_0000);
    let image = all.map(|i: int| i as u32);
    all.lemma_map_finite(|i: int| i as u32);
    assert(ids.subset_of(image)) by {
        assert forall|id: u32| ids.contains(id) implies image.contains(id) by {
            assert(all.contains(id as int));
            assert((id as int) as u32 == id);
        }
    }
    vstd::set_lib::lemma_set_subset_finite(image, ids);
}

} // verus!
