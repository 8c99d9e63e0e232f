//! Sets of ids held in roaring bitmaps, seen by the proofs as `Set<u32>`.

use roaring::RoaringBitmap;
use vstd::prelude::*;
use vstd::relations::injective_on;
use vstd::set_lib::*;

verus! {

#[verifier::external_type_specification]
#[verifier::external_body]
pub struct ExRoaringBitmap(RoaringBitmap);

/// The ids that a bitmap holds.
pub uninterp spec fn bitmap_ids(b: RoaringBitmap) -> Set<u32>;

/// Every set of `u32` values is finite.
pub proof fn lemma_u32_set_finite(s: Set<u32>)
    ensures
        s.finite(),
{
    let range = set_int_range(0, 0x1_0000_0000);
    lemma_int_range(0, 0x1_0000_0000);
    let all = range.map(|i: int| i as u32);
    range.lemma_map_finite(|i: int| i as u32);
    assert forall|x: u32| s.contains(x) implies all.contains(x) by {
        assert(range.contains(x as int));
        assert((x as int) as u32 == x);
    }
    lemma_set_subset_finite(all, s);
}

/// A set of `u32` values has at most `2^32` of them.
pub proof fn lemma_u32_set_size(s: Set<u32>)
    ensures
        s.finite(),
        s.len() <= 0x1_0000_0000,
{
    let range = set_int_range(0, 0x1_0000_0000);
    lemma_int_range(0, 0x1_0000_0000);
    let as_int = s.map(|x: u32| x as int);
    lemma_u32_set_finite(s);
    s.lemma_map_finite(|x: u32| x as int);
    assert(as_int.subset_of(range));
    lemma_len_subset(as_int, range);
    assert(injective_on(|x: u32| x as int, s));
    lemma_map_size(s, as_int, |x: u32| x as int);
}

/// The number of ids in `s` below `x`.
pub open spec fn rank_below(s: Set<u32>, x: u32) -> nat {
    s.filter(|y: u32| y < x).len()
}

/// Relies on `RoaringBitmap::new`: the new bitmap is empty.
#[verifier::external_body]
pub(crate) fn bitmap_new() -> (r: RoaringBitmap)
    ensures
        bitmap_ids(r) == Set::<u32>::empty(),
{
    RoaringBitmap::new()
}

/// Relies on `RoaringBitmap::insert`: adds the value, and says whether it was absent.
#[verifier::external_body]
pub(crate) fn bitmap_insert(b: &mut RoaringBitmap, value: u32) -> (r: bool)
    ensures
        bitmap_ids(*final(b)) == bitmap_ids(*old(b)).insert(value),
        r == !bitmap_ids(*old(b)).contains(value),
{
    b.insert(value)
}

/// Relies on `RoaringBitmap::contains`: whether the value is held.
#[verifier::external_body]
pub(crate) fn bitmap_contains(b: &RoaringBitmap, value: u32) -> (r: bool)
    ensures
        r == bitmap_ids(*b).contains(value),
{
    b.contains(value)
}

/// Relies on `RoaringBitmap::remove`: takes the value out, and says whether it was present.
#[verifier::external_body]
pub(crate) fn bitmap_remove(b: &mut RoaringBitmap, value: u32) -> (r: bool)
    ensures
        bitmap_ids(*final(b)) == bitmap_ids(*old(b)).remove(value),
        r == bitmap_ids(*old(b)).contains(value),
{
    b.remove(value)
}

/// Relies on `RoaringBitmap::len`: the number of values held.
#[verifier::external_body]
pub(crate) fn bitmap_len(b: &RoaringBitmap) -> (r: u64)
    ensures
        r == bitmap_ids(*b).len(),
{
    b.len()
}

/// Relies on `RoaringBitmap::select`: the `n`-th smallest value (from 0), or
/// `None` when `n` is at least the number of values.
#[verifier::external_body]
pub(crate) fn bitmap_select(b: &RoaringBitmap, n: u32) -> (r: Option<u32>)
    ensures
        r.is_some() == (n < bitmap_ids(*b).len()),
        r.is_some() ==> bitmap_ids(*b).contains(r.unwrap()) && rank_below(bitmap_ids(*b), r.unwrap())
            == n,
{
    b.select(n)
}

/// Relies on `RoaringBitmap::min`: the smallest value, or `None` when empty.
#[verifier::external_body]
pub(crate) fn bitmap_min(b: &RoaringBitmap) -> (r: Option<u32>)
    ensures
        r.is_none() == (bitmap_ids(*b) == Set::<u32>::empty()),
        r.is_some() ==> bitmap_ids(*b).contains(r.unwrap()) && (forall|y: u32|
            bitmap_ids(*b).contains(y) ==> r.unwrap() <= y),
{
    b.min()
}

/// Relies on `Sub` for `&RoaringBitmap`: the values of `a` that are not in `b`.
#[verifier::external_body]
pub(crate) fn bitmap_difference(a: &RoaringBitmap, b: &RoaringBitmap) -> (r: RoaringBitmap)
    ensures
        bitmap_ids(r) == bitmap_ids(*a).difference(bitmap_ids(*b)),
{
    a - b
}

} // verus!
