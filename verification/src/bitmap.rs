//! What this library relies on from `roaring::RoaringBitmap`.
//!
//! The bitmap is opaque to the verifier. Its contents are named by
//! [`members`], and every item below states, without proof, what one operation
//! of the `roaring` crate does to those contents.

use roaring::RoaringBitmap;
use vstd::prelude::*;
use vstd::set_lib::*;

verus! {

/// `roaring::RoaringBitmap`, a compressed set of `u32` values. Nothing is
/// known of a value of it but what the items below state.
#[verifier::external_type_specification]
#[verifier::external_body]
pub struct ExRoaringBitmap(roaring::RoaringBitmap);

/// The set of integers that a bitmap holds.
pub uninterp spec fn members(bitmap: RoaringBitmap) -> Set<u32>;

/// How many members of `set` are smaller than `value`: the position of `value`
/// when the members are listed in ascending order.
pub open spec fn rank(set: Set<u32>, value: u32) -> nat {
    set.filter(|other: u32| other < value).len()
}

/// `RoaringBitmap::new` returns a bitmap that holds nothing.
pub assume_specification[ RoaringBitmap::new ]() -> (bitmap: RoaringBitmap)
    ensures
        members(bitmap) == Set::<u32>::empty(),
;

/// `RoaringBitmap::insert` adds `value` to the bitmap, keeps everything else,
/// and returns whether `value` was absent before.
pub assume_specification[ RoaringBitmap::insert ](bitmap: &mut RoaringBitmap, value: u32) -> (fresh:
    bool)
    ensures
        members(*final(bitmap)) == members(*old(bitmap)).insert(value),
        fresh == !members(*old(bitmap)).contains(value),
;

/// `RoaringBitmap::len` returns the number of integers in the bitmap.
pub assume_specification[ RoaringBitmap::len ](bitmap: &RoaringBitmap) -> (count: u64)
    ensures
        count == members(*bitmap).len(),
;

/// `RoaringBitmap::select` returns the `n`-th integer of the bitmap in
/// ascending order, counting from zero, or `None` when the bitmap holds `n`
/// integers or fewer.
pub assume_specification[ RoaringBitmap::select ](bitmap: &RoaringBitmap, n: u32) -> (found: Option<
    u32,
>)
    ensures
        match found {
            Some(value) => members(*bitmap).contains(value) && rank(members(*bitmap), value) == n,
            None => n >= members(*bitmap).len(),
        },
;

/// `RoaringBitmap::insert_range` on the half-open range `start..end`: adds
/// every integer of the range, keeps everything else, and returns how many of
/// them were absent before.
#[verifier::external_body]
pub(crate) fn insert_range(bitmap: &mut RoaringBitmap, start: u32, end: u32) -> (inserted: u64)
    ensures
        members(*final(bitmap)) == members(*old(bitmap)).union(Set::<u32>::range(start, end)),
        inserted == Set::<u32>::range(start, end).difference(members(*old(bitmap))).len(),
{
    bitmap.insert_range(start..end)
}

/// `BitAndAssign<&RoaringBitmap>` for `RoaringBitmap` (the operator `&=`):
/// keeps the integers of `bitmap` that `other` holds too.
#[verifier::external_body]
pub(crate) fn intersect_with(bitmap: &mut RoaringBitmap, other: &RoaringBitmap)
    ensures
        members(*final(bitmap)) == members(*old(bitmap)).intersect(members(*other)),
{
    *bitmap &= other;
}

/// `SubAssign<&RoaringBitmap>` for `RoaringBitmap` (the operator `-=`):
/// keeps the integers of `bitmap` that `other` does not hold.
#[verifier::external_body]
pub(crate) fn subtract(bitmap: &mut RoaringBitmap, other: &RoaringBitmap)
    ensures
        members(*final(bitmap)) == members(*old(bitmap)).difference(members(*other)),
{
    *bitmap -= other;
}

/// Every set of `u32` values is finite.
pub proof fn lemma_finite(set: Set<u32>)
    ensures
        set.finite(),
{
    <u32 as FiniteFull>::full_properties();
    lemma_set_subset_finite(Set::<u32>::full(), set);
}

/// The member of `set` at position `n` when the members are listed in
/// ascending order, counting from zero.
pub open spec fn nth(set: Set<u32>, n: nat) -> u32 {
    choose|value: u32| set.contains(value) && rank(set, value) == n
}

/// Two members of a set at the same position are the same member.
pub proof fn lemma_rank_unique(set: Set<u32>, a: u32, b: u32)
    requires
        set.contains(a),
        set.contains(b),
        rank(set, a) == rank(set, b),
    ensures
        a == b,
{
    let below_a = set.filter(|other: u32| other < a);
    let below_b = set.filter(|other: u32| other < b);
    lemma_finite(below_a);
    lemma_finite(below_b);
    if a < b {
        assert(below_a.insert(a).subset_of(below_b));
        lemma_len_subset(below_a.insert(a), below_b);
    } else if b < a {
        assert(below_b.insert(b).subset_of(below_a));
        lemma_len_subset(below_b.insert(b), below_a);
    }
}

/// A member found at position `n` is the one that `nth` names.
pub proof fn lemma_nth_is(set: Set<u32>, n: nat, value: u32)
    requires
        set.contains(value),
        rank(set, value) == n,
    ensures
        nth(set, n) == value,
{
    lemma_rank_unique(set, nth(set, n), value);
}

} // verus!
