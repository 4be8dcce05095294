//! The compressed representation, for sets that are a small part of the
//! identifier space.

use crate::bitmap::{ascending, ids_below, lemma_ids_below_finite, symmetric_difference, Bitmap};
use std::ops::{BitOrAssign, BitXorAssign, SubAssign};
use vstd::prelude::*;

verus! {

/// `roaring::RoaringBitmap`, whose inside stays hidden.
#[verifier::external_type_specification]
#[verifier::external_body]
pub struct ExRoaringBitmap(roaring::RoaringBitmap);

/// The values that a compressed bitmap holds.
pub uninterp spec fn sparse_values(b: roaring::RoaringBitmap) -> Set<u32>;

/// The values of a compressed bitmap as identifiers.
pub open spec fn sparse_ids(b: roaring::RoaringBitmap) -> Set<u64> {
    Set::new(|id: u64| id <= u32::MAX && sparse_values(b).contains(id as u32))
}

/// `RoaringBitmap::new`: the bitmap that it returns holds nothing.
#[verifier::external_body]
fn sparse_new() -> (b: roaring::RoaringBitmap)
    ensures
        sparse_values(b) == Set::<u32>::empty(),
{
    roaring::RoaringBitmap::new()
}

/// `RoaringBitmap::len`: the number of values held.
#[verifier::external_body]
fn sparse_len(b: &roaring::RoaringBitmap) -> (n: u64)
    ensures
        n == sparse_ids(*b).len(),
{
    b.len()
}

/// `RoaringBitmap::insert`: afterwards the bitmap holds `value` besides what
/// it held; the result says whether `value` was absent.
#[verifier::external_body]
fn sparse_insert(b: &mut roaring::RoaringBitmap, value: u32) -> (fresh: bool)
    ensures
        sparse_values(*final(b)) == sparse_values(*old(b)).insert(value),
        fresh == !sparse_values(*old(b)).contains(value),
{
    b.insert(value)
}

/// `RoaringBitmap::iter`: every value held, once, in ascending order; each is
/// widened to an identifier.
#[verifier::external_body]
fn sparse_iter(b: &roaring::RoaringBitmap) -> (ids: Vec<u64>)
    ensures
        ascending(ids@),
        forall|id: u64| ids@.contains(id) <==> sparse_ids(*b).contains(id),
{
    b.iter().map(|x| x as u64).collect()
}

/// `SubAssign<&RoaringBitmap>`: the set difference.
#[verifier::external_body]
fn sparse_sub_assign(b: &mut roaring::RoaringBitmap, rhs: &roaring::RoaringBitmap)
    ensures
        sparse_values(*final(b)) == sparse_values(*old(b)).difference(sparse_values(*rhs)),
{
    b.sub_assign(rhs)
}

/// `BitOrAssign<&RoaringBitmap>`: the union.
#[verifier::external_body]
fn sparse_or_assign(b: &mut roaring::RoaringBitmap, rhs: &roaring::RoaringBitmap)
    ensures
        sparse_values(*final(b)) == sparse_values(*old(b)).union(sparse_values(*rhs)),
{
    b.bitor_assign(rhs)
}

/// `BitXorAssign<&RoaringBitmap>`: the values that are in exactly one of the
/// two bitmaps.
#[verifier::external_body]
fn sparse_xor_assign(b: &mut roaring::RoaringBitmap, rhs: &roaring::RoaringBitmap)
    ensures
        sparse_values(*final(b)) == sparse_values(*old(b)).difference(sparse_values(*rhs)).union(
            sparse_values(*rhs).difference(sparse_values(*old(b))),
        ),
{
    b.bitxor_assign(rhs)
}

/// The length in bytes of a compressed bitmap's portable serialised form.
pub uninterp spec fn sparse_stored_bytes(b: roaring::RoaringBitmap) -> nat;

/// `RoaringBitmap::serialized_size`: the length in bytes of the portable
/// serialised form, which the bitmap's containers determine.
#[verifier::external_body]
fn sparse_serialized_size(b: &roaring::RoaringBitmap) -> (n: usize)
    ensures
        n == sparse_stored_bytes(*b),
{
    b.serialized_size()
}

/// `RoaringBitmap::clone`: a bitmap with copies of the same containers, so
/// with the same values and the same serialised length.
pub assume_specification[ <roaring::RoaringBitmap as Clone>::clone ](
    b: &roaring::RoaringBitmap,
) -> (c: roaring::RoaringBitmap)
    ensures
        sparse_values(c) == sparse_values(*b),
        sparse_stored_bytes(c) == sparse_stored_bytes(*b),
;

impl Bitmap for roaring::RoaringBitmap {
    open spec fn elems(&self) -> Set<u64> {
        sparse_ids(*self)
    }

    /// Only identifiers of 32 bits can be held.
    open spec fn admits(id: u64) -> bool {
        id <= u32::MAX
    }

    proof fn lemma_finite(&self) {
        lemma_ids_below_finite(0x1_0000_0000);
        vstd::set_lib::lemma_len_subset(sparse_ids(*self), ids_below(0x1_0000_0000));
    }

    proof fn lemma_clone(&self, copy: &Self) {
    }

    fn new() -> (b: Self) {
        let b = sparse_new();
        assert(sparse_ids(b) =~= Set::<u64>::empty());
        b
    }

    fn count(&self) -> (n: usize) {
        let n = sparse_len(self);
        if n > usize::MAX as u64 {
            usize::MAX
        } else {
            n as usize
        }
    }

    fn add(&mut self, id: u64) {
        let _ = sparse_insert(self, id as u32);
        assert(sparse_ids(*self) =~= sparse_ids(*old(self)).insert(id));
    }

    fn iter_elems(&self) -> (ids: Vec<u64>) {
        sparse_iter(self)
    }

    fn and_not(&mut self, rhs: &Self) {
        sparse_sub_assign(self, rhs);
        assert(sparse_ids(*self) =~= sparse_ids(*old(self)).difference(sparse_ids(*rhs)));
    }

    fn or(&mut self, rhs: &Self) {
        sparse_or_assign(self, rhs);
        assert(sparse_ids(*self) =~= sparse_ids(*old(self)).union(sparse_ids(*rhs)));
    }

    fn xor(&mut self, rhs: &Self) {
        sparse_xor_assign(self, rhs);
        assert(sparse_ids(*self) =~= symmetric_difference(
            sparse_ids(*old(self)),
            sparse_ids(*rhs),
        ));
    }

    /// The length of the serialised form.
    open spec fn footprint(&self) -> nat {
        sparse_stored_bytes(*self)
    }

    fn estimate_size(&self) -> (n: usize) {
        sparse_serialized_size(self)
    }
}

} // verus!
