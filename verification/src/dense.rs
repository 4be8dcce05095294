//! The fixed-width representation: one bit for each identifier up to the
//! largest one added.

use crate::bitmap::{ascending, ids_below, lemma_ids_below_finite, symmetric_difference, Bitmap};
use std::ops::{BitOrAssign, BitXorAssign};
use vstd::prelude::*;

verus! {

/// A set of identifiers as a growable vector of bits; bit `id` is set where
/// `id` is in the set.
#[verifier::external_body]
#[derive(Debug)]
pub struct DenseBitmap {
    bits: bitvec::vec::BitVec,
}

/// The bits of a bit vector, by index.
pub uninterp spec fn dense_bits(b: DenseBitmap) -> Seq<bool>;

/// The most bits that a bit vector can hold.
pub open spec fn max_bits() -> nat {
    (usize::MAX / 8) as nat
}

/// The indices of the bits that are set.
pub open spec fn ones(bits: Seq<bool>) -> Set<u64> {
    Set::new(|id: u64| id < bits.len() && bits[id as int])
}

/// Bit `i` of `bits`; a bit that is not held counts as clear.
pub open spec fn bit_at(bits: Seq<bool>, i: int) -> bool {
    0 <= i < bits.len() && bits[i]
}

/// The larger of two lengths.
pub open spec fn larger(a: nat, b: nat) -> nat {
    if a >= b {
        a
    } else {
        b
    }
}

/// `bits` after identifier `id` was added: grown to `id + 1` bits where it
/// was shorter, never shortened, with bit `id` set and no other bit changed.
pub open spec fn with_bit(bits: Seq<bool>, id: nat) -> Seq<bool> {
    Seq::new(larger(bits.len(), id + 1), |i: int| i == id || bit_at(bits, i))
}

/// The disjunction of two bit vectors, as long as the longer one.
pub open spec fn bits_or(a: Seq<bool>, b: Seq<bool>) -> Seq<bool> {
    Seq::new(larger(a.len(), b.len()), |i: int| bit_at(a, i) || bit_at(b, i))
}

/// The exclusive disjunction of two bit vectors, as long as the longer one.
pub open spec fn bits_xor(a: Seq<bool>, b: Seq<bool>) -> Seq<bool> {
    Seq::new(larger(a.len(), b.len()), |i: int| bit_at(a, i) != bit_at(b, i))
}

/// `a` without the bits that are set in `b`, as long as `a`.
pub open spec fn bits_and_not(a: Seq<bool>, b: Seq<bool>) -> Seq<bool> {
    Seq::new(a.len(), |i: int| bit_at(a, i) && !bit_at(b, i))
}

/// `b` is no longer than `a` and sets no bit that `a` leaves clear.
pub open spec fn covered(a: Seq<bool>, b: Seq<bool>) -> bool {
    b.len() <= a.len() && forall|i: int| 0 <= i < b.len() && b[i] ==> a[i]
}

/// `b` sets no bit.
pub open spec fn all_clear(b: Seq<bool>) -> bool {
    forall|i: int| 0 <= i < b.len() ==> !b[i]
}

/// Flipping the same bits twice gives back the bit vector, where the operand
/// is no longer than it.
pub proof fn lemma_xor_twice(a: Seq<bool>, b: Seq<bool>)
    requires
        b.len() <= a.len(),
    ensures
        bits_xor(bits_xor(a, b), b) == a,
{
    assert(bits_xor(bits_xor(a, b), b) =~= a);
}

/// More bits never take fewer bytes, and no bits take none.
pub proof fn lemma_word_bytes_monotonic(a: nat, b: nat)
    requires
        a <= b,
    ensures
        word_bytes(a) <= word_bytes(b),
        word_bytes(0) == 0,
{
    let w = usize::BITS as nat;
    assert(w == 32 || w == 64);
    assert(words_for(a) <= words_for(b)) by {
        lemma_words_for_monotonic(a, b, w);
    }
    assert(words_for(a) * (w / 8) <= words_for(b) * (w / 8)) by (nonlinear_arith)
        requires
            words_for(a) <= words_for(b),
    ;
}

/// Counting whole words of `w` bits, more bits never take fewer words.
pub proof fn lemma_words_for_monotonic(a: nat, b: nat, w: nat)
    requires
        a <= b,
        w == usize::BITS,
    ensures
        words_for(a) <= words_for(b),
{
    assert(w == 32 || w == 64);
    if w == 32 {
        assert(a / 32 <= b / 32);
        assert(a / 32 == b / 32 ==> (a % 32 <= b % 32));
    } else {
        assert(a / 64 <= b / 64);
        assert(a / 64 == b / 64 ==> (a % 64 <= b % 64));
    }
}

/// `BitVec::new`: a bit vector without bits.
#[verifier::external_body]
fn dense_new() -> (b: DenseBitmap)
    ensures
        dense_bits(b) == Seq::<bool>::empty(),
{
    DenseBitmap { bits: bitvec::vec::BitVec::new() }
}

/// `BitVec::len`: the number of bits, which never exceeds the most that a bit
/// vector can hold.
#[verifier::external_body]
fn dense_len(b: &DenseBitmap) -> (n: usize)
    ensures
        n == dense_bits(*b).len(),
        n <= max_bits(),
{
    b.bits.len()
}

/// `BitVec::resize` with `false`: the vector gets `new_len` bits; those that
/// it keeps are unchanged and the new ones are clear.
#[verifier::external_body]
fn dense_resize(b: &mut DenseBitmap, new_len: usize)
    requires
        new_len <= max_bits(),
    ensures
        dense_bits(*final(b)).len() == new_len,
        forall|i: int|
            0 <= i < new_len ==> #[trigger] dense_bits(*final(b))[i] == (i < dense_bits(
                *old(b),
            ).len() && dense_bits(*old(b))[i]),
{
    b.bits.resize(new_len, false)
}

/// `BitSlice::set`: writes one bit and leaves the others.
#[verifier::external_body]
fn dense_set(b: &mut DenseBitmap, index: usize, value: bool)
    requires
        index < dense_bits(*old(b)).len(),
    ensures
        dense_bits(*final(b)) == dense_bits(*old(b)).update(index as int, value),
{
    b.bits.set(index, value)
}

/// Indexing a `BitSlice`: reads one bit.
#[verifier::external_body]
fn dense_get(b: &DenseBitmap, index: usize) -> (value: bool)
    requires
        index < dense_bits(*b).len(),
    ensures
        value == dense_bits(*b)[index as int],
{
    b.bits[index]
}

/// `BitSlice::count_ones`: the number of bits that are set.
#[verifier::external_body]
fn dense_count_ones(b: &DenseBitmap) -> (n: usize)
    ensures
        n == ones(dense_bits(*b)).len(),
{
    b.bits.count_ones()
}

/// `BitSlice::iter_ones`: the indices of the set bits, in ascending order;
/// each is widened to an identifier.
#[verifier::external_body]
fn dense_iter_ones(b: &DenseBitmap) -> (ids: Vec<u64>)
    ensures
        ascending(ids@),
        forall|id: u64| ids@.contains(id) <==> ones(dense_bits(*b)).contains(id),
{
    b.bits.iter_ones().map(|x| x as u64).collect()
}

/// `BitOrAssign` of a bit vector: each bit becomes the disjunction with the
/// bit of `rhs` at its index, a missing bit of `rhs` counting as clear; the
/// length stays.
#[verifier::external_body]
fn dense_or_assign(
    b: &mut DenseBitmap,
    rhs: &DenseBitmap,
)
    ensures
        dense_bits(*final(b)).len() == dense_bits(*old(b)).len(),
        forall|i: int|
            0 <= i < dense_bits(*old(b)).len() ==> #[trigger] dense_bits(*final(b))[i] == (
            dense_bits(*old(b))[i] || (i < dense_bits(*rhs).len() && dense_bits(*rhs)[i])),
{
    b.bits.bitor_assign(&rhs.bits)
}

/// `BitXorAssign` of a bit vector: each bit becomes the exclusive disjunction
/// with the bit of `rhs` at its index, a missing bit of `rhs` counting as
/// clear; the length stays.
#[verifier::external_body]
fn dense_xor_assign(
    b: &mut DenseBitmap,
    rhs: &DenseBitmap,
)
    ensures
        dense_bits(*final(b)).len() == dense_bits(*old(b)).len(),
        forall|i: int|
            0 <= i < dense_bits(*old(b)).len() ==> #[trigger] dense_bits(*final(b))[i] == (
            dense_bits(*old(b))[i] != (i < dense_bits(*rhs).len() && dense_bits(*rhs)[i])),
{
    b.bits.bitxor_assign(&rhs.bits)
}

/// The number of machine words that `len` bits take, counted from the first
/// bit of the first word.
pub open spec fn words_for(len: nat) -> nat {
    len / (usize::BITS as nat) + if len % (usize::BITS as nat) != 0 {
        1nat
    } else {
        0nat
    }
}

/// The bytes of the machine words that `len` bits take.
pub open spec fn word_bytes(len: nat) -> nat {
    words_for(len) * (usize::BITS as nat / 8)
}

/// `BitVec::as_raw_slice` and `std::mem::size_of_val`: the bytes of the words
/// that hold live bits. The bits of a vector that began empty start at the
/// first bit of its first word, and no operation used here moves that start,
/// so the words are those that the length needs.
#[verifier::external_body]
fn dense_raw_bytes(b: &DenseBitmap) -> (n: usize)
    ensures
        n == word_bytes(dense_bits(*b).len()),
{
    std::mem::size_of_val(b.bits.as_raw_slice())
}

impl DenseBitmap {
    /// The number of bits held: one more than the largest identifier that the
    /// bitmap was ever grown for.
    pub fn bit_len(&self) -> (n: usize)
        ensures
            n == dense_bits(*self).len(),
    {
        dense_len(self)
    }
}

impl Clone for DenseBitmap {
    /// `BitVec::clone`: a bit vector with the same bits.
    #[verifier::external_body]
    fn clone(&self) -> (c: Self)
        ensures
            dense_bits(c) == dense_bits(*self),
    {
        DenseBitmap { bits: self.bits.clone() }
    }
}

impl Default for DenseBitmap {
    /// The empty set.
    fn default() -> (b: Self)
        ensures
            dense_bits(b) == Seq::<bool>::empty(),
    {
        dense_new()
    }
}

impl Bitmap for DenseBitmap {
    open spec fn elems(&self) -> Set<u64> {
        ones(dense_bits(*self))
    }

    /// An identifier needs a bit of its own, so it must be below the most
    /// bits that a bit vector can hold.
    open spec fn admits(id: u64) -> bool {
        id < max_bits()
    }

    proof fn lemma_finite(&self) {
        lemma_ids_below_finite(dense_bits(*self).len());
        vstd::set_lib::lemma_len_subset(
            ones(dense_bits(*self)),
            ids_below(dense_bits(*self).len()),
        );
    }

    proof fn lemma_clone(&self, copy: &Self) {
    }

    /// A bitmap that holds no bits.
    fn new() -> (b: Self)
        ensures
            dense_bits(b) == Seq::<bool>::empty(),
            dense_bits(b).len() == 0,
            b.footprint() == 0,
    {
        let b = dense_new();
        assert(ones(dense_bits(b)) =~= Set::<u64>::empty());
        proof {
            lemma_word_bytes_monotonic(0, 0);
        }
        b
    }

    fn count(&self) -> (n: usize) {
        dense_count_ones(self)
    }

    /// Grows the vector to `id + 1` bits where it is shorter, then sets bit
    /// `id`. It never shrinks.
    fn add(&mut self, id: u64)
        ensures
            dense_bits(*final(self)) == with_bit(dense_bits(*old(self)), id as nat),
            dense_bits(*final(self)).len() == larger(dense_bits(*old(self)).len(), (id + 1) as nat),
            forall|i: int|
                0 <= i < dense_bits(*final(self)).len() && i != id ==> #[trigger] dense_bits(
                    *final(self),
                )[i] == bit_at(dense_bits(*old(self)), i),
            dense_bits(*final(self))[id as int],
            old(self).elems().contains(id) ==> dense_bits(*final(self)) == dense_bits(*old(self)),
            final(self).footprint() >= old(self).footprint(),
    {
        let index: usize = id as usize;
        if dense_len(self) <= index {
            dense_resize(self, index + 1);
        }
        let ghost grown = dense_bits(*self);
        dense_set(self, index, true);
        proof {
            let before = dense_bits(*old(self));
            assert(dense_bits(*self) =~= with_bit(before, id as nat));
            if old(self).elems().contains(id) {
                assert(dense_bits(*self) =~= before);
            }
            lemma_word_bytes_monotonic(before.len(), dense_bits(*self).len());
        }
        assert(ones(dense_bits(*self)) =~= ones(dense_bits(*old(self))).insert(id)) by {
            assert forall|x: u64|
                ones(dense_bits(*self)).contains(x) == ones(dense_bits(*old(self))).insert(
                    id,
                ).contains(x) by {
                if x < grown.len() {
                    assert(grown[x as int] == (x < dense_bits(*old(self)).len() && dense_bits(
                        *old(self),
                    )[x as int]));
                }
            }
        }
    }

    fn iter_elems(&self) -> (ids: Vec<u64>) {
        dense_iter_ones(self)
    }

    /// Clears every bit that is set in `rhs`, whatever the two lengths.
    fn and_not(&mut self, rhs: &Self)
        ensures
            dense_bits(*final(self)) == bits_and_not(dense_bits(*old(self)), dense_bits(*rhs)),
            dense_bits(*final(self)).len() == dense_bits(*old(self)).len(),
            all_clear(dense_bits(*rhs)) ==> dense_bits(*final(self)) == dense_bits(*old(self)),
            final(self).footprint() == old(self).footprint(),
    {
        let n: usize = if dense_len(self) < dense_len(rhs) {
            dense_len(self)
        } else {
            dense_len(rhs)
        };
        let mut i: usize = 0;
        while i < n
            invariant
                i <= n,
                n <= dense_bits(*rhs).len(),
                n <= dense_bits(*old(self)).len(),
                dense_bits(*self).len() == dense_bits(*old(self)).len(),
                forall|j: int|
                    0 <= j < i ==> #[trigger] dense_bits(*self)[j] == (dense_bits(
                        *old(self),
                    )[j] && !dense_bits(*rhs)[j]),
                forall|j: int|
                    i <= j < dense_bits(*self).len() ==> #[trigger] dense_bits(*self)[j]
                        == dense_bits(*old(self))[j],
            decreases n - i,
        {
            if dense_get(rhs, i) {
                dense_set(self, i, false);
            }
            i = i + 1;
        }
        assert(ones(dense_bits(*self)) =~= ones(dense_bits(*old(self))).difference(
            ones(dense_bits(*rhs)),
        ));
        proof {
            let before = dense_bits(*old(self));
            assert(dense_bits(*self) =~= bits_and_not(before, dense_bits(*rhs)));
            if all_clear(dense_bits(*rhs)) {
                assert(dense_bits(*self) =~= before);
            }
        }
    }

    /// Grows the vector to the length of `rhs` where it is shorter, then sets
    /// every bit that is set in `rhs`.
    fn or(&mut self, rhs: &Self)
        ensures
            dense_bits(*final(self)) == bits_or(dense_bits(*old(self)), dense_bits(*rhs)),
            dense_bits(*final(self)).len() == larger(
                dense_bits(*old(self)).len(),
                dense_bits(*rhs).len(),
            ),
            covered(dense_bits(*old(self)), dense_bits(*rhs)) ==> dense_bits(*final(self))
                == dense_bits(*old(self)),
            final(self).footprint() >= old(self).footprint(),
    {
        if dense_len(self) < dense_len(rhs) {
            dense_resize(self, dense_len(rhs));
        }
        let ghost grown = dense_bits(*self);
        dense_or_assign(self, rhs);
        proof {
            let before = dense_bits(*old(self));
            assert(dense_bits(*self) =~= bits_or(before, dense_bits(*rhs))) by {
                assert forall|i: int| 0 <= i < dense_bits(*self).len() implies dense_bits(
                    *self,
                )[i] == bits_or(before, dense_bits(*rhs))[i] by {
                    assert(grown[i] == bit_at(before, i));
                }
            }
            if covered(before, dense_bits(*rhs)) {
                assert(dense_bits(*self) =~= before);
            }
            lemma_word_bytes_monotonic(before.len(), dense_bits(*self).len());
        }
        assert(ones(dense_bits(*self)) =~= ones(dense_bits(*old(self))).union(
            ones(dense_bits(*rhs)),
        )) by {
            assert forall|x: u64|
                ones(dense_bits(*self)).contains(x) == ones(dense_bits(*old(self))).union(
                    ones(dense_bits(*rhs)),
                ).contains(x) by {
                if x < grown.len() {
                    assert(grown[x as int] == (x < dense_bits(*old(self)).len() && dense_bits(
                        *old(self),
                    )[x as int]));
                    assert(dense_bits(*self)[x as int] == (grown[x as int] || (x < dense_bits(
                        *rhs,
                    ).len() && dense_bits(*rhs)[x as int])));
                }
            }
        }
    }

    /// Grows the vector to the length of `rhs` where it is shorter, then flips
    /// every bit that is set in `rhs`.
    fn xor(&mut self, rhs: &Self)
        ensures
            dense_bits(*final(self)) == bits_xor(dense_bits(*old(self)), dense_bits(*rhs)),
            dense_bits(*final(self)).len() == larger(
                dense_bits(*old(self)).len(),
                dense_bits(*rhs).len(),
            ),
            dense_bits(*rhs).len() <= dense_bits(*old(self)).len() && all_clear(dense_bits(*rhs))
                ==> dense_bits(*final(self)) == dense_bits(*old(self)),
            final(self).footprint() >= old(self).footprint(),
    {
        if dense_len(self) < dense_len(rhs) {
            dense_resize(self, dense_len(rhs));
        }
        let ghost grown = dense_bits(*self);
        dense_xor_assign(self, rhs);
        proof {
            let before = dense_bits(*old(self));
            assert(dense_bits(*self) =~= bits_xor(before, dense_bits(*rhs))) by {
                assert forall|i: int| 0 <= i < dense_bits(*self).len() implies dense_bits(
                    *self,
                )[i] == bits_xor(before, dense_bits(*rhs))[i] by {
                    assert(grown[i] == bit_at(before, i));
                }
            }
            if dense_bits(*rhs).len() <= before.len() && all_clear(dense_bits(*rhs)) {
                assert(dense_bits(*self) =~= before);
            }
            lemma_word_bytes_monotonic(before.len(), dense_bits(*self).len());
        }
        assert(ones(dense_bits(*self)) =~= symmetric_difference(
            ones(dense_bits(*old(self))),
            ones(dense_bits(*rhs)),
        )) by {
            assert forall|x: u64|
                ones(dense_bits(*self)).contains(x) == symmetric_difference(
                    ones(dense_bits(*old(self))),
                    ones(dense_bits(*rhs)),
                ).contains(x) by {
                if x < grown.len() {
                    assert(grown[x as int] == (x < dense_bits(*old(self)).len() && dense_bits(
                        *old(self),
                    )[x as int]));
                    assert(dense_bits(*self)[x as int] == (grown[x as int] != (x < dense_bits(
                        *rhs,
                    ).len() && dense_bits(*rhs)[x as int])));
                }
            }
        }
    }

    /// The bytes of the words that hold the bits.
    open spec fn footprint(&self) -> nat {
        word_bytes(dense_bits(*self).len())
    }

    fn estimate_size(&self) -> (n: usize) {
        dense_raw_bytes(self)
    }
}

} // verus!
