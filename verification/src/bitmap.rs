//! The set-of-identifiers abstraction that every other part works on.

use vstd::prelude::*;

verus! {

/// The identifier of a vector.
pub type ID = u64;

/// The identifiers that are in exactly one of `a` and `b`.
pub open spec fn symmetric_difference(a: Set<u64>, b: Set<u64>) -> Set<u64> {
    a.difference(b).union(b.difference(a))
}

/// `n`, or the largest `usize` where `n` is beyond it.
pub open spec fn clip(n: nat) -> nat {
    if n <= usize::MAX {
        n
    } else {
        usize::MAX as nat
    }
}

/// The identifiers below `n`.
pub open spec fn ids_below(n: nat) -> Set<u64> {
    Set::new(|id: u64| id < n)
}

/// There are finitely many identifiers below `n`.
pub proof fn lemma_ids_below_finite(n: nat)
    ensures
        ids_below(n).finite(),
    decreases n,
{
    if n == 0 {
        assert(ids_below(0) =~= Set::<u64>::empty());
    } else {
        lemma_ids_below_finite((n - 1) as nat);
        if n - 1 <= u64::MAX {
            assert(ids_below(n) =~= ids_below((n - 1) as nat).insert((n - 1) as u64));
        } else {
            assert(ids_below(n) =~= ids_below((n - 1) as nat));
        }
    }
}

/// `ids` in strictly ascending order.
pub open spec fn ascending(ids: Seq<u64>) -> bool {
    forall|i: int, j: int| 0 <= i < j < ids.len() ==> ids[i] < ids[j]
}

/// A finite set of identifiers. Every representation offers the same
/// operations with the same meaning, so its users need not know which one they
/// hold.
pub trait Bitmap: Sized + Clone + Default + core::fmt::Debug + Send {
    /// The identifiers in the set.
    spec fn elems(&self) -> Set<u64>;

    /// Whether the representation can hold `id`.
    spec fn admits(id: u64) -> bool;

    /// The set is finite.
    proof fn lemma_finite(&self)
        ensures
            self.elems().finite(),
    ;

    /// A clone holds the same identifiers and takes the same bytes.
    proof fn lemma_clone(&self, copy: &Self)
        requires
            vstd::pervasive::cloned(*self, *copy),
        ensures
            copy.elems() == self.elems(),
            copy.footprint() == self.footprint(),
    ;

    /// The empty set.
    fn new() -> (b: Self)
        ensures
            b.elems() == Set::<u64>::empty(),
    ;

    /// The number of identifiers in the set, as far as `usize` can say it.
    fn count(&self) -> (n: usize)
        ensures
            n == clip(self.elems().len()),
    ;

    /// Puts `id` into the set.
    fn add(&mut self, id: u64)
        requires
            Self::admits(id),
        ensures
            final(self).elems() == old(self).elems().insert(id),
    ;

    /// The identifiers of the set, each once, in ascending order.
    fn iter_elems(&self) -> (ids: Vec<u64>)
        ensures
            ascending(ids@),
            forall|id: u64| ids@.contains(id) <==> self.elems().contains(id),
    ;

    /// Takes every identifier of `rhs` out of the set.
    fn and_not(&mut self, rhs: &Self)
        ensures
            final(self).elems() == old(self).elems().difference(rhs.elems()),
    ;

    /// Puts every identifier of `rhs` into the set.
    fn or(&mut self, rhs: &Self)
        ensures
            final(self).elems() == old(self).elems().union(rhs.elems()),
    ;

    /// Keeps the identifiers that are in exactly one of the set and `rhs`.
    fn xor(&mut self, rhs: &Self)
        ensures
            final(self).elems() == symmetric_difference(old(self).elems(), rhs.elems()),
    ;

    /// The bytes that the set takes in this representation: the measure by
    /// which a representation is chosen and a buffer is sized.
    spec fn footprint(&self) -> nat;

    /// About how many bytes the set takes when stored.
    fn estimate_size(&self) -> (n: usize)
        ensures
            n == self.footprint(),
    ;
}

} // verus!
