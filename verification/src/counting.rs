//! Saturating counters, one for each identifier, kept as bit planes: plane
//! `p` holds the identifiers whose counter has bit `p` set.

use crate::bitmap::Bitmap;
use crate::ranking::{best_of, is_top, lemma_best_of_step, outranks, scored};
use crate::result::{precedes, Hit, ResultSet};
use vstd::arithmetic::power2::{
    lemma2_to64, lemma2_to64_rest, lemma_pow2_pos, lemma_pow2_strictly_increases,
    lemma_pow2_unfold, pow2,
};
use vstd::prelude::*;

verus! {

/// The number that the first `p` planes spell for `id`: the sum of the weights
/// of the planes that hold it.
pub open spec fn decode<B: Bitmap>(planes: Seq<B>, id: u64, p: nat) -> nat
    decreases p,
{
    if p == 0 {
        0
    } else {
        decode(planes, id, (p - 1) as nat) + if planes[p - 1].elems().contains(id) {
            pow2((p - 1) as nat)
        } else {
            0
        }
    }
}

/// The smaller of two numbers.
pub open spec fn least(a: nat, b: nat) -> nat {
    if a <= b {
        a
    } else {
        b
    }
}

/// How often `x` occurs in `ids`.
pub open spec fn occurrences(ids: Seq<u64>, x: u64) -> nat
    decreases ids.len(),
{
    if ids.len() == 0 {
        0
    } else {
        occurrences(ids.drop_last(), x) + if ids.last() == x {
            1nat
        } else {
            0nat
        }
    }
}

/// The most planes that a counting bitmap can have, so that a counter fits in
/// 64 bits.
pub const MAX_PLANES: usize = 63;

/// `p` planes spell a number below two to the `p`.
pub proof fn lemma_decode_bound<B: Bitmap>(planes: Seq<B>, id: u64, p: nat)
    ensures
        decode(planes, id, p) < pow2(p),
    decreases p,
{
    if p > 0 {
        lemma_decode_bound(planes, id, (p - 1) as nat);
        lemma_pow2_unfold(p);
    } else {
        lemma2_to64();
    }
}

/// Planes that agree on `id` spell the same number for it.
pub proof fn lemma_decode_same<B: Bitmap>(a: Seq<B>, b: Seq<B>, id: u64, p: nat)
    requires
        forall|j: int| 0 <= j < p ==> a[j].elems().contains(id) == b[j].elems().contains(id),
    ensures
        decode(a, id, p) == decode(b, id, p),
    decreases p,
{
    if p > 0 {
        lemma_decode_same(a, b, id, (p - 1) as nat);
    }
}

/// Planes that all hold `id` spell the largest number.
pub proof fn lemma_decode_full<B: Bitmap>(planes: Seq<B>, id: u64, p: nat)
    requires
        forall|j: int| 0 <= j < p ==> planes[j].elems().contains(id),
    ensures
        decode(planes, id, p) == pow2(p) - 1,
    decreases p,
{
    if p > 0 {
        lemma_decode_full(planes, id, (p - 1) as nat);
        lemma_pow2_unfold(p);
    } else {
        lemma2_to64();
    }
}

/// Planes that all lack `id` spell zero.
pub proof fn lemma_decode_clear<B: Bitmap>(planes: Seq<B>, id: u64, p: nat)
    requires
        forall|j: int| 0 <= j < p ==> !planes[j].elems().contains(id),
    ensures
        decode(planes, id, p) == 0,
    decreases p,
{
    if p > 0 {
        lemma_decode_clear(planes, id, (p - 1) as nat);
    }
}

/// A plane that holds `id` makes its number positive.
pub proof fn lemma_decode_positive<B: Bitmap>(planes: Seq<B>, id: u64, j: int, p: nat)
    requires
        0 <= j < p,
        planes[j].elems().contains(id),
    ensures
        decode(planes, id, p) > 0,
    decreases p,
{
    if j == p - 1 {
        lemma_pow2_pos(j as nat);
    } else {
        lemma_decode_positive(planes, id, j, (p - 1) as nat);
    }
}

/// Carrying through the planes adds one: where `id` leaves the planes below
/// `c`, enters plane `c` and stays as it was above, the number grows by one.
pub proof fn lemma_decode_carry<B: Bitmap>(a: Seq<B>, b: Seq<B>, id: u64, c: nat, p: nat)
    requires
        c < p,
        forall|j: int| 0 <= j < c ==> a[j].elems().contains(id) && !b[j].elems().contains(id),
        !a[c as int].elems().contains(id),
        b[c as int].elems().contains(id),
        forall|j: int| c < j < p ==> a[j].elems().contains(id) == b[j].elems().contains(id),
    ensures
        decode(b, id, p) == decode(a, id, p) + 1,
    decreases p,
{
    if p == c + 1 {
        lemma_decode_full(a, id, c);
        lemma_decode_clear(b, id, c);
    } else {
        lemma_decode_carry(a, b, id, c, (p - 1) as nat);
    }
}

/// Whether `plane` holds `id`.
pub fn holds<B: Bitmap>(plane: &B, id: u64) -> (r: bool)
    requires
        B::admits(id),
    ensures
        r == plane.elems().contains(id),
{
    let mut probe = B::new();
    probe.add(id);
    probe.and_not(plane);
    proof {
        if plane.elems().contains(id) {
            assert(probe.elems() =~= Set::<u64>::empty());
        } else {
            assert(probe.elems() =~= Set::<u64>::empty().insert(id));
        }
    }
    probe.count() == 0
}

/// A counter for each identifier, from zero up to `limit()`, where it stays.
pub struct CountingBitmap<B: Bitmap> {
    planes: Vec<B>,
}

impl<B: Bitmap> CountingBitmap<B> {
    /// The identifiers in each plane, lowest bit first.
    pub closed spec fn planes(&self) -> Seq<B> {
        self.planes@
    }

    /// The number of planes.
    pub open spec fn width(&self) -> nat {
        self.planes().len()
    }

    /// The counter of `id`.
    pub open spec fn counter(&self, id: u64) -> nat {
        decode(self.planes(), id, self.width())
    }

    /// The value at which a counter stays.
    pub open spec fn limit(&self) -> nat {
        (pow2(self.width()) - 1) as nat
    }

    /// There are no more planes than a 64-bit counter allows, and the planes
    /// hold only identifiers that the representation can hold.
    pub open spec fn wf(&self) -> bool {
        &&& self.width() <= MAX_PLANES
        &&& forall|j: int, id: u64|
            0 <= j < self.width() && #[trigger] self.planes()[j].elems().contains(id)
                ==> B::admits(id)
    }

    /// The counters as the keys by which identifiers are ranked.
    pub open spec fn keys(&self) -> spec_fn(u64) -> i64 {
        |id: u64| self.counter(id) as i64
    }

    /// The counters, as a count for each identifier.
    pub open spec fn counters(&self) -> spec_fn(u64) -> nat {
        |id: u64| self.counter(id)
    }

    /// Counters of `width` bits, all zero.
    pub fn new(width: usize) -> (c: Self)
        requires
            width <= MAX_PLANES,
        ensures
            c.wf(),
            c.width() == width,
            forall|id: u64| c.counter(id) == 0,
    {
        let mut planes: Vec<B> = Vec::new();
        let mut p: usize = 0;
        while p < width
            invariant
                p <= width,
                planes@.len() == p,
                forall|j: int| 0 <= j < p ==> planes@[j].elems() == Set::<u64>::empty(),
            decreases width - p,
        {
            planes.push(B::new());
            p = p + 1;
        }
        let c = CountingBitmap { planes };
        proof {
            assert forall|j: int, id: u64|
                0 <= j < c.width() && #[trigger] c.planes()[j].elems().contains(
                    id,
                ) implies B::admits(id) by {
                assert(c.planes()[j].elems() == Set::<u64>::empty());
            }
            assert forall|id: u64| c.counter(id) == 0 by {
                lemma_decode_clear(c.planes(), id, c.width());
            }
        }
        c
    }

    /// Adds one to the counter of `id`, unless it is at the limit. No other
    /// counter changes.
    pub fn increment(&mut self, id: u64)
        requires
            old(self).wf(),
            B::admits(id),
        ensures
            final(self).wf(),
            final(self).width() == old(self).width(),
            final(self).counter(id) == if old(self).counter(id) < old(self).limit() {
                old(self).counter(id) + 1
            } else {
                old(self).limit()
            },
            forall|x: u64| x != id ==> final(self).counter(x) == old(self).counter(x),
    {
        let n: usize = self.planes.len();
        let mut c: usize = 0;
        while c < n && holds(&self.planes[c], id)
            invariant
                c <= n,
                n == self.planes@.len(),
                B::admits(id),
                forall|j: int| 0 <= j < c ==> self.planes@[j].elems().contains(id),
            decreases n - c,
        {
            c = c + 1;
        }
        if c == n {
            proof {
                lemma_decode_full(self.planes@, id, n as nat);
            }
            return ;
        }
        let mut carry = B::new();
        carry.add(id);
        let mut p: usize = 0;
        while p <= c
            invariant
                p <= c + 1,
                c < n,
                n == self.planes@.len(),
                n == old(self).planes@.len(),
                carry.elems() == Set::<u64>::empty().insert(id),
                forall|j: int|
                    0 <= j < p ==> #[trigger] self.planes@[j].elems()
                        == crate::bitmap::symmetric_difference(
                        old(self).planes@[j].elems(),
                        carry.elems(),
                    ),
                forall|j: int|
                    p <= j < n ==> #[trigger] self.planes@[j].elems() == old(
                        self,
                    ).planes@[j].elems(),
            decreases c + 1 - p,
        {
            self.planes[p].xor(&carry);
            p = p + 1;
        }
        proof {
            let a = old(self).planes@;
            let b = self.planes@;
            lemma_decode_carry(a, b, id, c as nat, n as nat);
            assert forall|j: int, x: u64|
                0 <= j < self.width() && #[trigger] self.planes()[j].elems().contains(
                    x,
                ) implies B::admits(x) by {
                if x != id {
                    assert(old(self).planes()[j].elems().contains(x));
                }
            }
            lemma_decode_bound(b, id, n as nat);
            assert forall|x: u64| x != id implies self.counter(x) == old(self).counter(x) by {
                lemma_decode_same(a, b, x, n as nat);
            }
        }
    }

    /// Adds one to the counter of each identifier of `ids`, once for each time
    /// it occurs: afterwards every counter is what it was plus the number of
    /// occurrences, or the limit where that is less.
    pub fn increment_all(&mut self, ids: &Vec<u64>)
        requires
            old(self).wf(),
            forall|i: int| 0 <= i < ids@.len() ==> B::admits(#[trigger] ids@[i]),
        ensures
            final(self).wf(),
            final(self).width() == old(self).width(),
            forall|x: u64| #[trigger]
                final(self).counter(x) == least(
                    old(self).counter(x) + occurrences(ids@, x),
                    old(self).limit(),
                ),
    {
        let mut i: usize = 0;
        proof {
            assert(ids@.take(0) =~= Seq::<u64>::empty());
            assert forall|x: u64| #[trigger]
                self.counter(x) == least(self.counter(x) + occurrences(ids@.take(0), x), self.limit()) by {
                lemma_decode_bound(self.planes(), x, self.width());
            }
        }
        while i < ids.len()
            invariant
                i <= ids@.len(),
                self.wf(),
                self.width() == old(self).width(),
                forall|j: int| 0 <= j < ids@.len() ==> B::admits(#[trigger] ids@[j]),
                forall|x: u64| #[trigger]
                    self.counter(x) == least(
                        old(self).counter(x) + occurrences(ids@.take(i as int), x),
                        old(self).limit(),
                    ),
            decreases ids@.len() - i,
        {
            proof {
                let next = ids@.take(i + 1);
                assert(next.drop_last() =~= ids@.take(i as int));
                assert(next.last() == ids@[i as int]);
            }
            self.increment(ids[i]);
            i = i + 1;
        }
        proof {
            assert(ids@.take(ids@.len() as int) =~= ids@);
        }
    }

    /// The counter of `id`.
    pub fn count_of(&self, id: u64) -> (n: u64)
        requires
            B::admits(id),
            self.width() <= MAX_PLANES,
        ensures
            n == self.counter(id),
            n <= i64::MAX,
    {
        let mut total: u64 = 0;
        let mut weight: u64 = 1;
        let mut p: usize = 0;
        proof {
            lemma2_to64();
        }
        while p < self.planes.len()
            invariant
                p <= self.planes@.len(),
                self.planes@.len() <= MAX_PLANES,
                B::admits(id),
                weight == pow2(p as nat),
                total == decode(self.planes@, id, p as nat),
            decreases self.planes@.len() - p,
        {
            proof {
                lemma_decode_bound(self.planes@, id, p as nat);
                lemma2_to64_rest();
                if p < 62 {
                    lemma_pow2_strictly_increases(p as nat, 62);
                }
                lemma_pow2_unfold((p + 1) as nat);
            }
            if holds(&self.planes[p], id) {
                total = total + weight;
            }
            weight = weight * 2;
            p = p + 1;
        }
        proof {
            lemma_decode_bound(self.planes@, id, p as nat);
            lemma2_to64_rest();
            if p < 63 {
                lemma_pow2_strictly_increases(p as nat, 63);
            }
        }
        total
    }

    /// The `n` identifiers with the highest counters above zero, highest
    /// first, the smaller identifier first among equal counters. Where fewer
    /// than `n` identifiers have a counter above zero, all of them.
    pub fn top_n(&self, n: usize) -> (top: Vec<u64>)
        requires
            self.wf(),
        ensures
            is_top(top@, n as nat, self.counters()),
    {
        let mut all = B::new();
        let mut p: usize = 0;
        while p < self.planes.len()
            invariant
                p <= self.planes@.len(),
                forall|id: u64|
                    all.elems().contains(id) <==> exists|j: int|
                        0 <= j < p && #[trigger] self.planes@[j].elems().contains(id),
            decreases self.planes@.len() - p,
        {
            let ghost before = all.elems();
            all.or(&self.planes[p]);
            proof {
                assert forall|id: u64|
                    all.elems().contains(id) <==> exists|j: int|
                        0 <= j < p + 1 && #[trigger] self.planes@[j].elems().contains(id) by {
                    if before.contains(id) {
                        let j = choose|j: int|
                            0 <= j < p && #[trigger] self.planes@[j].elems().contains(id);
                        assert(self.planes@[j].elems().contains(id));
                    }
                    if self.planes@[p as int].elems().contains(id) {
                    }
                    if exists|j: int|
                        0 <= j < p + 1 && #[trigger] self.planes@[j].elems().contains(id) {
                        let j = choose|j: int|
                            0 <= j < p + 1 && #[trigger] self.planes@[j].elems().contains(id);
                        if j < p {
                            assert(before.contains(id));
                        }
                    }
                }
            }
            p = p + 1;
        }
        let ids = all.iter_elems();
        let ghost f = self.keys();
        let mut best = ResultSet::new(n);
        let mut i: usize = 0;
        proof {
            assert(ids@.take(0) =~= Seq::<u64>::empty());
        }
        while i < ids.len()
            invariant
                i <= ids@.len(),
                self.wf(),
                best.wf(),
                best.capacity() == n,
                f == self.keys(),
                best_of(best@, ids@.take(i as int), n as nat, f),
                crate::bitmap::ascending(ids@),
                forall|id: u64| ids@.contains(id) <==> all.elems().contains(id),
                forall|id: u64|
                    all.elems().contains(id) <==> exists|j: int|
                        0 <= j < self.planes@.len() && #[trigger] self.planes@[j].elems().contains(
                            id,
                        ),
            decreases ids@.len() - i,
        {
            let id = ids[i];
            proof {
                assert(ids@.contains(id));
                let j = choose|j: int|
                    0 <= j < self.planes@.len() && #[trigger] self.planes@[j].elems().contains(id);
                assert(self.planes()[j].elems().contains(id));
            }
            let c = self.count_of(id);
            proof {
                let seen = ids@.take(i as int);
                assert forall|j: int| 0 <= j < seen.len() implies seen[j] < id by {
                    assert(seen[j] == ids@[j]);
                }
                lemma_best_of_step(best@, seen, n as nat, f, id);
                assert(ids@.take(i + 1) =~= seen.push(id));
                assert(f(id) == self.counter(id) as i64);
                assert(scored(f, id) == Hit { id, score: c as i64 });
            }
            best.add_result(id, Some(c as i64));
            i = i + 1;
        }
        let hits = best.into_vec();
        let mut top: Vec<u64> = Vec::new();
        let mut m: usize = 0;
        while m < hits.len()
            invariant
                m <= hits@.len(),
                top@.len() == m,
                forall|a: int| 0 <= a < m ==> #[trigger] top@[a] == hits@[a].id,
            decreases hits@.len() - m,
        {
            top.push(hits[m].id);
            m = m + 1;
        }
        proof {
            let s = hits@;
            assert(ids@.take(ids@.len() as int) =~= ids@);
            assert(best_of(s, ids@, n as nat, f));
            assert forall|a: int| 0 <= a < top@.len() implies self.counter(#[trigger] top@[a])
                > 0 by {
                assert(ids@.contains(s[a].id));
                let j = choose|j: int|
                    0 <= j < self.planes@.len() && #[trigger] self.planes@[j].elems().contains(
                        s[a].id,
                    );
                lemma_decode_positive(self.planes@, s[a].id, j, self.width());
            }
            let g = self.counters();
            assert forall|a: int, b: int| 0 <= a < b < top@.len() implies outranks(
                g,
                #[trigger] top@[a],
                #[trigger] top@[b],
            ) by {
                self.lemma_counter_fits(s[a].id);
                self.lemma_counter_fits(s[b].id);
                assert(!precedes(s[b], s[a]));
                assert(s[a].id != s[b].id);
            }
            assert forall|x: u64| self.counter(x) > 0 && !top@.contains(x) implies top@.len()
                == n && forall|a: int|
                0 <= a < top@.len() ==> #[trigger] outranks(g, top@[a], x) by {
                if !all.elems().contains(x) {
                    lemma_decode_clear(self.planes@, x, self.width());
                }
                assert(ids@.contains(x));
                let j = choose|j: int| 0 <= j < ids@.len() && ids@[j] == x;
                if s.contains(scored(f, ids@[j])) {
                    let a = choose|a: int| 0 <= a < s.len() && s[a] == scored(f, x);
                    assert(top@[a] == x);
                }
                assert forall|a: int| 0 <= a < top@.len() implies #[trigger] outranks(
                    g,
                    top@[a],
                    x,
                ) by {
                    self.lemma_counter_fits(s[a].id);
                    self.lemma_counter_fits(x);
                    assert(!precedes(scored(f, ids@[j]), s[a]));
                    assert(top@[a] != x);
                }
            }
        }
        top
    }

    /// A counter fits in a signed 64-bit number.
    pub proof fn lemma_counter_fits(&self, id: u64)
        requires
            self.width() <= MAX_PLANES,
        ensures
            self.counter(id) <= i64::MAX,
    {
        lemma_decode_bound(self.planes(), id, self.width());
        lemma2_to64_rest();
        if self.width() < 63 {
            lemma_pow2_strictly_increases(self.width(), 63);
        }
    }
}

} // verus!
