//! The index: for each basis a table from hash code to the identifiers of
//! the vectors with that code.

use crate::bitmap::Bitmap;
use crate::counting::{least, CountingBitmap, MAX_PLANES};
use crate::error::SearchError;
use crate::ranking::{is_top, lemma_top_same_counts, lemma_top_unique};
use std::collections::HashMap;
use vstd::arithmetic::power2::pow2;
use vstd::prelude::*;

verus! {

/// The identifiers that `table` holds under `code`; none where the code was
/// never used.
pub open spec fn bucket_of<B: Bitmap>(table: Map<u64, B>, code: u64) -> Set<u64> {
    if table.contains_key(code) {
        table[code].elems()
    } else {
        Set::empty()
    }
}

/// One vector as the index sees it: its identifier, its length, and its hash
/// code under each basis.
pub struct Entry {
    pub id: u64,
    pub len: usize,
    pub codes: Vec<u64>,
}

/// The identifiers among the first `n` rows whose code under `basis` is
/// `code`.
pub open spec fn indexed(rows: Seq<Entry>, basis: int, code: u64, n: nat) -> Set<u64>
    decreases n,
{
    if n == 0 {
        Set::empty()
    } else if rows[n - 1].codes@[basis] == code {
        indexed(rows, basis, code, (n - 1) as nat).insert(rows[n - 1].id)
    } else {
        indexed(rows, basis, code, (n - 1) as nat)
    }
}

/// How many candidates are scored exactly for a query that asks for `k`
/// results with `overscan`-fold overscan: `overscan * k`, or the largest
/// `usize` where the product is beyond it.
pub fn overscan_budget(k: usize, overscan: usize) -> (n: usize)
    requires
        overscan >= 1,
    ensures
        n == least((overscan * k) as nat, usize::MAX as nat),
{
    match overscan.checked_mul(k) {
        Some(n) => n,
        None => usize::MAX,
    }
}

/// The buckets of an index over `bases()` bases, for vectors of `dims()`
/// numbers.
pub struct VectorStore<B: Bitmap> {
    dims: usize,
    tables: Vec<HashMap<u64, B>>,
}

impl<B: Bitmap> VectorStore<B> {
    /// The length of the vectors that the store is for.
    pub closed spec fn dims(&self) -> nat {
        self.dims as nat
    }

    /// The number of bases.
    pub closed spec fn bases(&self) -> nat {
        self.tables@.len()
    }

    /// The identifiers of the vectors whose code under `basis` is `code`.
    pub closed spec fn bucket(&self, basis: int, code: u64) -> Set<u64> {
        bucket_of(self.tables@[basis]@, code)
    }

    /// The buckets hold only identifiers that the representation can hold.
    pub open spec fn wf(&self) -> bool {
        forall|basis: int, code: u64, id: u64|
            0 <= basis < self.bases() && #[trigger] self.bucket(basis, code).contains(id)
                ==> B::admits(id)
    }

    /// In how many of the first `b` bases `id` is in the bucket of the query's
    /// code.
    pub open spec fn hits(&self, codes: Seq<u64>, id: u64, b: nat) -> nat
        decreases b,
    {
        if b == 0 {
            0
        } else {
            self.hits(codes, id, (b - 1) as nat) + if self.bucket(b - 1, codes[b - 1]).contains(
                id,
            ) {
                1nat
            } else {
                0nat
            }
        }
    }

    /// The count by which candidates are ranked: the number of bases in which
    /// `id` shares the query's code, as far as `width` bits can count.
    pub open spec fn tally(&self, codes: Seq<u64>, width: nat, id: u64) -> nat {
        least(self.hits(codes, id, self.bases()), (pow2(width) - 1) as nat)
    }

    /// The tallies of all identifiers.
    pub open spec fn tallies(&self, codes: Seq<u64>, width: nat) -> spec_fn(u64) -> nat {
        |id: u64| self.tally(codes, width, id)
    }

    /// An index without entries.
    pub fn new(dims: usize, bases: usize) -> (s: Self)
        ensures
            s.wf(),
            s.dims() == dims,
            s.bases() == bases,
            forall|basis: int, code: u64|
                0 <= basis < bases ==> #[trigger] s.bucket(basis, code) == Set::<u64>::empty(),
    {
        let mut tables: Vec<HashMap<u64, B>> = Vec::new();
        let mut b: usize = 0;
        while b < bases
            invariant
                b <= bases,
                tables@.len() == b,
                forall|j: int| 0 <= j < b ==> #[trigger] tables@[j]@ == Map::<u64, B>::empty(),
            decreases bases - b,
        {
            tables.push(HashMap::new());
            b = b + 1;
        }
        VectorStore { dims, tables }
    }

    /// The index of `rows`, for vectors of `dims` numbers under `bases` bases.
    /// The first row of another length ends the build, and no index is
    /// returned.
    pub fn build(dims: usize, bases: usize, rows: &Vec<Entry>) -> (r: Result<Self, SearchError>)
        requires
            forall|i: int|
                0 <= i < rows@.len() ==> B::admits((#[trigger] rows@[i]).id) && (rows@[i].len
                    == dims ==> rows@[i].codes@.len() == bases),
        ensures
            match r {
                Ok(s) => {
                    &&& s.wf()
                    &&& s.dims() == dims
                    &&& s.bases() == bases
                    &&& forall|i: int| 0 <= i < rows@.len() ==> (#[trigger] rows@[i]).len == dims
                    &&& forall|basis: int, code: u64|
                        0 <= basis < bases ==> #[trigger] s.bucket(basis, code) == indexed(
                            rows@,
                            basis,
                            code,
                            rows@.len(),
                        )
                },
                Err(e) => exists|i: int|
                    {
                        &&& 0 <= i < rows@.len()
                        &&& (#[trigger] rows@[i]).len != dims
                        &&& forall|j: int| 0 <= j < i ==> (#[trigger] rows@[j]).len == dims
                        &&& e == (SearchError::DimensionMismatch {
                            expected: dims,
                            found: rows@[i].len,
                        })
                    },
            },
    {
        let mut store: Self = VectorStore::new(dims, bases);
        let mut i: usize = 0;
        while i < rows.len()
            invariant
                i <= rows@.len(),
                store.wf(),
                store.dims() == dims,
                store.bases() == bases,
                forall|j: int|
                    0 <= j < rows@.len() ==> B::admits((#[trigger] rows@[j]).id) && (rows@[j].len
                        == dims ==> rows@[j].codes@.len() == bases),
                forall|j: int| 0 <= j < i ==> (#[trigger] rows@[j]).len == dims,
                forall|basis: int, code: u64|
                    0 <= basis < bases ==> #[trigger] store.bucket(basis, code) == indexed(
                        rows@,
                        basis,
                        code,
                        i as nat,
                    ),
            decreases rows@.len() - i,
        {
            let entered = store.insert(rows[i].id, rows[i].len, &rows[i].codes);
            match entered {
                Ok(_) => {},
                Err(e) => {
                    assert(rows@[i as int].len != dims);
                    return Err(e);
                },
            }
            i = i + 1;
        }
        Ok(store)
    }

    /// Asking twice gives the same answer: for one index, one query and one
    /// choice of `width` and `n` there is only one list of best candidates.
    pub proof fn lemma_candidates_repeatable(
        &self,
        codes: Seq<u64>,
        width: nat,
        n: nat,
        first: Seq<u64>,
        second: Seq<u64>,
    )
        requires
            is_top(first, n, self.tallies(codes, width)),
            is_top(second, n, self.tallies(codes, width)),
        ensures
            first == second,
    {
        lemma_top_unique(first, second, n, self.tallies(codes, width));
    }

    /// Enters one vector: `len` is its length and `codes[b]` its code under
    /// basis `b`. A vector of the wrong length is refused and the index stays
    /// as it was.
    pub fn insert(&mut self, id: u64, len: usize, codes: &Vec<u64>) -> (r: Result<(), SearchError>)
        requires
            old(self).wf(),
            B::admits(id),
            len == old(self).dims() ==> codes@.len() == old(self).bases(),
        ensures
            final(self).wf(),
            final(self).dims() == old(self).dims(),
            final(self).bases() == old(self).bases(),
            len != old(self).dims() ==> r == Err::<(), SearchError>(
                SearchError::DimensionMismatch { expected: old(self).dims() as usize, found: len },
            ) && forall|basis: int, code: u64|
                0 <= basis < old(self).bases() ==> #[trigger] final(self).bucket(basis, code)
                    == old(self).bucket(basis, code),
            len == old(self).dims() ==> r.is_ok() && forall|basis: int, code: u64|
                0 <= basis < old(self).bases() ==> #[trigger] final(self).bucket(basis, code)
                    == if code == codes@[basis] {
                    old(self).bucket(basis, code).insert(id)
                } else {
                    old(self).bucket(basis, code)
                },
    {
        if len != self.dims {
            return Err(SearchError::DimensionMismatch { expected: self.dims, found: len });
        }
        let mut b: usize = 0;
        while b < self.tables.len()
            invariant
                b <= self.tables@.len(),
                self.dims == old(self).dims,
                self.tables@.len() == old(self).tables@.len(),
                codes@.len() == self.tables@.len(),
                B::admits(id),
                forall|j: int, code: u64|
                    0 <= j < b ==> #[trigger] bucket_of(self.tables@[j]@, code) == if code
                        == codes@[j] {
                        bucket_of(old(self).tables@[j]@, code).insert(id)
                    } else {
                        bucket_of(old(self).tables@[j]@, code)
                    },
                forall|j: int|
                    b <= j < self.tables@.len() ==> #[trigger] self.tables@[j]@ == old(
                        self,
                    ).tables@[j]@,
            decreases self.tables@.len() - b,
        {
            let code = codes[b];
            let ghost before = self.tables@[b as int]@;
            let taken = self.tables[b].remove(&code);
            let mut bucket = match taken {
                Some(held) => held,
                None => B::new(),
            };
            assert(bucket.elems() == bucket_of(before, code));
            bucket.add(id);
            let ghost filled = bucket;
            self.tables[b].insert(code, bucket);
            proof {
                let after = self.tables@[b as int]@;
                assert(after == before.remove(code).insert(code, filled));
                assert forall|c: u64| #[trigger]
                    bucket_of(after, c) == if c == code {
                        bucket_of(before, c).insert(id)
                    } else {
                        bucket_of(before, c)
                    } by {
                    if c != code {
                        assert(after.contains_key(c) == before.contains_key(c));
                    }
                }
            }
            b = b + 1;
        }
        proof {
            assert forall|basis: int, code: u64, x: u64|
                0 <= basis < self.bases() && #[trigger] self.bucket(basis, code).contains(
                    x,
                ) implies B::admits(x) by {
                if x != id {
                    assert(old(self).bucket(basis, code).contains(x));
                }
            }
        }
        Ok(())
    }

    /// The `n` best candidates for a query of length `len` whose code under
    /// basis `b` is `codes[b]`: the identifiers that share the query's code in
    /// the most bases, counted in `width` bits, most first and the smaller
    /// identifier first among equals. A query of the wrong length is refused.
    pub fn candidates(&self, len: usize, codes: &Vec<u64>, width: usize, n: usize) -> (r: Result<
        Vec<u64>,
        SearchError,
    >)
        requires
            self.wf(),
            width <= MAX_PLANES,
            len == self.dims() ==> codes@.len() == self.bases(),
        ensures
            len != self.dims() ==> r == Err::<Vec<u64>, SearchError>(
                SearchError::DimensionMismatch { expected: self.dims() as usize, found: len },
            ),
            len == self.dims() ==> r.is_ok() && is_top(
                r.unwrap()@,
                n as nat,
                self.tallies(codes@, width as nat),
            ),
    {
        if len != self.dims {
            return Err(SearchError::DimensionMismatch { expected: self.dims, found: len });
        }
        let mut counts: CountingBitmap<B> = CountingBitmap::new(width);
        let ghost limit = counts.limit();
        let mut b: usize = 0;
        while b < self.tables.len()
            invariant
                b <= self.tables@.len(),
                codes@.len() == self.tables@.len(),
                self.wf(),
                counts.wf(),
                counts.width() == width,
                limit == counts.limit(),
                forall|id: u64|
                    #[trigger] counts.counter(id) == least(self.hits(codes@, id, b as nat), limit),
            decreases self.tables@.len() - b,
        {
            let code = codes[b];
            let ghost start = counts;
            match self.tables[b].get(&code) {
                Some(bucket) => {
                    assert(bucket.elems() == self.bucket(b as int, code));
                    let ids = bucket.iter_elems();
                    let mut i: usize = 0;
                    while i < ids.len()
                        invariant
                            i <= ids@.len(),
                            crate::bitmap::ascending(ids@),
                            forall|id: u64| ids@.contains(id) ==> B::admits(id),
                            counts.wf(),
                            counts.width() == width,
                            limit == counts.limit(),
                            limit == start.limit(),
                            forall|id: u64|
                                #[trigger] counts.counter(id) == if ids@.take(i as int).contains(
                                    id,
                                ) {
                                    least(start.counter(id) + 1, limit)
                                } else {
                                    start.counter(id)
                                },
                            forall|id: u64| start.counter(id) <= limit,
                        decreases ids@.len() - i,
                    {
                        let id = ids[i];
                        proof {
                            assert(ids@.contains(id));
                            let seen = ids@.take(i as int);
                            let next = ids@.take(i + 1);
                            assert(next =~= seen.push(id));
                            assert(!seen.contains(id)) by {
                                if seen.contains(id) {
                                    let j = choose|j: int| 0 <= j < seen.len() && seen[j] == id;
                                    assert(ids@[j] < ids@[i as int]);
                                }
                            }
                            assert forall|x: u64| next.contains(x) <==> seen.contains(x) || x
                                == id by {
                                if seen.contains(x) {
                                    let j = choose|j: int| 0 <= j < seen.len() && seen[j] == x;
                                    assert(next[j] == x);
                                }
                                if x == id {
                                    assert(next[i as int] == x);
                                }
                            }
                        }
                        counts.increment(id);
                        i = i + 1;
                    }
                    proof {
                        assert(ids@.take(ids@.len() as int) =~= ids@);
                    }
                },
                None => {
                    assert(self.bucket(b as int, code) == Set::<u64>::empty());
                },
            }
            b = b + 1;
        }
        let top = counts.top_n(n);
        proof {
            let f = counts.counters();
            let g = self.tallies(codes@, width as nat);
            assert forall|x: u64| #[trigger] f(x) == g(x) by {
                assert(counts.counter(x) == least(self.hits(codes@, x, b as nat), limit));
            }
            lemma_top_same_counts(top@, n as nat, f, g);
        }
        Ok(top)
    }
}

} // verus!
