//! The exact search: every vector of the collection is scored and the best
//! are kept.

use crate::error::SearchError;
use crate::result::{collect, ResultSet};
use vstd::prelude::*;

verus! {

/// What the backend answered when asked for one similarity.
#[derive(Clone, Copy, Debug, PartialEq, Eq, Structural)]
pub enum Similarity {
    /// The score, as an integer key that orders as the scores do.
    Key(i64),
    /// The score is not a number.
    Undefined,
    /// The backend failed.
    Failed,
}

/// The key of an answer, if it has one.
pub open spec fn key_of(answer: Similarity) -> Option<i64> {
    match answer {
        Similarity::Key(v) => Some(v),
        _ => None,
    }
}

/// The rows as offers to a collector.
pub open spec fn offers(rows: Seq<(u64, Similarity)>) -> Seq<(u64, Option<i64>)> {
    Seq::new(rows.len(), |i: int| (rows[i].0, key_of(rows[i].1)))
}

/// The identifier of the first row on which the backend failed.
pub open spec fn first_failure(rows: Seq<(u64, Similarity)>) -> Option<u64>
    decreases rows.len(),
{
    if rows.len() == 0 {
        None
    } else if first_failure(rows.drop_last()).is_some() {
        first_failure(rows.drop_last())
    } else if rows.last().1 == Similarity::Failed {
        Some(rows.last().0)
    } else {
        None
    }
}

/// The best `k` of `rows`, which hold each vector of the collection with the
/// backend's answer for it, in the backend's order. The first failed answer
/// ends the search with that vector's error; an undefined score is passed
/// over.
pub fn full_table_scan_search(rows: &Vec<(u64, Similarity)>, k: usize) -> (r: Result<
    ResultSet,
    SearchError,
>)
    ensures
        match r {
            Ok(best) => first_failure(rows@).is_none() && best.wf() && best.capacity() == k
                && best@ == collect(k as nat, offers(rows@)),
            Err(e) => first_failure(rows@).is_some() && e == (SearchError::Backend {
                id: first_failure(rows@).unwrap(),
            }),
        },
{
    let mut best = ResultSet::new(k);
    let mut i: usize = 0;
    proof {
        assert(offers(rows@.take(0)) =~= Seq::<(u64, Option<i64>)>::empty());
    }
    while i < rows.len()
        invariant
            i <= rows@.len(),
            best.wf(),
            best.capacity() == k,
            first_failure(rows@.take(i as int)).is_none(),
            best@ == collect(k as nat, offers(rows@.take(i as int))),
        decreases rows@.len() - i,
    {
        let id = rows[i].0;
        proof {
            let next = rows@.take(i + 1);
            assert(next.drop_last() =~= rows@.take(i as int));
            assert(next.last() == rows@[i as int]);
            assert(offers(next).drop_last() =~= offers(rows@.take(i as int)));
            assert(offers(next).last() == (id, key_of(rows@[i as int].1)));
        }
        match rows[i].1 {
            Similarity::Key(v) => {
                best.add_result(id, Some(v));
            },
            Similarity::Undefined => {
                best.add_result(id, None);
            },
            Similarity::Failed => {
                proof {
                    lemma_failure_stays(rows@, i + 1);
                }
                return Err(SearchError::Backend { id });
            },
        }
        i = i + 1;
    }
    proof {
        assert(rows@.take(rows@.len() as int) =~= rows@);
    }
    Ok(best)
}

/// A failure among the first `n` rows is the first failure of all rows.
pub proof fn lemma_failure_stays(rows: Seq<(u64, Similarity)>, n: int)
    requires
        0 <= n <= rows.len(),
        first_failure(rows.take(n)).is_some(),
    ensures
        first_failure(rows) == first_failure(rows.take(n)),
    decreases rows.len() - n,
{
    if n < rows.len() {
        let next = rows.take(n + 1);
        assert(next.drop_last() =~= rows.take(n));
        lemma_failure_stays(rows, n + 1);
    } else {
        assert(rows.take(n) =~= rows);
    }
}

} // verus!
