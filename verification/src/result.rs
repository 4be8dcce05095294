//! A bounded collector of the best hits seen so far.

use vstd::prelude::*;

verus! {

/// An identifier with the integer key of its similarity (higher is better).
#[derive(Clone, Copy, Debug, PartialEq, Eq, Structural)]
pub struct Hit {
    pub id: u64,
    pub score: i64,
}

/// The collector's total order: higher score first, smaller identifier first
/// among equal scores.
pub open spec fn precedes(a: Hit, b: Hit) -> bool {
    a.score > b.score || (a.score == b.score && a.id < b.id)
}

/// No hit stands after one that it precedes.
pub open spec fn ordered(s: Seq<Hit>) -> bool {
    forall|i: int, j: int| 0 <= i < j < s.len() ==> !precedes(#[trigger] s[j], #[trigger] s[i])
}

/// The position of `h` in the total order among the hits of `s`: behind every
/// hit that it does not precede.
pub open spec fn rank_slot(s: Seq<Hit>, h: Hit) -> nat
    decreases s.len(),
{
    if s.len() == 0 {
        0
    } else if precedes(h, s.last()) {
        rank_slot(s.drop_last(), h)
    } else {
        s.len()
    }
}

/// The order in which a collector holds its hits: no hit stands after one
/// that scores lower. Among equal scores the hit that was offered earlier
/// stands first.
pub open spec fn by_score(s: Seq<Hit>) -> bool {
    forall|i: int, j: int| 0 <= i < j < s.len() ==> (#[trigger] s[i]).score >= (#[trigger] s[j]).score
}

/// The position at which `h` enters a collector that holds `s`: behind every
/// hit that scores no lower, so behind the earlier hits of its own score.
pub open spec fn slot(s: Seq<Hit>, h: Hit) -> nat
    decreases s.len(),
{
    if s.len() == 0 {
        0
    } else if h.score > s.last().score {
        slot(s.drop_last(), h)
    } else {
        s.len()
    }
}

/// What a collector of capacity `k` that holds `s` holds after `h` is offered:
/// `h` enters while there is room; a full collector gives up its last hit,
/// which among the hits of the lowest score is the one offered last, and only
/// to a strictly higher score.
pub open spec fn receive(s: Seq<Hit>, k: nat, h: Hit) -> Seq<Hit> {
    if s.len() < k {
        s.insert(slot(s, h) as int, h)
    } else if s.len() > 0 && h.score > s.last().score {
        s.drop_last().insert(slot(s.drop_last(), h) as int, h)
    } else {
        s
    }
}

/// The hits of `s` in the total order: each enters at its position among
/// those before it.
pub open spec fn sorted(s: Seq<Hit>) -> Seq<Hit>
    decreases s.len(),
{
    if s.len() == 0 {
        Seq::empty()
    } else {
        sorted(s.drop_last()).insert(rank_slot(sorted(s.drop_last()), s.last()) as int, s.last())
    }
}

/// `slot` splits a collector's hits into those that score no lower than `h`
/// and those that score lower.
pub proof fn lemma_slot(s: Seq<Hit>, h: Hit)
    requires
        by_score(s),
    ensures
        slot(s, h) <= s.len(),
        forall|i: int| 0 <= i < slot(s, h) ==> (#[trigger] s[i]).score >= h.score,
        forall|i: int| slot(s, h) <= i < s.len() ==> (#[trigger] s[i]).score < h.score,
    decreases s.len(),
{
    if s.len() > 0 {
        if h.score > s.last().score {
            let t = s.drop_last();
            lemma_drop_last_by_score(s);
            lemma_slot(t, h);
            assert forall|i: int| 0 <= i < slot(s, h) implies (#[trigger] s[i]).score
                >= h.score by {
                assert(s[i] == t[i]);
            }
            assert forall|i: int| slot(s, h) <= i < s.len() implies (#[trigger] s[i]).score
                < h.score by {
                if i < t.len() {
                    assert(s[i] == t[i]);
                }
            }
        } else {
            assert forall|i: int| 0 <= i < s.len() implies (#[trigger] s[i]).score
                >= h.score by {
                if i < s.len() - 1 {
                    assert(s[i].score >= s[s.len() - 1].score);
                }
            }
        }
    }
}

/// Entering at its slot keeps a collector's hits in their order.
pub proof fn lemma_insert_by_score(s: Seq<Hit>, h: Hit)
    requires
        by_score(s),
    ensures
        by_score(s.insert(slot(s, h) as int, h)),
{
    lemma_slot(s, h);
    let p = slot(s, h) as int;
    let t = s.insert(p, h);
    assert forall|i: int, j: int| 0 <= i < j < t.len() implies (#[trigger] t[i]).score >= (
    #[trigger] t[j]).score by {
        if j < p {
            assert(t[i] == s[i] && t[j] == s[j]);
        } else if j == p {
            assert(t[i] == s[i]);
        } else if i < p {
            assert(t[i] == s[i] && t[j] == s[j - 1]);
        } else if i == p {
            assert(t[j] == s[j - 1]);
        } else {
            assert(t[i] == s[i - 1] && t[j] == s[j - 1]);
        }
    }
}

/// Dropping the last hit keeps a collector's hits in their order.
pub proof fn lemma_drop_last_by_score(s: Seq<Hit>)
    requires
        by_score(s),
        s.len() > 0,
    ensures
        by_score(s.drop_last()),
{
    let t = s.drop_last();
    assert forall|i: int, j: int| 0 <= i < j < t.len() implies (#[trigger] t[i]).score >= (
    #[trigger] t[j]).score by {
        assert(t[i] == s[i] && t[j] == s[j]);
    }
}

/// Hits in the total order are in a collector's order.
pub proof fn lemma_ordered_by_score(s: Seq<Hit>)
    requires
        ordered(s),
    ensures
        by_score(s),
{
    assert forall|i: int, j: int| 0 <= i < j < s.len() implies (#[trigger] s[i]).score >= (
    #[trigger] s[j]).score by {
        assert(!precedes(s[j], s[i]));
    }
}

/// Sorting puts the hits in the total order and neither adds nor loses one.
pub proof fn lemma_sorted(s: Seq<Hit>)
    ensures
        ordered(sorted(s)),
        sorted(s).len() == s.len(),
        sorted(s).to_multiset() == s.to_multiset(),
    decreases s.len(),
{
    if s.len() > 0 {
        let front = s.drop_last();
        let t = sorted(front);
        lemma_sorted(front);
        lemma_rank_slot(t, s.last());
        lemma_insert_ranked(t, s.last());
        vstd::seq_lib::to_multiset_insert(t, rank_slot(t, s.last()) as int, s.last());
        front.to_multiset_ensures();
        assert(front.push(s.last()) =~= s);
    } else {
        assert(s =~= Seq::<Hit>::empty());
    }
}

/// `receive` for a score that may be undefined: an undefined score changes
/// nothing.
pub open spec fn offer(s: Seq<Hit>, k: nat, id: u64, score: Option<i64>) -> Seq<Hit> {
    match score {
        Some(v) => receive(s, k, Hit { id, score: v }),
        None => s,
    }
}

/// What a fresh collector of capacity `k` holds after `inputs` were offered in
/// order.
pub open spec fn collect(k: nat, inputs: Seq<(u64, Option<i64>)>) -> Seq<Hit>
    decreases inputs.len(),
{
    if inputs.len() == 0 {
        Seq::empty()
    } else {
        offer(collect(k, inputs.drop_last()), k, inputs.last().0, inputs.last().1)
    }
}

/// In an ordered sequence `slot` splits the hits into those that `h` does not
/// precede and those that it does.
pub proof fn lemma_rank_slot(s: Seq<Hit>, h: Hit)
    requires
        ordered(s),
    ensures
        rank_slot(s, h) <= s.len(),
        forall|i: int| 0 <= i < rank_slot(s, h) ==> !precedes(h, #[trigger] s[i]),
        forall|i: int| rank_slot(s, h) <= i < s.len() ==> precedes(h, #[trigger] s[i]),
    decreases s.len(),
{
    if s.len() > 0 {
        if precedes(h, s.last()) {
            let t = s.drop_last();
            assert forall|i: int, j: int| 0 <= i < j < t.len() implies !precedes(
                #[trigger] t[j],
                #[trigger] t[i],
            ) by {
                assert(t[i] == s[i] && t[j] == s[j]);
            }
            lemma_rank_slot(t, h);
            assert forall|i: int| 0 <= i < rank_slot(s, h) implies !precedes(h, #[trigger] s[i]) by {
                assert(s[i] == t[i]);
            }
            assert forall|i: int| rank_slot(s, h) <= i < s.len() implies precedes(h, #[trigger] s[i]) by {
                if i < t.len() {
                    assert(s[i] == t[i]);
                }
            }
        } else {
            assert forall|i: int| 0 <= i < s.len() implies !precedes(h, #[trigger] s[i]) by {
                if i < s.len() - 1 {
                    assert(!precedes(s[s.len() - 1], s[i]));
                }
            }
        }
    }
}

/// Entering at its slot keeps an ordered sequence ordered.
pub proof fn lemma_insert_ranked(s: Seq<Hit>, h: Hit)
    requires
        ordered(s),
    ensures
        ordered(s.insert(rank_slot(s, h) as int, h)),
{
    lemma_rank_slot(s, h);
    let p = rank_slot(s, h) as int;
    let t = s.insert(p, h);
    assert forall|i: int, j: int| 0 <= i < j < t.len() implies !precedes(
        #[trigger] t[j],
        #[trigger] t[i],
    ) by {
        if j < p {
            assert(t[i] == s[i] && t[j] == s[j]);
        } else if j == p {
            assert(t[i] == s[i]);
        } else if i < p {
            assert(t[i] == s[i] && t[j] == s[j - 1]);
        } else if i == p {
            assert(t[j] == s[j - 1]);
        } else {
            assert(t[i] == s[i - 1] && t[j] == s[j - 1]);
        }
    }
}

/// Dropping the last hit keeps an ordered sequence ordered.
pub proof fn lemma_drop_last_ordered(s: Seq<Hit>)
    requires
        ordered(s),
        s.len() > 0,
    ensures
        ordered(s.drop_last()),
{
    let t = s.drop_last();
    assert forall|i: int, j: int| 0 <= i < j < t.len() implies !precedes(
        #[trigger] t[j],
        #[trigger] t[i],
    ) by {
        assert(t[i] == s[i] && t[j] == s[j]);
    }
}

/// What a sequence holds after a hit entered it: what it held, and the hit.
pub proof fn lemma_insert_contains(t: Seq<Hit>, p: int, h: Hit)
    requires
        0 <= p <= t.len(),
    ensures
        forall|e: Hit| t.insert(p, h).contains(e) <==> (t.contains(e) || e == h),
{
    let r = t.insert(p, h);
    assert forall|e: Hit| r.contains(e) <==> (t.contains(e) || e == h) by {
        if r.contains(e) {
            let i = choose|i: int| 0 <= i < r.len() && r[i] == e;
            if i < p {
                assert(t[i] == e);
            } else if i > p {
                assert(t[i - 1] == e);
            }
        }
        if t.contains(e) {
            let i = choose|i: int| 0 <= i < t.len() && t[i] == e;
            if i < p {
                assert(r[i] == e);
            } else {
                assert(r[i + 1] == e);
            }
        }
        if e == h {
            assert(r[p] == e);
        }
    }
}

/// Whether a collector of capacity `k` that holds `s` takes `h` in.
pub open spec fn takes(s: Seq<Hit>, k: nat, h: Hit) -> bool {
    s.len() < k || (s.len() > 0 && h.score > s.last().score)
}

/// What one offer does to a collector: it stays in order and within its
/// capacity; it grows by one while there is room; a hit that is taken in is
/// held afterwards, and all that leaves for it is the last hit of a full
/// collector; a hit that is not taken in changes nothing.
pub proof fn lemma_receive(s: Seq<Hit>, k: nat, h: Hit)
    requires
        by_score(s),
        s.len() <= k,
    ensures
        by_score(receive(s, k, h)),
        receive(s, k, h).len() == if s.len() < k {
            s.len() + 1
        } else {
            s.len()
        },
        forall|e: Hit| receive(s, k, h).contains(e) ==> s.contains(e) || e == h,
        takes(s, k, h) ==> receive(s, k, h).contains(h),
        takes(s, k, h) ==> forall|e: Hit|
            s.contains(e) ==> receive(s, k, h).contains(e) || (s.len() == k && e == s.last()),
        !takes(s, k, h) ==> receive(s, k, h) == s,
{
    if s.len() < k {
        lemma_slot(s, h);
        lemma_insert_by_score(s, h);
        lemma_insert_contains(s, slot(s, h) as int, h);
        assert(s.insert(slot(s, h) as int, h)[slot(s, h) as int] == h);
    } else if s.len() > 0 && h.score > s.last().score {
        let t = s.drop_last();
        lemma_drop_last_by_score(s);
        lemma_slot(t, h);
        lemma_insert_by_score(t, h);
        lemma_insert_contains(t, slot(t, h) as int, h);
        assert(t.insert(slot(t, h) as int, h)[slot(t, h) as int] == h);
        assert forall|e: Hit| t.contains(e) implies s.contains(e) by {
            let i = choose|i: int| 0 <= i < t.len() && t[i] == e;
            assert(s[i] == e);
        }
        assert forall|e: Hit| s.contains(e) implies t.contains(e) || e == s.last() by {
            let i = choose|i: int| 0 <= i < s.len() && s[i] == e;
            if i < t.len() {
                assert(t[i] == e);
            }
        }
    }
}

/// The number of inputs whose score is defined.
pub open spec fn defined(inputs: Seq<(u64, Option<i64>)>) -> nat
    decreases inputs.len(),
{
    if inputs.len() == 0 {
        0
    } else {
        defined(inputs.drop_last()) + if inputs.last().1.is_some() {
            1nat
        } else {
            0nat
        }
    }
}

/// Among a collector's hits none scores below the last one.
pub proof fn lemma_last_is_lowest(s: Seq<Hit>)
    requires
        by_score(s),
    ensures
        forall|j: int| 0 <= j < s.len() ==> s.last().score <= (#[trigger] s[j]).score,
{
    assert forall|j: int| 0 <= j < s.len() implies s.last().score <= (#[trigger] s[j]).score by {
        if j < s.len() - 1 {
            assert(s[j].score >= s[s.len() - 1].score);
        }
    }
}

/// Whatever is offered to a collector of capacity `k`, in whatever order: it
/// ends up in order, with as many hits as inputs had a defined score, but no
/// more than `k`; each hit it holds was offered; and an offered hit that it
/// does not hold scores no higher than any hit it holds, which can only be
/// when the collector is full.
pub proof fn lemma_collect_keeps_best(k: nat, inputs: Seq<(u64, Option<i64>)>)
    ensures
        by_score(collect(k, inputs)),
        collect(k, inputs).len() == if defined(inputs) < k {
            defined(inputs)
        } else {
            k
        },
        forall|e: Hit| #[trigger]
            collect(k, inputs).contains(e) ==> inputs.contains((e.id, Some(e.score))),
        forall|i: int|
            0 <= i < inputs.len() && (#[trigger] inputs[i]).1.is_some() ==> collect(
                k,
                inputs,
            ).contains(Hit { id: inputs[i].0, score: inputs[i].1.unwrap() }) || collect(
                k,
                inputs,
            ).len() == k,
        forall|i: int, j: int|
            0 <= i < inputs.len() && 0 <= j < collect(k, inputs).len() && (
            #[trigger] inputs[i]).1.is_some() ==> collect(k, inputs).contains(
                Hit { id: inputs[i].0, score: inputs[i].1.unwrap() },
            ) || inputs[i].1.unwrap() <= (#[trigger] collect(k, inputs)[j]).score,
    decreases inputs.len(),
{
    if inputs.len() > 0 {
        let before = inputs.drop_last();
        let s = collect(k, before);
        let r = collect(k, inputs);
        lemma_collect_keeps_best(k, before);
        match inputs.last().1 {
            None => {
                assert forall|e: Hit| #[trigger] r.contains(e) implies inputs.contains(
                    (e.id, Some(e.score)),
                ) by {
                    let i = choose|i: int|
                        0 <= i < before.len() && before[i] == (e.id, Some(e.score));
                    assert(inputs[i] == before[i]);
                }
                assert forall|i: int|
                    0 <= i < inputs.len() && (#[trigger] inputs[i]).1.is_some() implies r.contains(
                    Hit { id: inputs[i].0, score: inputs[i].1.unwrap() },
                ) || r.len() == k by {
                    assert(inputs[i] == before[i]);
                }
                assert forall|i: int, j: int|
                    0 <= i < inputs.len() && 0 <= j < r.len() && (
                    #[trigger] inputs[i]).1.is_some() implies r.contains(
                    Hit { id: inputs[i].0, score: inputs[i].1.unwrap() },
                ) || inputs[i].1.unwrap() <= (#[trigger] r[j]).score by {
                    assert(r == s);
                    assert(i < before.len());
                    assert(inputs[i] == before[i]);
                    assert(before[i].1.is_some() && 0 <= j < s.len());
                    assert(s[j] == r[j]);
                }
            },
            Some(v) => {
                let h = Hit { id: inputs.last().0, score: v };
                lemma_receive(s, k, h);
                lemma_last_is_lowest(s);
                lemma_last_is_lowest(r);
                assert forall|e: Hit| #[trigger] r.contains(e) implies inputs.contains(
                    (e.id, Some(e.score)),
                ) by {
                    if s.contains(e) {
                        let i = choose|i: int|
                            0 <= i < before.len() && before[i] == (e.id, Some(e.score));
                        assert(inputs[i] == before[i]);
                    } else {
                        assert(inputs[inputs.len() - 1] == (e.id, Some(e.score)));
                    }
                }
                assert forall|i: int|
                    0 <= i < inputs.len() && (#[trigger] inputs[i]).1.is_some() implies r.contains(
                    Hit { id: inputs[i].0, score: inputs[i].1.unwrap() },
                ) || r.len() == k by {
                    if i < before.len() {
                        assert(inputs[i] == before[i]);
                    }
                }
                assert forall|i: int, j: int|
                    0 <= i < inputs.len() && 0 <= j < r.len() && (
                    #[trigger] inputs[i]).1.is_some() implies r.contains(
                    Hit { id: inputs[i].0, score: inputs[i].1.unwrap() },
                ) || inputs[i].1.unwrap() <= (#[trigger] r[j]).score by {
                    let c = Hit { id: inputs[i].0, score: inputs[i].1.unwrap() };
                    let e = r[j];
                    assert(r.contains(e));
                    if i < before.len() {
                        assert(inputs[i] == before[i]);
                        if !s.contains(c) {
                            assert(s.len() == k);
                            if s.len() > 0 {
                                assert(before[i].1.is_some());
                                assert(c.score <= s[s.len() - 1].score);
                                if s.contains(e) {
                                    let m = choose|m: int| 0 <= m < s.len() && s[m] == e;
                                    assert(c.score <= s[m].score);
                                }
                            }
                        } else if !r.contains(c) {
                            assert(c == s.last());
                            if s.contains(e) {
                                let m = choose|m: int| 0 <= m < s.len() && s[m] == e;
                                assert(s.last().score <= s[m].score);
                            }
                        }
                    } else {
                        assert(c == h);
                        if !takes(s, k, h) {
                            assert(r == s);
                            assert(s.last().score <= s[j].score);
                        }
                    }
                }
            },
        }
    }
}

/// No identifier is offered twice.
pub open spec fn distinct_ids(inputs: Seq<(u64, Option<i64>)>) -> bool {
    forall|a: int, b: int|
        0 <= a < b < inputs.len() ==> (#[trigger] inputs[a]).0 != (#[trigger] inputs[b]).0
}

/// The hit that input `i` offers.
pub open spec fn hit_at(inputs: Seq<(u64, Option<i64>)>, i: int) -> Hit {
    Hit { id: inputs[i].0, score: inputs[i].1.unwrap() }
}

/// Where no identifier is offered twice, a collector holds hits of equal
/// score in the order in which they were offered.
pub proof fn lemma_collect_in_offer_order(k: nat, inputs: Seq<(u64, Option<i64>)>)
    requires
        distinct_ids(inputs),
    ensures
        forall|a: int, b: int, i: int, j: int|
            0 <= a < b < collect(k, inputs).len() && 0 <= i < inputs.len() && 0 <= j
                < inputs.len() && (#[trigger] inputs[i]).0 == (#[trigger] collect(k, inputs)[a]).id
                && (#[trigger] inputs[j]).0 == (#[trigger] collect(k, inputs)[b]).id && collect(
                k,
                inputs,
            )[a].score == collect(k, inputs)[b].score ==> i < j,
    decreases inputs.len(),
{
    if inputs.len() > 0 {
        let before = inputs.drop_last();
        let s = collect(k, before);
        let r = collect(k, inputs);
        let n = inputs.len() - 1;
        assert forall|a: int, b: int| 0 <= a < b < before.len() implies (#[trigger] before[a]).0
            != (#[trigger] before[b]).0 by {
            assert(before[a] == inputs[a] && before[b] == inputs[b]);
        }
        lemma_collect_in_offer_order(k, before);
        lemma_collect_keeps_best(k, before);
        assert forall|m: int, i: int|
            0 <= m < s.len() && 0 <= i < inputs.len() && (#[trigger] inputs[i]).0 == (
            #[trigger] s[m]).id implies i < n by {
            assert(s.contains(s[m]));
            let i0 = choose|i0: int|
                0 <= i0 < before.len() && before[i0] == (s[m].id, Some(s[m].score));
            assert(before[i0] == inputs[i0]);
        }
        match inputs.last().1 {
            None => {
                assert(r == s);
                assert forall|a: int, b: int, i: int, j: int|
                    0 <= a < b < r.len() && 0 <= i < inputs.len() && 0 <= j < inputs.len() && (
                    #[trigger] inputs[i]).0 == (#[trigger] r[a]).id && (#[trigger] inputs[j]).0
                        == (#[trigger] r[b]).id && r[a].score == r[b].score implies i < j by {
                    assert(before[i] == inputs[i] && before[j] == inputs[j]);
                }
            },
            Some(v) => {
                let h = Hit { id: inputs.last().0, score: v };
                lemma_receive(s, k, h);
                if takes(s, k, h) {
                    let t = if s.len() < k {
                        s
                    } else {
                        s.drop_last()
                    };
                    if s.len() >= k {
                        lemma_drop_last_by_score(s);
                    }
                    lemma_slot(t, h);
                    let p = slot(t, h) as int;
                    assert(r == t.insert(p, h));
                    assert forall|a: int, b: int, i: int, j: int|
                        0 <= a < b < r.len() && 0 <= i < inputs.len() && 0 <= j < inputs.len() && (
                        #[trigger] inputs[i]).0 == (#[trigger] r[a]).id && (
                        #[trigger] inputs[j]).0 == (#[trigger] r[b]).id && r[a].score
                            == r[b].score implies i < j by {
                        let ta = if a < p {
                            a
                        } else {
                            a - 1
                        };
                        let tb = if b < p {
                            b
                        } else {
                            b - 1
                        };
                        if a != p && b != p {
                            assert(r[a] == t[ta] && t[ta] == s[ta]);
                            assert(r[b] == t[tb] && t[tb] == s[tb]);
                            assert(i < n && j < n);
                            assert(before[i] == inputs[i] && before[j] == inputs[j]);
                        } else if b == p {
                            assert(r[a] == t[ta] && t[ta] == s[ta]);
                            assert(i < n);
                            if j < n {
                                assert(inputs[j].0 != inputs[n].0);
                            }
                        } else {
                            assert(r[b] == t[tb]);
                            assert(t[tb].score < h.score);
                        }
                    }
                } else {
                    assert(r == s);
                    assert forall|a: int, b: int, i: int, j: int|
                        0 <= a < b < r.len() && 0 <= i < inputs.len() && 0 <= j < inputs.len() && (
                        #[trigger] inputs[i]).0 == (#[trigger] r[a]).id && (
                        #[trigger] inputs[j]).0 == (#[trigger] r[b]).id && r[a].score
                            == r[b].score implies i < j by {
                        assert(i < n && j < n);
                        assert(before[i] == inputs[i] && before[j] == inputs[j]);
                    }
                }
            },
        }
    }
}

/// Ties go to the earlier offer: where no identifier is offered twice and
/// two offers have the same score, a collector that holds the later one
/// holds the earlier one too.
pub proof fn lemma_collect_keeps_earlier(k: nat, inputs: Seq<(u64, Option<i64>)>)
    requires
        distinct_ids(inputs),
    ensures
        forall|i: int, j: int|
            0 <= i < j < inputs.len() && (#[trigger] inputs[i]).1.is_some() && (
            #[trigger] inputs[j]).1 == inputs[i].1 && collect(k, inputs).contains(
                hit_at(inputs, j),
            ) ==> collect(k, inputs).contains(hit_at(inputs, i)),
    decreases inputs.len(),
{
    if inputs.len() > 0 {
        let before = inputs.drop_last();
        let s = collect(k, before);
        let r = collect(k, inputs);
        let n = inputs.len() - 1;
        assert forall|a: int, b: int| 0 <= a < b < before.len() implies (#[trigger] before[a]).0
            != (#[trigger] before[b]).0 by {
            assert(before[a] == inputs[a] && before[b] == inputs[b]);
        }
        lemma_collect_keeps_earlier(k, before);
        lemma_collect_in_offer_order(k, before);
        lemma_collect_keeps_best(k, before);
        lemma_last_is_lowest(s);
        assert forall|i: int, j: int|
            0 <= i < j < inputs.len() && (#[trigger] inputs[i]).1.is_some() && (
            #[trigger] inputs[j]).1 == inputs[i].1 && r.contains(
                hit_at(inputs, j),
            ) implies r.contains(hit_at(inputs, i)) by {
            let ci = hit_at(inputs, i);
            let cj = hit_at(inputs, j);
            assert(before[i] == inputs[i]);
            assert(hit_at(before, i) == ci);
            assert(inputs[i].0 != inputs[j].0);
            match inputs.last().1 {
                None => {
                    assert(r == s);
                    assert(before[j] == inputs[j]);
                    assert(hit_at(before, j) == cj);
                },
                Some(v) => {
                    let h = Hit { id: inputs.last().0, score: v };
                    lemma_receive(s, k, h);
                    if j < n {
                        assert(before[j] == inputs[j]);
                        assert(hit_at(before, j) == cj);
                        assert(inputs[j].0 != inputs[n].0);
                        assert(s.contains(cj));
                        assert(s.contains(ci));
                        if !r.contains(ci) {
                            assert(ci == s.last());
                            let a = choose|a: int| 0 <= a < s.len() && s[a] == cj;
                            let b = s.len() - 1;
                            assert(before[j].0 == s[a].id && before[i].0 == s[b].id);
                            assert(s[a].score == s[b].score);
                            assert(a < b);
                        }
                    } else {
                        assert(cj == h);
                        if s.contains(h) {
                            let i0 = choose|i0: int|
                                0 <= i0 < before.len() && before[i0] == (h.id, Some(h.score));
                            assert(before[i0] == inputs[i0]);
                            assert(inputs[i0].0 != inputs[n].0);
                        }
                        assert(takes(s, k, h));
                        if !s.contains(ci) {
                            assert(s.len() == k);
                            assert(ci.score <= s[s.len() - 1].score);
                        }
                    }
                },
            }
        }
    }
}

/// The best `k` hits offered so far, best first.
pub struct ResultSet {
    k: usize,
    hits: Vec<Hit>,
}

impl ResultSet {
    /// The hits held, highest score first and, among equal scores, the one
    /// offered earlier first.
    pub closed spec fn view(&self) -> Seq<Hit> {
        self.hits@
    }

    /// The most hits that the collector keeps.
    pub closed spec fn capacity(&self) -> nat {
        self.k as nat
    }

    /// The hits are in order and no more than the capacity.
    pub closed spec fn wf(&self) -> bool {
        self.hits@.len() <= self.k && by_score(self.hits@)
    }

    /// An empty collector that keeps at most `k` hits.
    pub fn new(k: usize) -> (r: Self)
        ensures
            r.wf(),
            r@ == Seq::<Hit>::empty(),
            r.capacity() == k,
    {
        ResultSet { k, hits: Vec::new() }
    }

    /// Offers one hit. An undefined score (`None`) is ignored.
    pub fn add_result(&mut self, id: u64, score: Option<i64>)
        requires
            old(self).wf(),
        ensures
            final(self).wf(),
            final(self).capacity() == old(self).capacity(),
            final(self)@ == offer(old(self)@, old(self).capacity(), id, score),
    {
        let v: i64 = match score {
            Some(v) => v,
            None => {
                return ;
            },
        };
        let h = Hit { id, score: v };
        if self.hits.len() >= self.k {
            if self.hits.len() == 0 {
                return ;
            }
            if v <= self.hits[self.hits.len() - 1].score {
                return ;
            }
            proof {
                lemma_drop_last_by_score(self.hits@);
            }
            self.hits.pop();
        }
        let ghost base = self.hits@;
        let mut i: usize = self.hits.len();
        proof {
            assert(base.take(i as int) =~= base);
        }
        while i > 0 && v > self.hits[i - 1].score
            invariant
                i <= self.hits.len(),
                self.hits@ == base,
                h.score == v,
                slot(base, h) == slot(base.take(i as int), h),
            decreases i,
        {
            proof {
                assert(base.take(i as int).last() == base[i - 1]);
                assert(base.take(i as int).drop_last() =~= base.take(i - 1));
            }
            i = i - 1;
        }
        proof {
            if i > 0 {
                assert(base.take(i as int).last() == base[i - 1]);
            }
            lemma_insert_by_score(base, h);
        }
        self.hits.insert(i, h);
    }

    /// Whether `a` comes before `b` in the total order.
    fn goes_before(a: &Hit, b: &Hit) -> (r: bool)
        ensures
            r == precedes(*a, *b),
    {
        a.score > b.score || (a.score == b.score && a.id < b.id)
    }

    /// The number of hits held.
    pub fn len(&self) -> (n: usize)
        ensures
            n == self@.len(),
    {
        self.hits.len()
    }

    /// Whether no hit is held.
    pub fn is_empty(&self) -> (r: bool)
        ensures
            r == (self@.len() == 0),
    {
        self.hits.len() == 0
    }

    /// The hits as they are held: highest score first and, among equal scores,
    /// the one offered earlier first.
    pub fn into_vec(self) -> (v: Vec<Hit>)
        ensures
            v@ == self@,
    {
        self.hits
    }

    /// The hits, highest score first and smaller identifier first among equal
    /// scores.
    pub fn into_sorted(self) -> (v: Vec<Hit>)
        ensures
            v@ == sorted(self@),
            ordered(v@),
            v@.len() == self@.len(),
            v@.to_multiset() == self@.to_multiset(),
    {
        let mut out: Vec<Hit> = Vec::new();
        let mut n: usize = 0;
        proof {
            assert(self.hits@.take(0) =~= Seq::<Hit>::empty());
        }
        while n < self.hits.len()
            invariant
                n <= self.hits@.len(),
                out@ == sorted(self.hits@.take(n as int)),
            decreases self.hits@.len() - n,
        {
            let h = self.hits[n];
            let ghost base = out@;
            let mut i: usize = out.len();
            proof {
                assert(base.take(i as int) =~= base);
            }
            while i > 0 && Self::goes_before(&h, &out[i - 1])
                invariant
                    i <= out.len(),
                    out@ == base,
                    rank_slot(base, h) == rank_slot(base.take(i as int), h),
                decreases i,
            {
                proof {
                    assert(base.take(i as int).last() == base[i - 1]);
                    assert(base.take(i as int).drop_last() =~= base.take(i - 1));
                }
                i = i - 1;
            }
            proof {
                if i > 0 {
                    assert(base.take(i as int).last() == base[i - 1]);
                }
                let next = self.hits@.take(n + 1);
                assert(next.drop_last() =~= self.hits@.take(n as int));
                assert(next.last() == h);
            }
            out.insert(i, h);
            n = n + 1;
        }
        proof {
            assert(self.hits@.take(self.hits@.len() as int) =~= self.hits@);
            lemma_sorted(self.hits@);
        }
        out
    }
}

} // verus!
