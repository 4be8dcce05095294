//! The best identifiers by a score, taken from identifiers that arrive in
//! ascending order.

use crate::result::{
    lemma_drop_last_ordered, lemma_ordered_by_score, lemma_receive, lemma_slot, ordered,
    precedes, receive, slot, takes, Hit,
};
use vstd::prelude::*;

verus! {

/// Whether `x` comes before `y` by the count `f`: the higher count first, the
/// smaller identifier first among equal counts.
pub open spec fn outranks(f: spec_fn(u64) -> nat, x: u64, y: u64) -> bool {
    f(x) > f(y) || (f(x) == f(y) && x < y)
}

/// `top` lists the `n` identifiers that come first by the count `f`, best
/// first, among those with a count above zero; all of them where there are
/// fewer than `n`.
pub open spec fn is_top(top: Seq<u64>, n: nat, f: spec_fn(u64) -> nat) -> bool {
    &&& top.len() <= n
    &&& forall|i: int| 0 <= i < top.len() ==> f(#[trigger] top[i]) > 0
    &&& forall|i: int, j: int|
        0 <= i < j < top.len() ==> outranks(f, #[trigger] top[i], #[trigger] top[j])
    &&& forall|x: u64| f(x) > 0 && !(#[trigger] top.contains(x)) ==> top.len() == n
    &&& forall|x: u64, i: int|
        f(x) > 0 && !top.contains(x) && 0 <= i < top.len() ==> #[trigger] outranks(f, top[i], x)
}

/// A list of the first `n` by one count is the list by any count that agrees
/// with it on every identifier.
pub proof fn lemma_top_same_counts(
    top: Seq<u64>,
    n: nat,
    f: spec_fn(u64) -> nat,
    g: spec_fn(u64) -> nat,
)
    requires
        is_top(top, n, f),
        forall|x: u64| #[trigger] f(x) == g(x),
    ensures
        is_top(top, n, g),
{
    assert forall|i: int| 0 <= i < top.len() implies g(#[trigger] top[i]) > 0 by {
        assert(f(top[i]) == g(top[i]));
    }
    assert forall|i: int, j: int| 0 <= i < j < top.len() implies outranks(
        g,
        #[trigger] top[i],
        #[trigger] top[j],
    ) by {
        assert(outranks(f, top[i], top[j]));
        assert(f(top[i]) == g(top[i]) && f(top[j]) == g(top[j]));
    }
    assert forall|x: u64| g(x) > 0 && !(#[trigger] top.contains(x)) implies top.len() == n by {
        assert(f(x) == g(x));
    }
    assert forall|x: u64, i: int|
        g(x) > 0 && !top.contains(x) && 0 <= i < top.len() implies #[trigger] outranks(
        g,
        top[i],
        x,
    ) by {
        assert(f(x) == g(x) && f(top[i]) == g(top[i]));
        assert(outranks(f, top[i], x));
    }
}

/// There is only one such list: two lists of the first `n` by the same count
/// are equal.
pub proof fn lemma_top_unique(a: Seq<u64>, b: Seq<u64>, n: nat, f: spec_fn(u64) -> nat)
    requires
        is_top(a, n, f),
        is_top(b, n, f),
    ensures
        a == b,
{
    let m = if a.len() <= b.len() {
        a.len() as int
    } else {
        b.len() as int
    };
    lemma_top_agree(a, b, n, f, m);
    if a.len() < b.len() {
        lemma_top_prefix_full(a, b, n, f);
    } else if b.len() < a.len() {
        lemma_top_prefix_full(b, a, n, f);
    }
    assert(a =~= b);
}

/// Two lists of the first `n` by the same count agree on their first `m`
/// places.
pub proof fn lemma_top_agree(a: Seq<u64>, b: Seq<u64>, n: nat, f: spec_fn(u64) -> nat, m: int)
    requires
        is_top(a, n, f),
        is_top(b, n, f),
        0 <= m <= a.len(),
        m <= b.len(),
    ensures
        forall|i: int| 0 <= i < m ==> a[i] == b[i],
    decreases m,
{
    if m > 0 {
        lemma_top_agree(a, b, n, f, m - 1);
        let i = m - 1;
        if a[i] != b[i] {
            lemma_top_later(a, b, n, f, i);
            lemma_top_later(b, a, n, f, i);
        }
    }
}

/// Where two lists of the first `n` agree before place `i` and differ at it,
/// the second list's identifier at `i` comes before the first list's.
pub proof fn lemma_top_later(a: Seq<u64>, b: Seq<u64>, n: nat, f: spec_fn(u64) -> nat, i: int)
    requires
        is_top(a, n, f),
        is_top(b, n, f),
        0 <= i < a.len(),
        i < b.len(),
        forall|j: int| 0 <= j < i ==> a[j] == b[j],
        a[i] != b[i],
    ensures
        outranks(f, b[i], a[i]),
{
    let x = a[i];
    if b.contains(x) {
        let j = choose|j: int| 0 <= j < b.len() && b[j] == x;
        if j < i {
            assert(outranks(f, a[j], a[i]));
        }
        assert(outranks(f, b[i], b[j]));
    } else {
        assert(outranks(f, b[i], x));
    }
}

/// A list of the first `n` that begins another one is as long as the other.
pub proof fn lemma_top_prefix_full(a: Seq<u64>, b: Seq<u64>, n: nat, f: spec_fn(u64) -> nat)
    requires
        is_top(a, n, f),
        is_top(b, n, f),
        a.len() <= b.len(),
        forall|i: int| 0 <= i < a.len() ==> a[i] == b[i],
    ensures
        a.len() == b.len(),
{
    if a.len() < b.len() {
        let x = b[a.len() as int];
        if a.contains(x) {
            let j = choose|j: int| 0 <= j < a.len() && a[j] == x;
            assert(outranks(f, b[j], b[a.len() as int]));
        }
    }
}

/// The hit that stands for `id` under the scoring `f`.
pub open spec fn scored(f: spec_fn(u64) -> i64, id: u64) -> Hit {
    Hit { id, score: f(id) }
}

/// `s` holds the best of `seen` under `f`, at most `n` of them: its hits are
/// ordered, stand for different identifiers of `seen`, and every identifier of
/// `seen` that is missing comes after all of them, which can only be when `s`
/// is full.
pub open spec fn best_of(s: Seq<Hit>, seen: Seq<u64>, n: nat, f: spec_fn(u64) -> i64) -> bool {
    &&& ordered(s)
    &&& s.len() <= n
    &&& forall|m: int|
        0 <= m < s.len() ==> seen.contains((#[trigger] s[m]).id) && s[m].score == f(s[m].id)
    &&& forall|a: int, b: int| 0 <= a < b < s.len() ==> (#[trigger] s[a]).id != (#[trigger] s[b]).id
    &&& forall|j: int|
        0 <= j < seen.len() ==> s.contains(scored(f, #[trigger] seen[j])) || s.len() == n
    &&& forall|j: int, m: int|
        0 <= j < seen.len() && 0 <= m < s.len() ==> s.contains(scored(f, #[trigger] seen[j]))
            || !precedes(scored(f, seen[j]), #[trigger] s[m])
}

/// A hit with a larger identifier than all that are held enters a collector
/// at its place in the total order.
pub proof fn lemma_enter_keeps_order(t: Seq<Hit>, h: Hit)
    requires
        ordered(t),
        forall|m: int| 0 <= m < t.len() ==> (#[trigger] t[m]).id < h.id,
    ensures
        slot(t, h) <= t.len(),
        ordered(t.insert(slot(t, h) as int, h)),
{
    lemma_ordered_by_score(t);
    lemma_slot(t, h);
    let p = slot(t, h) as int;
    let r = t.insert(p, h);
    assert forall|a: int, b: int| 0 <= a < b < r.len() implies !precedes(
        #[trigger] r[b],
        #[trigger] r[a],
    ) by {
        if b < p {
            assert(r[a] == t[a] && r[b] == t[b]);
        } else if b == p {
            assert(r[a] == t[a]);
        } else if a < p {
            assert(r[a] == t[a] && r[b] == t[b - 1]);
        } else if a == p {
            assert(r[b] == t[b - 1]);
        } else {
            assert(r[a] == t[a - 1] && r[b] == t[b - 1]);
        }
    }
}

/// What one offer does to hits that are in the total order: as for any
/// collector, the number of hits grows by one while there is room, a hit that
/// is taken in is held afterwards and only the last hit of a full collector
/// leaves for it, and a hit that is not taken in changes nothing.
pub proof fn lemma_receive_ordered(s: Seq<Hit>, k: nat, h: Hit)
    requires
        ordered(s),
        s.len() <= k,
    ensures
        receive(s, k, h).len() == if s.len() < k {
            s.len() + 1
        } else {
            s.len()
        },
        forall|e: Hit| receive(s, k, h).contains(e) ==> s.contains(e) || e == h,
        takes(s, k, h) ==> receive(s, k, h).contains(h),
        takes(s, k, h) ==> forall|e: Hit|
            s.contains(e) ==> receive(s, k, h).contains(e) || (s.len() == k && e == s.last()),
        !takes(s, k, h) ==> receive(s, k, h) == s,
{
    lemma_ordered_by_score(s);
    lemma_receive(s, k, h);
}

/// Offering the next identifier, larger than all seen so far, keeps the best.
pub proof fn lemma_best_of_step(
    s: Seq<Hit>,
    seen: Seq<u64>,
    n: nat,
    f: spec_fn(u64) -> i64,
    x: u64,
)
    requires
        best_of(s, seen, n, f),
        forall|j: int| 0 <= j < seen.len() ==> seen[j] < x,
    ensures
        best_of(receive(s, n, scored(f, x)), seen.push(x), n, f),
{
    let h = scored(f, x);
    let r = receive(s, n, h);
    let next = seen.push(x);
    lemma_receive_ordered(s, n, h);
    assert forall|m: int| 0 <= m < s.len() implies (#[trigger] s[m]).id < x by {
        let j = choose|j: int| 0 <= j < seen.len() && seen[j] == s[m].id;
    }
    assert forall|m: int| 0 <= m < r.len() implies next.contains((#[trigger] r[m]).id)
        && r[m].score == f(r[m].id) by {
        assert(r.contains(r[m]));
        if s.contains(r[m]) {
            let m0 = choose|m0: int| 0 <= m0 < s.len() && s[m0] == r[m];
            let j = choose|j: int| 0 <= j < seen.len() && seen[j] == s[m0].id;
            assert(next[j] == seen[j]);
        } else {
            assert(next[seen.len() as int] == x);
        }
    }
    if takes(s, n, h) {
        let t = if s.len() < n {
            s
        } else {
            s.drop_last()
        };
        let p = slot(t, h) as int;
        if s.len() >= n {
            lemma_drop_last_ordered(s);
        }
        assert forall|m: int| 0 <= m < t.len() implies (#[trigger] t[m]).id < h.id by {
            assert(t[m] == s[m]);
        }
        lemma_enter_keeps_order(t, h);
        assert(r == t.insert(p, h));
        assert forall|a: int, b: int| 0 <= a < b < r.len() implies (#[trigger] r[a]).id != (
        #[trigger] r[b]).id by {
            let ta = if a < p {
                a
            } else {
                a - 1
            };
            let tb = if b < p {
                b
            } else {
                b - 1
            };
            if a != p {
                assert(r[a] == t[ta] && t[ta] == s[ta]);
            }
            if b != p {
                assert(r[b] == t[tb] && t[tb] == s[tb]);
            }
        }
        assert forall|j: int| 0 <= j < next.len() implies r.contains(
            scored(f, #[trigger] next[j]),
        ) || r.len() == n by {
            if j < seen.len() {
                assert(next[j] == seen[j]);
            }
        }
        assert forall|j: int, m: int| 0 <= j < next.len() && 0 <= m < r.len() implies r.contains(
            scored(f, #[trigger] next[j]),
        ) || !precedes(scored(f, next[j]), #[trigger] r[m]) by {
            if j < seen.len() {
                assert(next[j] == seen[j]);
                let c = scored(f, seen[j]);
                assert(r.contains(r[m]));
                if !r.contains(c) {
                    if s.contains(c) {
                        assert(c == s.last());
                        if s.contains(r[m]) {
                            let m0 = choose|m0: int| 0 <= m0 < s.len() && s[m0] == r[m];
                            if m0 < s.len() - 1 {
                                assert(!precedes(s[s.len() - 1], s[m0]));
                            }
                        }
                    } else {
                        assert(s.len() == n);
                        assert(!precedes(c, s[s.len() - 1]));
                        if s.contains(r[m]) {
                            let m0 = choose|m0: int| 0 <= m0 < s.len() && s[m0] == r[m];
                            assert(!precedes(c, s[m0]));
                        }
                    }
                }
            }
        }
    } else {
        assert(r == s);
        assert forall|j: int| 0 <= j < next.len() implies r.contains(
            scored(f, #[trigger] next[j]),
        ) || r.len() == n by {
            if j < seen.len() {
                assert(next[j] == seen[j]);
            }
        }
        assert forall|j: int, m: int| 0 <= j < next.len() && 0 <= m < r.len() implies r.contains(
            scored(f, #[trigger] next[j]),
        ) || !precedes(scored(f, next[j]), #[trigger] r[m]) by {
            if j < seen.len() {
                assert(next[j] == seen[j]);
            } else {
                assert(s[m].id < x);
                if m < s.len() - 1 {
                    assert(!precedes(s[s.len() - 1], s[m]));
                }
            }
        }
    }
}

} // verus!
