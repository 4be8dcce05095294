use annsearch::counting::holds;
use annsearch::{Bitmap, CountingBitmap, DenseBitmap};
use roaring::RoaringBitmap;

#[test]
fn holds_tells_members_from_others() {
    let mut plane = <RoaringBitmap as Bitmap>::new();
    plane.add(4);
    plane.add(9);
    assert!(holds(&plane, 4));
    assert!(holds(&plane, 9));
    assert!(!holds(&plane, 5));
    let mut bits = DenseBitmap::new();
    bits.add(4);
    assert!(holds(&bits, 4));
    assert!(!holds(&bits, 3));
    assert!(!holds(&bits, 1000));
}

#[test]
fn fresh_counters_are_zero() {
    let c: CountingBitmap<RoaringBitmap> = CountingBitmap::new(3);
    assert_eq!(c.count_of(0), 0);
    assert_eq!(c.count_of(77), 0);
    assert_eq!(c.top_n(5), Vec::<u64>::new());
}

#[test]
fn increment_counts_exactly_below_saturation() {
    for planes in 1..5usize {
        let limit: u64 = (1u64 << planes) - 1;
        let mut c: CountingBitmap<RoaringBitmap> = CountingBitmap::new(planes);
        for step in 1..=limit {
            c.increment(42);
            assert_eq!(c.count_of(42), step);
            assert_eq!(c.count_of(41), 0);
        }
    }
}

#[test]
fn increment_stays_at_limit() {
    let mut c: CountingBitmap<RoaringBitmap> = CountingBitmap::new(2);
    for _ in 0..10 {
        c.increment(7);
    }
    assert_eq!(c.count_of(7), 3);
    c.increment(8);
    assert_eq!(c.count_of(8), 1);
    assert_eq!(c.count_of(7), 3);
}

#[test]
fn increment_on_dense_planes() {
    let mut c: CountingBitmap<DenseBitmap> = CountingBitmap::new(3);
    for _ in 0..5 {
        c.increment(100);
    }
    c.increment(3);
    c.increment(3);
    assert_eq!(c.count_of(100), 5);
    assert_eq!(c.count_of(3), 2);
    assert_eq!(c.count_of(4), 0);
    assert_eq!(c.top_n(2), vec![100, 3]);
}

#[test]
fn counters_without_planes_stay_zero() {
    let mut c: CountingBitmap<RoaringBitmap> = CountingBitmap::new(0);
    c.increment(1);
    assert_eq!(c.count_of(1), 0);
    assert_eq!(c.top_n(3), Vec::<u64>::new());
}

#[test]
fn increment_all_counts_occurrences() {
    let mut c: CountingBitmap<RoaringBitmap> = CountingBitmap::new(2);
    c.increment_all(&vec![5, 6, 5, 9, 5, 5, 5, 6]);
    assert_eq!(c.count_of(5), 3);
    assert_eq!(c.count_of(6), 2);
    assert_eq!(c.count_of(9), 1);
    assert_eq!(c.count_of(1), 0);
}

#[test]
fn top_n_orders_by_counter_then_id() {
    let mut c: CountingBitmap<RoaringBitmap> = CountingBitmap::new(4);
    c.increment_all(&vec![30, 10, 20, 10, 20, 40, 40, 40, 5]);
    assert_eq!(c.top_n(0), Vec::<u64>::new());
    assert_eq!(c.top_n(1), vec![40]);
    assert_eq!(c.top_n(3), vec![40, 10, 20]);
    assert_eq!(c.top_n(4), vec![40, 10, 20, 5]);
    assert_eq!(c.top_n(9), vec![40, 10, 20, 5, 30]);
}
