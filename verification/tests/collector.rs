use annsearch::{full_table_scan_search, Hit, ResultSet, SearchError, Similarity};

fn pairs(set: ResultSet) -> Vec<(u64, i64)> {
    set.into_sorted().iter().map(|h| (h.id, h.score)).collect()
}

#[test]
fn result_set_starts_empty() {
    let set = ResultSet::new(3);
    assert!(set.is_empty());
    assert_eq!(set.len(), 0);
}

#[test]
fn result_set_keeps_everything_while_there_is_room() {
    let mut set = ResultSet::new(3);
    set.add_result(10, Some(5));
    set.add_result(11, Some(9));
    assert_eq!(set.len(), 2);
    assert_eq!(pairs(set), vec![(11, 9), (10, 5)]);
}

#[test]
fn result_set_replaces_minimum_only_for_higher_score() {
    let mut set = ResultSet::new(2);
    set.add_result(1, Some(5));
    set.add_result(2, Some(7));
    set.add_result(3, Some(5));
    assert_eq!(set.into_sorted(), vec![Hit { id: 2, score: 7 }, Hit { id: 1, score: 5 }]);
    let mut set = ResultSet::new(2);
    set.add_result(1, Some(5));
    set.add_result(2, Some(7));
    set.add_result(3, Some(6));
    assert_eq!(pairs(set), vec![(2, 7), (3, 6)]);
}

#[test]
fn result_set_orders_equal_scores_by_id() {
    let mut set = ResultSet::new(4);
    set.add_result(9, Some(1));
    set.add_result(4, Some(1));
    set.add_result(6, Some(2));
    set.add_result(5, Some(1));
    assert_eq!(pairs(set), vec![(6, 2), (4, 1), (5, 1), (9, 1)]);
}

#[test]
fn result_set_ignores_undefined_score() {
    let mut set = ResultSet::new(2);
    set.add_result(1, None);
    assert!(set.is_empty());
    set.add_result(2, Some(-3));
    set.add_result(3, None);
    assert_eq!(pairs(set), vec![(2, -3)]);
}

#[test]
fn result_set_of_capacity_zero_stays_empty() {
    let mut set = ResultSet::new(0);
    set.add_result(1, Some(100));
    assert_eq!(set.len(), 0);
}

#[test]
fn result_set_holds_min_of_capacity_and_offers() {
    let offered: [(u64, i64); 5] = [(0, 3), (1, -1), (2, 8), (3, 8), (4, 0)];
    let ranked: [(u64, i64); 5] = [(2, 8), (3, 8), (0, 3), (4, 0), (1, -1)];
    for k in 0..7usize {
        let mut set = ResultSet::new(k);
        for (id, score) in offered.iter() {
            set.add_result(*id, Some(*score));
        }
        let kept = pairs(set);
        assert_eq!(kept.len(), k.min(5));
        assert_eq!(kept, ranked[..k.min(5)].to_vec());
    }
}

#[test]
fn scan_returns_one_of_identical_pair() {
    let rows = vec![
        (1, Similarity::Key(-40)),
        (2, Similarity::Key(1000)),
        (3, Similarity::Key(-900)),
        (4, Similarity::Key(1000)),
    ];
    let best = full_table_scan_search(&rows, 1).unwrap();
    assert_eq!(pairs(best), vec![(2, 1000)]);
}

#[test]
fn scan_keeps_best_k_in_order() {
    let rows = vec![
        (5, Similarity::Key(1)),
        (6, Similarity::Undefined),
        (7, Similarity::Key(3)),
        (8, Similarity::Key(2)),
    ];
    let best = full_table_scan_search(&rows, 2).unwrap();
    assert_eq!(pairs(best), vec![(7, 3), (8, 2)]);
}

#[test]
fn scan_of_nothing_is_empty() {
    let best = full_table_scan_search(&Vec::new(), 3).unwrap();
    assert!(best.is_empty());
}

#[test]
fn scan_fails_with_first_backend_failure() {
    let rows = vec![
        (5, Similarity::Key(1)),
        (6, Similarity::Failed),
        (7, Similarity::Failed),
    ];
    let r = full_table_scan_search(&rows, 2);
    assert_eq!(r.err(), Some(SearchError::Backend { id: 6 }));
}

fn key(score: f32) -> Similarity {
    if score.is_nan() {
        Similarity::Undefined
    } else {
        Similarity::Key((score * 1000.0).round() as i64)
    }
}

fn similarity(a: &[f32], b: &[f32]) -> f32 {
    let mut sum = 0.0f32;
    for i in 0..a.len() {
        sum -= (a[i] - b[i]) * (a[i] - b[i]);
    }
    sum
}

#[test]
fn scan_finds_identical_vector_among_distant_ones() {
    let vectors: Vec<(u64, Vec<f32>)> = vec![
        (1, vec![10.0, 0.0, 0.0]),
        (2, vec![0.0, 20.0, 0.0]),
        (3, vec![0.5, 0.5, 0.5]),
        (4, vec![0.0, 0.0, -30.0]),
        (5, vec![0.5, 0.5, 0.5]),
    ];
    let target: Vec<f32> = vec![0.5, 0.5, 0.5];
    let rows: Vec<(u64, Similarity)> =
        vectors.iter().map(|(id, v)| (*id, key(similarity(&target, v)))).collect();
    let best = full_table_scan_search(&rows, 1).unwrap().into_sorted();
    assert_eq!(best.len(), 1);
    assert!(best[0].id == 3 || best[0].id == 5);
    assert_eq!(best[0].score, 0);
    assert_eq!(best[0], Hit { id: 3, score: 0 });
}

#[test]
fn scan_passes_over_scores_that_are_not_numbers() {
    let rows = vec![(1, key(f32::NAN)), (2, key(-1.5)), (3, key(0.25))];
    let best = full_table_scan_search(&rows, 3).unwrap();
    assert_eq!(pairs(best), vec![(3, 250), (2, -1500)]);
}

#[test]
fn result_set_keeps_earlier_offer_among_equal_lowest_scores() {
    let mut set = ResultSet::new(2);
    set.add_result(5, Some(10));
    set.add_result(3, Some(10));
    set.add_result(7, Some(20));
    assert_eq!(pairs(set), vec![(7, 20), (5, 10)]);
}

#[test]
fn result_set_equal_score_never_displaces() {
    let mut set = ResultSet::new(2);
    set.add_result(5, Some(10));
    set.add_result(9, Some(10));
    set.add_result(3, Some(10));
    assert_eq!(pairs(set), vec![(5, 10), (9, 10)]);
}

#[test]
fn result_set_holds_equal_scores_in_order_of_offer() {
    let mut set = ResultSet::new(3);
    set.add_result(9, Some(1));
    set.add_result(4, Some(1));
    set.add_result(6, Some(2));
    let held: Vec<(u64, i64)> = set.into_vec().iter().map(|h| (h.id, h.score)).collect();
    assert_eq!(held, vec![(6, 2), (9, 1), (4, 1)]);
    let mut set = ResultSet::new(3);
    set.add_result(9, Some(1));
    set.add_result(4, Some(1));
    set.add_result(6, Some(2));
    assert_eq!(pairs(set), vec![(6, 2), (4, 1), (9, 1)]);
}

#[test]
fn into_sorted_keeps_hits_offered_twice() {
    let mut set = ResultSet::new(4);
    set.add_result(2, Some(1));
    set.add_result(1, Some(1));
    set.add_result(2, Some(1));
    assert_eq!(pairs(set), vec![(1, 1), (2, 1), (2, 1)]);
}
