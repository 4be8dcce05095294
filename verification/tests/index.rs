use annsearch::store::Entry;
use annsearch::{
    check_dimension, overscan_budget, pack_code, DenseBitmap, SearchError, VectorStore,
};
use roaring::RoaringBitmap;

fn dot(a: &[f32], b: &[f32]) -> f32 {
    let mut sum = 0.0f32;
    for i in 0..a.len() {
        sum += a[i] * b[i];
    }
    sum
}

fn code(vector: &[f32], basis: &[Vec<f32>]) -> u64 {
    let sides: Vec<bool> = basis.iter().map(|h| dot(vector, h) >= 0.0).collect();
    pack_code(&sides)
}

#[test]
fn pack_code_sets_one_bit_for_each_side() {
    assert_eq!(pack_code(&Vec::new()), 0);
    assert_eq!(pack_code(&vec![true]), 1);
    assert_eq!(pack_code(&vec![false, true]), 2);
    assert_eq!(pack_code(&vec![true, false, true, true]), 13);
    assert_eq!(pack_code(&vec![true; 64]), u64::MAX);
    let mut top = vec![false; 64];
    top[63] = true;
    assert_eq!(pack_code(&top), 1u64 << 63);
}

#[test]
fn check_dimension_accepts_only_equal_length() {
    assert_eq!(check_dimension(3, 3), Ok(()));
    assert_eq!(
        check_dimension(3, 2),
        Err(SearchError::DimensionMismatch { expected: 3, found: 2 })
    );
}

#[test]
fn insert_of_wrong_length_changes_nothing() {
    let mut store: VectorStore<RoaringBitmap> = VectorStore::new(2, 2);
    assert_eq!(store.insert(1, 2, &vec![0, 1]), Ok(()));
    assert_eq!(
        store.insert(2, 3, &vec![0, 1]),
        Err(SearchError::DimensionMismatch { expected: 2, found: 3 })
    );
    assert_eq!(store.candidates(2, &vec![0, 1], 4, 10), Ok(vec![1]));
}

#[test]
fn query_of_wrong_length_fails() {
    let store: VectorStore<RoaringBitmap> = VectorStore::new(2, 1);
    assert_eq!(
        store.candidates(5, &vec![0], 4, 10),
        Err(SearchError::DimensionMismatch { expected: 2, found: 5 })
    );
}

#[test]
fn build_stops_at_first_wrong_length() {
    let rows = vec![
        Entry { id: 1, len: 2, codes: vec![0] },
        Entry { id: 2, len: 7, codes: vec![] },
        Entry { id: 3, len: 9, codes: vec![] },
    ];
    let built: Result<VectorStore<RoaringBitmap>, SearchError> = VectorStore::build(2, 1, &rows);
    assert_eq!(built.err(), Some(SearchError::DimensionMismatch { expected: 2, found: 7 }));
}

#[test]
fn candidates_rank_by_shared_codes() {
    let rows = vec![
        Entry { id: 10, len: 4, codes: vec![1, 1, 1] },
        Entry { id: 11, len: 4, codes: vec![1, 0, 1] },
        Entry { id: 12, len: 4, codes: vec![0, 0, 1] },
        Entry { id: 13, len: 4, codes: vec![0, 0, 0] },
        Entry { id: 9, len: 4, codes: vec![1, 0, 1] },
    ];
    let store: VectorStore<RoaringBitmap> = VectorStore::build(4, 3, &rows).unwrap();
    let query = vec![1, 1, 1];
    assert_eq!(store.candidates(4, &query, 4, 10), Ok(vec![10, 9, 11, 12]));
    assert_eq!(store.candidates(4, &query, 4, 2), Ok(vec![10, 9]));
    assert_eq!(store.candidates(4, &query, 1, 10), Ok(vec![9, 10, 11, 12]));
    assert_eq!(store.candidates(4, &query, 0, 10), Ok(Vec::new()));
}

#[test]
fn candidates_of_missed_buckets_are_empty() {
    let rows = vec![Entry { id: 10, len: 4, codes: vec![1, 1] }];
    let store: VectorStore<DenseBitmap> = VectorStore::build(4, 2, &rows).unwrap();
    assert_eq!(store.candidates(4, &vec![0, 2], 4, 10), Ok(Vec::new()));
}

#[test]
fn query_twice_gives_same_candidates() {
    let rows = vec![
        Entry { id: 3, len: 1, codes: vec![5, 6] },
        Entry { id: 2, len: 1, codes: vec![5, 7] },
        Entry { id: 1, len: 1, codes: vec![5, 6] },
    ];
    let store: VectorStore<DenseBitmap> = VectorStore::build(1, 2, &rows).unwrap();
    let first = store.candidates(1, &vec![5, 6], 3, 2);
    let second = store.candidates(1, &vec![5, 6], 3, 2);
    assert_eq!(first, Ok(vec![1, 3]));
    assert_eq!(first, second);
}

#[test]
fn axis_vectors_share_bucket_with_nearest() {
    let axes: Vec<(u64, Vec<f32>)> = vec![
        (0, vec![1.0, 0.0]),
        (1, vec![0.0, 1.0]),
        (2, vec![-1.0, 0.0]),
        (3, vec![0.0, -1.0]),
    ];
    let basis: Vec<Vec<f32>> = vec![vec![0.0, 1.0]];
    let mut store: VectorStore<RoaringBitmap> = VectorStore::new(2, 1);
    for (id, v) in axes.iter() {
        assert_eq!(store.insert(*id, v.len(), &vec![code(v, &basis)]), Ok(()));
    }
    let query: Vec<f32> = vec![1.0, 0.0];
    let found = store.candidates(query.len(), &vec![code(&query, &basis)], 4, 4).unwrap();
    assert!(found.contains(&0));
    assert_eq!(found, vec![0, 1, 2]);
}

#[test]
fn overscan_budget_is_product_or_largest() {
    assert_eq!(overscan_budget(10, 1), 10);
    assert_eq!(overscan_budget(10, 3), 30);
    assert_eq!(overscan_budget(0, 5), 0);
    assert_eq!(overscan_budget(usize::MAX, 2), usize::MAX);
}
