use annsearch::{Bitmap, DenseBitmap};
use roaring::RoaringBitmap;

fn filled<B: Bitmap>(ids: &[u64]) -> B {
    let mut b = B::new();
    for id in ids {
        b.add(*id);
    }
    b
}

#[test]
fn sparse_new_is_empty() {
    let b = <RoaringBitmap as Bitmap>::new();
    assert_eq!(b.count(), 0);
    assert_eq!(b.iter_elems(), Vec::<u64>::new());
}

#[test]
fn sparse_count_is_number_of_distinct_ids() {
    let b: RoaringBitmap = filled(&[7, 3, 7, 100_000, 3]);
    assert_eq!(b.count(), 3);
    assert_eq!(b.iter_elems(), vec![3, 7, 100_000]);
}

#[test]
fn sparse_holds_largest_32_bit_id() {
    let b: RoaringBitmap = filled(&[4_294_967_295, 0]);
    assert_eq!(b.iter_elems(), vec![0, 4_294_967_295]);
}

#[test]
fn sparse_or_is_union() {
    let mut a: RoaringBitmap = filled(&[1, 2, 3]);
    let b: RoaringBitmap = filled(&[3, 4, 70_000]);
    Bitmap::or(&mut a, &b);
    assert_eq!(a.iter_elems(), vec![1, 2, 3, 4, 70_000]);
    assert_eq!(b.iter_elems(), vec![3, 4, 70_000]);
}

#[test]
fn sparse_and_not_is_difference() {
    let mut a: RoaringBitmap = filled(&[1, 2, 3, 70_000]);
    let b: RoaringBitmap = filled(&[3, 4, 70_000]);
    Bitmap::and_not(&mut a, &b);
    assert_eq!(a.iter_elems(), vec![1, 2]);
}

#[test]
fn sparse_xor_is_symmetric_difference() {
    let mut a: RoaringBitmap = filled(&[1, 2, 3]);
    let b: RoaringBitmap = filled(&[3, 4, 70_000]);
    Bitmap::xor(&mut a, &b);
    assert_eq!(a.iter_elems(), vec![1, 2, 4, 70_000]);
}

#[test]
fn sparse_estimate_size_grows_with_content() {
    let empty = <RoaringBitmap as Bitmap>::new();
    let b: RoaringBitmap = filled(&[1, 2, 3, 70_000]);
    assert!(b.estimate_size() > empty.estimate_size());
}

#[test]
fn dense_new_is_empty() {
    let b = DenseBitmap::new();
    assert_eq!(b.count(), 0);
    assert_eq!(b.iter_elems(), Vec::<u64>::new());
}

#[test]
fn dense_count_is_number_of_distinct_ids() {
    let b: DenseBitmap = filled(&[7, 3, 7, 1000, 3]);
    assert_eq!(b.count(), 3);
    assert_eq!(b.iter_elems(), vec![3, 7, 1000]);
}

#[test]
fn dense_add_below_length_keeps_higher_bits() {
    let b: DenseBitmap = filled(&[200, 5]);
    assert_eq!(b.iter_elems(), vec![5, 200]);
}

#[test]
fn dense_or_grows_receiver() {
    let mut a: DenseBitmap = filled(&[1, 2]);
    let b: DenseBitmap = filled(&[2, 300]);
    a.or(&b);
    assert_eq!(a.iter_elems(), vec![1, 2, 300]);
}

#[test]
fn dense_or_with_shorter_operand() {
    let mut a: DenseBitmap = filled(&[1, 300]);
    let b: DenseBitmap = filled(&[2]);
    a.or(&b);
    assert_eq!(a.iter_elems(), vec![1, 2, 300]);
}

#[test]
fn dense_and_not_equal_lengths() {
    let mut a: DenseBitmap = filled(&[1, 2, 63, 64, 129]);
    let b: DenseBitmap = filled(&[2, 64, 100, 129]);
    a.and_not(&b);
    assert_eq!(a.iter_elems(), vec![1, 63]);
}

#[test]
fn dense_and_not_different_lengths() {
    let mut a: DenseBitmap = filled(&[1, 2, 500]);
    let b: DenseBitmap = filled(&[2, 70]);
    a.and_not(&b);
    assert_eq!(a.iter_elems(), vec![1, 500]);
    let mut c: DenseBitmap = filled(&[2, 70]);
    let d: DenseBitmap = filled(&[1, 2, 500]);
    c.and_not(&d);
    assert_eq!(c.iter_elems(), vec![70]);
}

#[test]
fn dense_xor_is_symmetric_difference() {
    let mut a: DenseBitmap = filled(&[1, 2, 3]);
    let b: DenseBitmap = filled(&[3, 4, 400]);
    a.xor(&b);
    assert_eq!(a.iter_elems(), vec![1, 2, 4, 400]);
    let mut c: DenseBitmap = filled(&[3, 4, 400]);
    let d: DenseBitmap = filled(&[1, 2, 3]);
    c.xor(&d);
    assert_eq!(c.iter_elems(), vec![1, 2, 4, 400]);
}

#[test]
fn dense_estimate_size_counts_whole_words() {
    let b: DenseBitmap = filled(&[64]);
    assert_eq!(b.estimate_size(), 2 * std::mem::size_of::<usize>());
}

#[test]
fn dense_clone_is_independent_copy() {
    let mut a: DenseBitmap = filled(&[1, 70]);
    let b = a.clone();
    a.add(5);
    assert_eq!(a.iter_elems(), vec![1, 5, 70]);
    assert_eq!(b.iter_elems(), vec![1, 70]);
}

#[test]
fn dense_default_is_empty() {
    let b = DenseBitmap::default();
    assert_eq!(b.count(), 0);
}

#[test]
fn dense_add_is_idempotent() {
    let mut b = DenseBitmap::new();
    b.add(0);
    b.add(0);
    assert_eq!(b.count(), 1);
    assert_eq!(b.iter_elems(), vec![0]);
}

#[test]
fn sparse_estimate_size_is_length_of_serialised_form() {
    let sets: Vec<Vec<u64>> = vec![vec![], vec![1], vec![1, 2, 3, 70_000], (0..5000).collect()];
    for ids in sets.iter() {
        let b: RoaringBitmap = filled(ids);
        let mut bytes: Vec<u8> = Vec::new();
        b.serialize_into(&mut bytes).unwrap();
        assert_eq!(b.estimate_size(), bytes.len());
    }
}

#[test]
fn dense_estimate_size_is_bytes_of_words_in_use() {
    let word = std::mem::size_of::<usize>();
    let bits = 8 * word as u64;
    assert_eq!(DenseBitmap::new().estimate_size(), 0);
    let one: DenseBitmap = filled(&[0]);
    assert_eq!(one.estimate_size(), word);
    let full: DenseBitmap = filled(&[bits - 1]);
    assert_eq!(full.estimate_size(), word);
    let next: DenseBitmap = filled(&[bits]);
    assert_eq!(next.estimate_size(), 2 * word);
    let far: DenseBitmap = filled(&[10 * bits + 3, 2]);
    assert_eq!(far.estimate_size(), 11 * word);
    assert_eq!(far.clone().estimate_size(), 11 * word);
}

#[test]
fn dense_new_holds_no_bits() {
    assert_eq!(DenseBitmap::new().bit_len(), 0);
    assert_eq!(DenseBitmap::default().bit_len(), 0);
}

#[test]
fn dense_add_grows_to_id_plus_one_and_never_shrinks() {
    let mut b = DenseBitmap::new();
    b.add(5);
    assert_eq!(b.bit_len(), 6);
    b.add(2);
    assert_eq!(b.bit_len(), 6);
    assert_eq!(b.iter_elems(), vec![2, 5]);
    b.add(5);
    assert_eq!(b.bit_len(), 6);
    assert_eq!(b.iter_elems(), vec![2, 5]);
}

#[test]
fn dense_or_grows_to_longer_operand() {
    let mut a: DenseBitmap = filled(&[1]);
    let b: DenseBitmap = filled(&[9]);
    a.or(&b);
    assert_eq!(a.bit_len(), 10);
    assert_eq!(a.iter_elems(), vec![1, 9]);
    assert_eq!(b.iter_elems(), vec![9]);
    a.or(&DenseBitmap::new());
    assert_eq!(a.bit_len(), 10);
    assert_eq!(a.iter_elems(), vec![1, 9]);
}

#[test]
fn dense_and_not_keeps_length() {
    let mut a: DenseBitmap = filled(&[0, 3]);
    let b: DenseBitmap = filled(&[3]);
    a.and_not(&b);
    assert_eq!(a.iter_elems(), vec![0]);
    assert_eq!(a.bit_len(), 4);
    let long: DenseBitmap = filled(&[0, 90]);
    a.and_not(&long);
    assert_eq!(a.iter_elems(), Vec::<u64>::new());
    assert_eq!(a.bit_len(), 4);
}

#[test]
fn dense_xor_keeps_length_and_undoes_itself() {
    let mut a: DenseBitmap = filled(&[0, 3]);
    let b: DenseBitmap = filled(&[1, 3]);
    a.xor(&b);
    assert_eq!(a.iter_elems(), vec![0, 1]);
    assert_eq!(a.bit_len(), 4);
    a.xor(&b);
    assert_eq!(a.iter_elems(), vec![0, 3]);
    assert_eq!(a.bit_len(), 4);
    a.xor(&DenseBitmap::new());
    assert_eq!(a.iter_elems(), vec![0, 3]);
    assert_eq!(a.bit_len(), 4);
    let long: DenseBitmap = filled(&[20]);
    a.xor(&long);
    assert_eq!(a.bit_len(), 21);
    assert_eq!(a.iter_elems(), vec![0, 3, 20]);
}

#[test]
fn dense_estimate_size_never_falls_after_add_or_or() {
    let mut a = DenseBitmap::new();
    let mut last = a.estimate_size();
    assert_eq!(last, 0);
    for id in [3u64, 200, 7, 64, 1000, 999] {
        a.add(id);
        assert!(a.estimate_size() >= last);
        last = a.estimate_size();
    }
    let wide: DenseBitmap = filled(&[5000]);
    a.or(&wide);
    assert!(a.estimate_size() >= last);
}

#[test]
fn sparse_clone_is_independent_copy() {
    let mut a: RoaringBitmap = filled(&[1, 70_000]);
    let b = a.clone();
    a.add(5);
    assert_eq!(a.iter_elems(), vec![1, 5, 70_000]);
    assert_eq!(b.iter_elems(), vec![1, 70_000]);
    let c = b.clone();
    assert_eq!(c.estimate_size(), b.estimate_size());
}
