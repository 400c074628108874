use parsort::pref_sum_mod::{pref_sum, pref_sum_seq};

#[test]
fn prefix_sum_four_chunks() {
    let mut v = vec![1, 2, 3, 4, 5, 6, 7, 8];
    pref_sum(&mut v, 4);
    assert_eq!(v, vec![1, 3, 6, 10, 15, 21, 28, 36]);
}

#[test]
fn prefix_sum_single_chunk_with_negatives() {
    let mut v = vec![1, 2, -1, 4, -1, 6, -1, 8];
    pref_sum(&mut v, 1);
    assert_eq!(v, vec![1, 3, 2, 6, 5, 11, 10, 18]);
}

#[test]
fn prefix_sum_one_chunk_per_element() {
    let mut v = vec![4, -2, 10, 1];
    pref_sum(&mut v, 4);
    assert_eq!(v, vec![4, 2, 12, 13]);
}

#[test]
fn prefix_sum_seq_with_seed() {
    let mut v = vec![1, 2, 3];
    pref_sum_seq(&mut v, 10);
    assert_eq!(v, vec![11, 13, 16]);
}
