use parsort::bitonic::{bitonic_4_seq, bitonic_merge, cmp_exchange, BitonicSorter};
use parsort::sort_utils::is_sorted;

#[test]
fn lecture_example_works() {
    let unsorted = &mut vec![7, 6, 2, 4, 5, 3, 8, 1];

    bitonic_4_seq(unsorted);
    assert_eq!(unsorted, &vec![6, 7, 4, 2, 3, 5, 8, 1]);

    // merging
    bitonic_merge(unsorted, 2);
    assert_eq!(unsorted, &vec![4, 2, 6, 7, 8, 5, 3, 1]);
    bitonic_merge(unsorted, 1);
    assert_eq!(unsorted, &vec![2, 4, 6, 7, 8, 5, 3, 1]);

    // exchanging
    cmp_exchange(unsorted, 4);
    assert_eq!(unsorted, &vec![2, 4, 3, 1, 8, 5, 6, 7]);
    cmp_exchange(unsorted, 2);
    assert_eq!(unsorted, &vec![2, 1, 3, 4, 6, 5, 8, 7]);

    cmp_exchange(unsorted, 1);
    assert_eq!(unsorted, &vec![1, 2, 3, 4, 5, 6, 7, 8]) // is now sorted
}

#[test]
fn lecture_one_shot() {
    let arr = &mut vec![7, 6, 2, 4, 5, 3, 8, 1];
    BitonicSorter.sort(arr);
    assert_eq!(arr, &vec![1, 2, 3, 4, 5, 6, 7, 8])
}

#[test]
fn random_vec() {
    let mut arr: Vec<i32> = (0..16).map(|_| rand::random()).collect();
    BitonicSorter.sort(&mut arr);
    println!("{:?}", arr);
    assert!(is_sorted(&arr));
}

#[test]
fn bitonic_sixteen_exact() {
    let mut arr = vec![0, 0, 1, 1, 0, 0, 1, 1, 0, 0, 0, 0, 0, 0, 0, 0];
    BitonicSorter.sort(&mut arr);
    assert_eq!(arr, vec![0, 0, 0, 0, 0, 0, 0, 0, 0, 0, 0, 0, 1, 1, 1, 1]);
}

#[test]
fn bitonic_thirty_two_sorts() {
    let mut arr: Vec<i32> = (0..32).map(|i| (i * 37 + 11) % 64 - 20).collect();
    BitonicSorter.sort(&mut arr);
    assert!(is_sorted(&arr));
}

#[test]
fn bitonic_random_eight() {
    let mut arr: Vec<i32> = (0..8).map(|_| rand::random()).collect();
    BitonicSorter.sort(&mut arr);
    println!("{:?}", arr);
    assert!(is_sorted(&arr));
}

#[test]
fn bitonic_sixteen_keeps_values() {
    let input: Vec<i32> = (0..16).map(|_| rand::random()).collect();
    let mut by_network = input.clone();
    BitonicSorter.sort(&mut by_network);
    // the network touches nothing but the order of the values
    let mut lhs = by_network.clone();
    let mut rhs = input.clone();
    parsort::even_odd::odd_even_mergesort(&mut lhs);
    parsort::even_odd::odd_even_mergesort(&mut rhs);
    assert_eq!(lhs, rhs);
}

#[test]
fn bitonic_length_one_unchanged() {
    let mut arr = vec![5];
    BitonicSorter.sort(&mut arr);
    assert_eq!(arr, vec![5]);
}

#[test]
fn bitonic_sorted_input_unchanged() {
    let mut arr = vec![1, 2, 3, 4, 5, 6, 7, 8];
    BitonicSorter.sort(&mut arr);
    assert_eq!(arr, vec![1, 2, 3, 4, 5, 6, 7, 8]);

    let mut long: Vec<i32> = (0..16).collect();
    BitonicSorter.sort(&mut long);
    assert_eq!(long, (0..16).collect::<Vec<i32>>());
}

#[test]
fn bitonic_merge_lone_chunk_descends() {
    // a single chunk has index zero, which is not below half of one
    // chunk, so it is merged descending and this input stays put
    let mut arr = vec![3, 4, 1, 2];
    bitonic_merge(&mut arr, 2);
    assert_eq!(arr, vec![3, 4, 1, 2]);
}

#[test]
fn bitonic_merge_odd_chunk_count() {
    // three chunks of two: only the first is below half, so it merges
    // ascending and the two later chunks merge descending
    let mut arr = vec![1, 2, 3, 4, 5, 6];
    bitonic_merge(&mut arr, 1);
    assert_eq!(arr, vec![1, 2, 4, 3, 6, 5]);
}

#[test]
fn bitonic_empty_unchanged() {
    let mut arr: Vec<i32> = vec![];
    BitonicSorter.sort(&mut arr);
    assert_eq!(arr, Vec::<i32>::new());
}

#[test]
fn bitonic_length_two_and_four() {
    let mut two = vec![9, -3];
    BitonicSorter.sort(&mut two);
    assert_eq!(two, vec![-3, 9]);

    let mut four = vec![4, 1, -2, 7];
    BitonicSorter.sort(&mut four);
    assert_eq!(four, vec![-2, 1, 4, 7]);
}
