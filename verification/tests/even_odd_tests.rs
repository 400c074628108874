use parsort::even_odd::{left_sample, o_emerge, odd_even_mergesort, right_sample, OddEvenMergeSort};
use parsort::sort_utils::is_sorted;

#[test]
fn left_sample_works() {
    let input = vec![1, 2, 5, 43];
    assert_eq!(left_sample(&input), vec![1, 5]);

    let input = vec![1, 5];
    assert_eq!(left_sample(&input), vec![1]);
}

#[test]
fn right_sample_works() {
    let input = vec![1, 2, 5, 43];
    assert_eq!(right_sample(&input), vec![2, 43]);

    let input = vec![2, 43];
    assert_eq!(right_sample(&input), vec![43]);
}

#[test]
fn merge_works() {
    let input = vec![1, 1, 5, 43];
    let half_way = 2;
    let first_half = input[0..half_way].to_vec();
    let second_half = input[half_way..].to_vec();
    assert_eq!(first_half.len(), 2);
    assert_eq!(second_half.len(), 2);

    let res = o_emerge(&first_half, &second_half);
    assert!(is_sorted(&res));
}

#[test]
fn merge_sort_works() {
    let mut arr = vec![1, 1, 43, 5, 6, 62, 7, 7];
    odd_even_mergesort(&mut arr);
    assert!(is_sorted(&arr));
}

#[test]
fn merge_base_case_min_max() {
    let res = o_emerge(&vec![9], &vec![2]);
    assert_eq!(res, vec![2, 9]);

    let res = o_emerge(&vec![-4], &vec![-4]);
    assert_eq!(res, vec![-4, -4]);
}

#[test]
fn merge_keeps_all_values() {
    let res = o_emerge(&vec![1, 3, 5, 7], &vec![2, 2, 6, 8]);
    assert_eq!(res, vec![1, 2, 2, 3, 5, 6, 7, 8]);
}

#[test]
fn odd_even_sorts_exactly() {
    let mut arr = vec![3, 10, 1, 11, 30, 18, 8, 20];
    odd_even_mergesort(&mut arr);
    assert_eq!(arr, vec![1, 3, 8, 10, 11, 18, 20, 30]);
}

#[test]
fn odd_even_length_one_unchanged() {
    let mut arr = vec![5];
    OddEvenMergeSort.sort(&mut arr);
    assert_eq!(arr, vec![5]);
}

#[test]
fn odd_even_sorted_input_unchanged() {
    let mut arr = vec![-5, -5, 0, 3, 3, 9, 12, 40];
    OddEvenMergeSort.sort(&mut arr);
    assert_eq!(arr, vec![-5, -5, 0, 3, 3, 9, 12, 40]);
}

#[test]
fn odd_even_empty_unchanged() {
    let mut arr: Vec<i32> = vec![];
    OddEvenMergeSort.sort(&mut arr);
    assert_eq!(arr, Vec::<i32>::new());
}

#[test]
fn samples_of_odd_length() {
    let input = vec![1, 2, 3];
    assert_eq!(left_sample(&input), vec![1, 3]);
    assert_eq!(right_sample(&input), vec![2]);
}
