use parsort::sort_utils::{is_pow_2, is_sorted, sort_pair, sort_pairs_of_2, split, split_mut, SortType};

#[test]
fn it_works() {
    assert!(is_sorted(&vec![1, 5, 8, 8, 9]));
    assert!(!is_sorted(&vec![1, 5, 8, 7, 9]));
}

#[test]
fn power_of_two_values() {
    assert!(is_pow_2(0));
    assert!(is_pow_2(1));
    assert!(is_pow_2(2));
    assert!(is_pow_2(8));
    assert!(is_pow_2(1024));
    assert!(!is_pow_2(6));
    assert!(!is_pow_2(3));
    assert!(!is_pow_2(12));
}

#[test]
fn sort_pair_both_directions() {
    let mut a = 9;
    let mut b = 2;
    sort_pair(&mut a, SortType::Greater, &mut b);
    assert_eq!((a, b), (2, 9));

    let mut c = 2;
    let mut d = 9;
    sort_pair(&mut c, SortType::Less, &mut d);
    assert_eq!((c, d), (9, 2));
}

#[test]
fn negated_direction_behaves_as_opposite() {
    let mut a = 2;
    let mut b = 9;
    sort_pair(&mut a, SortType::Greater.neg(), &mut b);
    assert_eq!((a, b), (9, 2));
}

#[test]
fn pairing_phase_scenario() {
    let mut arr = vec![3, 10, 1, 11, 30, 18, 8, 20];
    sort_pairs_of_2(&mut arr, SortType::Greater);
    assert_eq!(arr, vec![3, 10, 1, 11, 18, 30, 8, 20]);
}

#[test]
fn split_halves() {
    let input = vec![1, 2, 3, 4];
    let (first, second) = split(&input);
    assert_eq!(first, vec![1, 2]);
    assert_eq!(second, vec![3, 4]);

    let mut buf = vec![5, 6, 7, 8];
    let tail = split_mut(&mut buf);
    assert_eq!(buf, vec![5, 6]);
    assert_eq!(tail, vec![7, 8]);
}
