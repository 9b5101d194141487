use std::cmp::Ordering;
use taking_game::util::{
    compare_sorted, have_common_element, inverse_permutation, is_subset, union_append,
};

#[test]
fn compare_sorted_takes_the_shorter_first() {
    assert_eq!(compare_sorted(&[9], &[1, 2]), Ordering::Less);
    assert_eq!(compare_sorted(&[1, 2], &[9]), Ordering::Greater);
    assert_eq!(compare_sorted(&[1, 2], &[1, 3]), Ordering::Less);
    assert_eq!(compare_sorted(&[2, 0], &[1, 3]), Ordering::Greater);
    assert_eq!(compare_sorted(&[4, 5, 6], &[4, 5, 6]), Ordering::Equal);
    assert_eq!(compare_sorted(&[], &[]), Ordering::Equal);
}

#[test]
fn inverse_of_a_permutation() {
    assert_eq!(inverse_permutation(vec![2, 0, 3, 1]), vec![1, 3, 0, 2]);
    assert_eq!(inverse_permutation(vec![]), Vec::<usize>::new());
    let p = vec![4, 2, 0, 1, 3];
    let q = inverse_permutation(p.clone());
    for i in 0..p.len() {
        assert_eq!(q[p[i]], i);
    }
}

#[test]
fn subset_of_sorted_lists() {
    assert!(is_subset(&[1, 4], &[0, 1, 2, 4, 9]));
    assert!(!is_subset(&[1, 5], &[0, 1, 2, 4, 9]));
    assert!(!is_subset(&[1, 10], &[0, 1, 2, 4, 9]));
    assert!(is_subset(&[], &[3]));
    assert!(is_subset(&[], &[]));
    assert!(!is_subset(&[3], &[]));
}

#[test]
fn union_is_appended() {
    let mut buff = vec![1, 4, 7];
    union_append(&mut buff, &[0, 4, 5, 9]);
    assert_eq!(buff, vec![1, 4, 7, 0, 1, 4, 5, 7, 9]);
    let mut buff = vec![];
    union_append(&mut buff, &[2, 3]);
    assert_eq!(buff, vec![2, 3]);
    let mut buff = vec![2, 3];
    union_append(&mut buff, &[]);
    assert_eq!(buff, vec![2, 3, 2, 3]);
}

#[test]
fn common_element_of_sorted_lists() {
    assert!(have_common_element(&[1, 4, 9], &[0, 2, 9]));
    assert!(have_common_element(&[5], &[1, 5, 7]));
    assert!(!have_common_element(&[1, 4, 9], &[0, 2, 10]));
    assert!(!have_common_element(&[], &[0, 2]));
    assert!(!have_common_element(&[3], &[]));
}
