use evremap::util::{
    contains_key, copy_keys, copy_table, distinct_keys, keys_of_set, keys_without, same_keys,
    vec_into_sorted,
};
use std::collections::HashSet;

#[test]
fn sorting_orders_keys() {
    assert_eq!(vec_into_sorted(vec![5, 1, 4, 1, 3]), vec![1, 1, 3, 4, 5]);
    assert_eq!(vec_into_sorted(vec![]), Vec::<u16>::new());
    assert_eq!(vec_into_sorted(vec![65535, 0]), vec![0, 65535]);
}

#[test]
fn distinct_keeps_first_occurrences() {
    assert_eq!(distinct_keys(&vec![3, 1, 3, 2, 1]), vec![3, 1, 2]);
    assert_eq!(distinct_keys(&vec![]), Vec::<u16>::new());
}

#[test]
fn without_drops_the_given_keys() {
    assert_eq!(keys_without(&vec![1, 2, 3, 2], &vec![2, 9]), vec![1, 3]);
    assert_eq!(keys_without(&vec![1, 2], &vec![]), vec![1, 2]);
}

#[test]
fn contains_and_same() {
    assert!(contains_key(&vec![1, 2], 2));
    assert!(!contains_key(&vec![1, 2], 3));
    assert!(same_keys(&vec![1, 2], &vec![1, 2]));
    assert!(!same_keys(&vec![1, 2], &vec![2, 1]));
    assert!(!same_keys(&vec![1, 2], &vec![1]));
}

#[test]
fn copies_are_equal() {
    assert_eq!(copy_keys(&vec![4, 4, 1]), vec![4, 4, 1]);
    let table = vec![(1, vec![2, 3]), (4, vec![])];
    assert_eq!(copy_table(&table), table);
}

#[test]
fn keys_of_a_set_are_its_elements_once() {
    let set = HashSet::from([7, 3, 9]);
    assert_eq!(vec_into_sorted(keys_of_set(&set)), vec![3, 7, 9]);
    assert_eq!(keys_of_set(&HashSet::new()), Vec::<u16>::new());
}
