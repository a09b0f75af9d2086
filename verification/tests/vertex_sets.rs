use proximity_search::vertex_set::{print_vec, set_to_vec};
use std::collections::HashSet;

#[test]
fn set_to_vec_sorts_the_members() {
    let set: HashSet<usize> = [9, 2, 7, 0, 4, 11, 3].into_iter().collect();
    assert_eq!(set_to_vec(&set), vec![0, 2, 3, 4, 7, 9, 11]);
}

#[test]
fn set_to_vec_of_the_empty_set() {
    let set: HashSet<usize> = HashSet::new();
    assert_eq!(set_to_vec(&set), Vec::<usize>::new());
}

#[test]
fn set_to_vec_does_not_depend_on_insertion_order() {
    let mut a: HashSet<usize> = HashSet::new();
    let mut b: HashSet<usize> = HashSet::new();
    for x in [5, 1, 3, 8] {
        a.insert(x);
    }
    for x in [8, 3, 1, 5] {
        b.insert(x);
    }
    assert_eq!(set_to_vec(&a), set_to_vec(&b));
    assert_eq!(set_to_vec(&a), vec![1, 3, 5, 8]);
}

#[test]
fn print_vec_counts_from_one() {
    assert_eq!(print_vec(&vec![0, 1, 5, 7]), vec![1, 2, 6, 8]);
    assert_eq!(print_vec(&Vec::new()), Vec::<usize>::new());
}
