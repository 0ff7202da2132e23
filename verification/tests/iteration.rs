use bst::{Bst, BstIter};

#[test]
fn iterator_starts_at_the_least_value() {
    let mut tree = Bst::new(5);
    tree.insert(8);
    tree.insert(2);
    tree.insert(3);
    tree.insert(1);
    let mut cursor = tree.iter();
    assert_eq!(cursor.next(), Some(&1));
}

#[test]
fn iterator_gives_every_value_once_in_order() {
    let mut tree = Bst::new(5);
    for v in [2, 8, 1, 3, 7, 9, 4, 6] {
        tree.insert(v);
    }
    let mut cursor = tree.iter();
    for expected in 1..=9 {
        assert_eq!(cursor.next(), Some(&expected));
    }
    assert_eq!(cursor.next(), None);
}

#[test]
fn exhausted_iterator_stays_exhausted() {
    let mut tree = Bst::new(5);
    tree.insert(3);
    tree.insert(7);
    let mut cursor = tree.iter();
    assert_eq!(cursor.next(), Some(&3));
    assert_eq!(cursor.next(), Some(&5));
    assert_eq!(cursor.next(), Some(&7));
    for _ in 0..10 {
        assert_eq!(cursor.next(), None);
    }
}

#[test]
fn single_node_iterator_gives_one_value() {
    let tree = Bst::new(42);
    let mut cursor = tree.iter();
    assert_eq!(cursor.next(), Some(&42));
    assert_eq!(cursor.next(), None);
    assert_eq!(cursor.next(), None);
}

#[test]
fn two_iterators_over_one_tree_do_not_disturb_each_other() {
    let mut tree = Bst::new(2);
    tree.insert(1);
    tree.insert(3);
    let mut first = tree.iter();
    let mut second = tree.iter();
    assert_eq!(first.next(), Some(&1));
    assert_eq!(first.next(), Some(&2));
    assert_eq!(second.next(), Some(&1));
    assert_eq!(first.next(), Some(&3));
    assert_eq!(second.next(), Some(&2));
    assert_eq!(first.next(), None);
    assert_eq!(second.next(), Some(&3));
    assert_eq!(second.next(), None);
}

#[test]
fn a_new_iterator_starts_over() {
    let mut tree = Bst::new(2);
    tree.insert(1);
    let mut cursor = tree.iter();
    assert_eq!(cursor.next(), Some(&1));
    assert_eq!(cursor.next(), Some(&2));
    assert_eq!(cursor.next(), None);
    let again: Vec<i32> = tree.iter().copied().collect();
    assert_eq!(again, vec![1, 2]);
}

#[test]
fn iterator_made_by_new_is_the_one_iter_gives() {
    let mut tree = Bst::new(6);
    for v in [3, 9, 4] {
        tree.insert(v);
    }
    let by_new: Vec<i32> = BstIter::new(&tree).copied().collect();
    let by_iter: Vec<i32> = tree.iter().copied().collect();
    assert_eq!(by_new, vec![3, 4, 6, 9]);
    assert_eq!(by_new, by_iter);
}

#[test]
fn iterator_count_is_the_number_of_distinct_values() {
    let mut tree = Bst::new(0);
    for v in [5, 5, -5, 0, 5, -5, 10] {
        tree.insert(v);
    }
    assert_eq!(tree.iter().count(), 4);
}

#[test]
fn zigzag_tree_is_walked_in_order() {
    let mut tree = Bst::new(1);
    for v in [100, 2, 99, 3, 98, 4, 97] {
        tree.insert(v);
    }
    let got: Vec<i32> = tree.iter().copied().collect();
    assert_eq!(got, vec![1, 2, 3, 4, 97, 98, 99, 100]);
}
