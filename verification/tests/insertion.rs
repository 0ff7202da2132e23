use bst::Bst;

fn values(tree: &Bst<i32>) -> Vec<i32> {
    tree.iter().copied().collect()
}

#[test]
fn new_tree_holds_one_value() {
    let tree = Bst::new(5);
    assert_eq!(values(&tree), vec![5]);
}

#[test]
fn insert_reports_new_values() {
    let mut tree = Bst::new(5);
    assert!(tree.insert(3));
    assert!(tree.insert(7));
    assert_eq!(values(&tree), vec![3, 5, 7]);
}

#[test]
fn insert_of_root_value_is_refused() {
    let mut tree = Bst::new(5);
    assert!(!tree.insert(5));
    assert_eq!(values(&tree), vec![5]);
}

#[test]
fn second_insert_is_refused_and_changes_nothing() {
    let mut tree = Bst::new(5);
    assert!(tree.insert(3));
    assert!(tree.insert(8));
    assert!(tree.insert(4));
    let before = values(&tree);
    assert!(!tree.insert(4));
    assert!(!tree.insert(8));
    assert!(!tree.insert(3));
    assert_eq!(values(&tree), before);
    assert_eq!(before, vec![3, 4, 5, 8]);
}

#[test]
fn values_come_out_sorted_and_distinct() {
    let input = [50, 20, 70, 10, 30, 60, 80, 20, 65, 10, 50, 5, 95, 30];
    let mut tree = Bst::new(40);
    let mut expected = vec![40];
    for v in input {
        let fresh = tree.insert(v);
        assert_eq!(fresh, !expected.contains(&v));
        if fresh {
            expected.push(v);
        }
    }
    expected.sort();
    let got = values(&tree);
    assert_eq!(got, expected);
    for pair in got.windows(2) {
        assert!(pair[0] < pair[1]);
    }
}

#[test]
fn ascending_input_degrades_to_a_list_and_stays_sorted() {
    let mut tree = Bst::new(0);
    for v in 1..200 {
        assert!(tree.insert(v));
    }
    assert_eq!(values(&tree), (0..200).collect::<Vec<i32>>());
}

#[test]
fn descending_input_stays_sorted() {
    let mut tree = Bst::new(200);
    for v in (0..200).rev() {
        assert!(tree.insert(v));
    }
    assert_eq!(values(&tree), (0..=200).collect::<Vec<i32>>());
}

#[test]
fn negative_and_extreme_values_take_their_place() {
    let mut tree = Bst::new(0);
    assert!(tree.insert(i32::MAX));
    assert!(tree.insert(i32::MIN));
    assert!(tree.insert(-1));
    assert!(!tree.insert(i32::MIN));
    assert_eq!(values(&tree), vec![i32::MIN, -1, 0, i32::MAX]);
}

#[test]
fn strings_are_ordered_as_strings() {
    let mut tree = Bst::new(String::from("pear"));
    assert!(tree.insert(String::from("apple")));
    assert!(tree.insert(String::from("quince")));
    assert!(tree.insert(String::from("fig")));
    assert!(!tree.insert(String::from("apple")));
    let got: Vec<String> = tree.iter().cloned().collect();
    assert_eq!(got, vec!["apple", "fig", "pear", "quince"]);
}
