use bst::Bst;
use std::cmp::Ordering;

#[test]
fn new_node_hangs_at_the_end_of_the_way_down() {
    let mut tree = Bst::new(5);
    tree.insert(3);
    assert_eq!(
        format!("{:?}", tree),
        "Bst { value: 5, left: Some(Bst { value: 3, left: None, right: None }), right: None }"
    );
    tree.insert(4);
    assert_eq!(
        format!("{:?}", tree),
        "Bst { value: 5, left: Some(Bst { value: 3, left: None, right: Some(Bst { value: 4, \
         left: None, right: None }) }), right: None }"
    );
}

#[test]
fn refused_insert_leaves_the_shape_alone() {
    let mut tree = Bst::new(2);
    tree.insert(1);
    tree.insert(3);
    let before = format!("{:?}", tree);
    assert!(!tree.insert(1));
    assert!(!tree.insert(2));
    assert!(!tree.insert(3));
    assert_eq!(format!("{:?}", tree), before);
}

#[test]
fn clone_has_the_shape_of_its_source() {
    let mut tree = Bst::new(8);
    for v in [4, 12, 2, 6, 10, 14] {
        tree.insert(v);
    }
    let copy = tree.clone();
    assert_eq!(format!("{:?}", copy), format!("{:?}", tree));
}

#[test]
fn order_of_insertion_decides_the_shape_not_the_values() {
    let mut one = Bst::new(1);
    one.insert(2);
    one.insert(3);
    let mut other = Bst::new(2);
    other.insert(1);
    other.insert(3);
    assert_ne!(format!("{:?}", one), format!("{:?}", other));
    assert_eq!(one.display(), other.display());
}

/// A value that is compared by its key alone.
#[derive(Debug, Clone)]
struct Keyed {
    key: u8,
    note: &'static str,
}

impl PartialEq for Keyed {
    fn eq(&self, other: &Self) -> bool {
        self.key == other.key
    }
}

impl Eq for Keyed {}

impl PartialOrd for Keyed {
    fn partial_cmp(&self, other: &Self) -> Option<Ordering> {
        Some(self.cmp(other))
    }
}

impl Ord for Keyed {
    fn cmp(&self, other: &Self) -> Ordering {
        self.key.cmp(&other.key)
    }
}

#[test]
fn equivalent_value_is_refused_and_the_first_one_stays() {
    let mut tree = Bst::new(Keyed { key: 2, note: "first two" });
    assert!(tree.insert(Keyed { key: 1, note: "first one" }));
    assert!(!tree.insert(Keyed { key: 1, note: "second one" }));
    assert!(!tree.insert(Keyed { key: 2, note: "second two" }));
    let notes: Vec<&str> = tree.iter().map(|v| v.note).collect();
    assert_eq!(notes, vec!["first one", "first two"]);
}
