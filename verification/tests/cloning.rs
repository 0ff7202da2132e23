use bst::Bst;

#[test]
fn clone_displays_as_its_source() {
    let mut tree = Bst::new(5);
    for v in [3, 7, 1, 4] {
        tree.insert(v);
    }
    let copy = tree.clone();
    assert_eq!(copy.display(), tree.display());
    assert_eq!(copy.display(), "1 3 4 5 7");
}

#[test]
fn insert_into_source_leaves_clone_alone() {
    let mut tree = Bst::new(5);
    tree.insert(3);
    let copy = tree.clone();
    assert!(tree.insert(7));
    assert_eq!(tree.display(), "3 5 7");
    assert_eq!(copy.display(), "3 5");
}

#[test]
fn insert_into_clone_leaves_source_alone() {
    let mut tree = Bst::new(5);
    tree.insert(3);
    let mut copy = tree.clone();
    assert!(copy.insert(4));
    assert!(copy.insert(9));
    assert_eq!(copy.display(), "3 4 5 9");
    assert_eq!(tree.display(), "3 5");
    assert!(tree.insert(4));
    assert_eq!(tree.display(), "3 4 5");
    assert_eq!(copy.display(), "3 4 5 9");
}

#[test]
fn clone_outlives_its_source() {
    let copy = {
        let mut tree = Bst::new(String::from("b"));
        tree.insert(String::from("a"));
        tree.clone()
    };
    assert_eq!(copy.display(), "a b");
}

#[test]
fn demo_scenario_prints_both_trees_and_the_values() {
    let mut sample = Bst::new(5);
    sample.insert(3);
    let sample2 = sample.clone();
    sample.insert(7);
    let mut lines = vec![sample.display(), sample2.display()];
    for val in sample.iter() {
        lines.push(format!("{}", val));
    }
    assert_eq!(lines, vec!["3 5 7", "3 5", "3", "5", "7"]);
}
