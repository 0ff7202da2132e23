use bst::render::frame;
use bst::Bst;

#[test]
fn single_node_displays_as_its_value() {
    assert_eq!(Bst::new(5).display(), "5");
}

#[test]
fn display_grows_with_the_tree() {
    let mut tree = Bst::new(5);
    assert_eq!(tree.display(), "5");
    tree.insert(3);
    assert_eq!(tree.display(), "3 5");
    tree.insert(7);
    assert_eq!(tree.display(), "3 5 7");
}

#[test]
fn display_has_no_space_at_either_end() {
    let mut tree = Bst::new(10);
    for v in [4, 15, 2, 6, 12, 20, 5] {
        tree.insert(v);
    }
    let text = tree.display();
    assert_eq!(text, "2 4 5 6 10 12 15 20");
    assert!(!text.starts_with(' '));
    assert!(!text.ends_with(' '));
    assert!(!text.contains("  "));
}

#[test]
fn display_of_right_only_and_left_only_trees() {
    let mut right = Bst::new(1);
    right.insert(2);
    assert_eq!(right.display(), "1 2");
    let mut left = Bst::new(2);
    left.insert(1);
    assert_eq!(left.display(), "1 2");
}

#[test]
fn display_uses_the_text_of_each_value() {
    let mut tree = Bst::new(String::from("m"));
    tree.insert(String::from("b"));
    tree.insert(String::from("x"));
    assert_eq!(tree.display(), "b m x");
    let mut signed = Bst::new(0);
    signed.insert(-12);
    assert_eq!(signed.display(), "-12 0");
}

#[test]
fn frame_of_a_leaf_is_the_value() {
    assert_eq!(frame(None, String::from("5"), None), "5");
}

#[test]
fn frame_puts_one_space_towards_each_subtree() {
    let l = || Some(String::from("3"));
    let r = || Some(String::from("7 9"));
    assert_eq!(frame(l(), String::from("5"), None), "3 5");
    assert_eq!(frame(None, String::from("5"), r()), "5 7 9");
    assert_eq!(frame(l(), String::from("5"), r()), "3 5 7 9");
}

#[test]
fn frame_keeps_empty_texts() {
    assert_eq!(frame(Some(String::new()), String::new(), Some(String::new())), "  ");
}
