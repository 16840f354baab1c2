use algokit::tree::{copy_tree, Tree, TreeNode};
use algokit::tree_similarity::is_similar;

fn leaf(val: i32) -> Tree {
    Some(Box::new(TreeNode::new(val)))
}

#[test]
fn trees_of_different_shape_are_not_similar() {
    let mut t1 = TreeNode::new(50);
    t1.left = leaf(20);
    t1.right = leaf(30);

    let mut t2 = TreeNode::new(50);
    t2.left = leaf(20);

    assert!(!is_similar(&Some(Box::new(t1)), &Some(Box::new(t2))));
}

#[test]
fn values_play_no_part_in_similarity() {
    let mut t1 = TreeNode::new(1);
    t1.left = leaf(2);
    let mut t2 = TreeNode::new(7);
    t2.left = leaf(9);
    assert!(is_similar(&Some(Box::new(t1)), &Some(Box::new(t2))));
}

#[test]
fn mirrored_trees_are_not_similar() {
    let mut t1 = TreeNode::new(1);
    t1.left = leaf(2);
    let mut t2 = TreeNode::new(1);
    t2.right = leaf(2);
    assert!(!is_similar(&Some(Box::new(t1)), &Some(Box::new(t2))));
}

#[test]
fn empty_trees_are_similar() {
    assert!(is_similar(&None, &None));
    assert!(!is_similar(&None, &leaf(1)));
    assert!(!is_similar(&leaf(1), &None));
}

#[test]
fn a_copy_is_equal_and_similar() {
    let mut t = TreeNode::new(1);
    t.left = leaf(2);
    t.right = leaf(3);
    let tree = Some(Box::new(t));
    let copy = copy_tree(&tree);
    assert_eq!(copy, tree);
    assert_eq!(tree.clone(), tree);
    assert!(is_similar(&copy, &tree));
}
