use algokit::bst_validation::{build_tree, helper, is_valid_bst, is_well_fed};
use algokit::tree::{Tree, TreeNode};

// Valid BST:
//        50
//       /  \
//      30   70
//     / \   / \
//    20 40 60 80
#[test]
fn test_valid_bst_full() {
    let tree = build_tree(&[
        Some(50),
        Some(30),
        Some(70),
        Some(20),
        Some(40),
        Some(60),
        Some(80),
    ]);
    assert!(is_valid_bst(tree));
}

// Invalid BST (right child 25 < root 50):
//        50
//       /  \
//      30   25
#[test]
fn test_invalid_right_child_less_than_root() {
    let tree = build_tree(&[Some(50), Some(30), Some(25)]);
    assert!(!is_valid_bst(tree));
}

// Invalid BST (left child 60 > root 50):
//        50
//       /  \
//      60   70
#[test]
fn test_invalid_left_child_greater_than_root() {
    let tree = build_tree(&[Some(50), Some(60), Some(70)]);
    assert!(!is_valid_bst(tree));
}

#[test]
fn main_test_single_node() {
    let tree = build_tree(&[Some(42)]);
    assert!(is_valid_bst(tree));
}

#[test]
fn main_test_empty_tree() {
    let tree: Tree = None;
    assert!(is_valid_bst(tree));
}

#[test]
fn test_min_value_node() {
    let tree = build_tree(&[Some(i32::MIN)]);
    assert!(is_valid_bst(tree));
}

#[test]
fn test_max_value_node() {
    let tree = build_tree(&[Some(i32::MAX)]);
    assert!(is_valid_bst(tree));
}

// Looks valid locally but violates an ancestor's bound:
//        50
//       /
//      30
//        \
//         60
#[test]
fn test_violates_ancestor_bound() {
    let mut root = TreeNode::new(50);
    let mut left = TreeNode::new(30);
    let left_right = TreeNode::new(60);
    left.right = Some(Box::new(left_right));
    root.left = Some(Box::new(left));
    assert!(!is_valid_bst(Some(Box::new(root))));
}

#[test]
fn build_tree_lays_out_level_order() {
    let tree = build_tree(&[Some(1), None, Some(3), Some(4), Some(5)]);
    let mut three = TreeNode::new(3);
    three.left = Some(Box::new(TreeNode::new(4)));
    three.right = Some(Box::new(TreeNode::new(5)));
    let mut one = TreeNode::new(1);
    one.right = Some(Box::new(three));
    assert_eq!(tree, Some(Box::new(one)));
}

#[test]
fn build_tree_of_nothing_is_empty() {
    assert_eq!(build_tree(&[]), None);
    assert_eq!(build_tree(&[None, Some(1)]), None);
}

#[test]
fn equal_values_are_not_a_search_tree() {
    assert!(!is_valid_bst(build_tree(&[Some(5), Some(5)])));
    assert!(!is_valid_bst(build_tree(&[Some(5), None, Some(5)])));
}

#[test]
fn helper_respects_bounds() {
    let tree = build_tree(&[Some(10), Some(5), Some(15)]);
    assert!(helper(&tree, Some(4), Some(16)));
    assert!(!helper(&tree, Some(5), None));
    assert!(!helper(&tree, None, Some(15)));
}

#[test]
fn descriptions_that_run_out_of_nodes_are_not_well_fed() {
    assert!(is_well_fed(&[]));
    assert!(is_well_fed(&[Some(1), None, Some(3), Some(4), Some(5)]));
    assert!(is_well_fed(&[Some(1), None, None]));
    // after the root's two empty children no node is left to take the 5
    assert!(!is_well_fed(&[Some(1), None, None, Some(5)]));
}
