use algokit::floor_ceil_bst::{create_node, find_ceil, find_floor};
use algokit::tree::TreeNode;

// Example tree:
//       13
//      /  \
//     9    16
//    / \   / \
//   5  10 14  18
fn build_example_tree() -> Option<Box<TreeNode>> {
    let node5 = create_node(5, None, None);
    let node10 = create_node(10, None, None);
    let node14 = create_node(14, None, None);
    let node18 = create_node(18, None, None);

    let node9 = create_node(9, node5, node10);
    let node16 = create_node(16, node14, node18);

    create_node(13, node9, node16)
}

#[test]
fn test_floor_17() {
    let tree = build_example_tree();
    assert_eq!(find_floor(tree, 17), Some(16));
}

#[test]
fn test_ceil_17() {
    let tree = build_example_tree();
    assert_eq!(find_ceil(tree, 17), Some(18));
}

#[test]
fn test_floor_10() {
    let tree = build_example_tree();
    assert_eq!(find_floor(tree, 10), Some(10));
}

#[test]
fn test_ceil_10() {
    let tree = build_example_tree();
    assert_eq!(find_ceil(tree, 10), Some(10));
}

#[test]
fn test_floor_4() {
    let tree = build_example_tree();
    assert_eq!(find_floor(tree, 4), None);
}

#[test]
fn test_ceil_19() {
    let tree = build_example_tree();
    assert_eq!(find_ceil(tree, 19), None);
}

#[test]
fn test_floor_15() {
    let tree = build_example_tree();
    assert_eq!(find_floor(tree, 15), Some(14));
}

#[test]
fn test_ceil_15() {
    let tree = build_example_tree();
    assert_eq!(find_ceil(tree, 15), Some(16));
}

#[test]
fn floor_ceil_bst_test_empty_tree() {
    assert_eq!(find_floor(None, 10), None);
    assert_eq!(find_ceil(None, 10), None);
}

#[test]
fn test_single_node_exact_match() {
    let tree = create_node(10, None, None);
    assert_eq!(find_floor(tree.clone(), 10), Some(10));
    assert_eq!(find_ceil(tree, 10), Some(10));
}

#[test]
fn test_single_node_less_than() {
    let tree = create_node(10, None, None);
    assert_eq!(find_floor(tree.clone(), 5), None);
    assert_eq!(find_ceil(tree, 5), Some(10));
}

#[test]
fn test_single_node_greater_than() {
    let tree = create_node(10, None, None);
    assert_eq!(find_floor(tree.clone(), 15), Some(10));
    assert_eq!(find_ceil(tree, 15), None);
}
