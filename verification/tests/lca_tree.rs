use algokit::lca_tree::find_lca;
use algokit::tree::{Tree, TreeNode};

fn node(val: i32, left: Tree, right: Tree) -> Tree {
    Some(Box::new(TreeNode { val, left, right }))
}

//          3
//        /   \
//       5     1
//      / \   / \
//     6   2 0   8
//        / \
//       7   4
fn example_tree() -> Tree {
    let n2 = node(2, node(7, None, None), node(4, None, None));
    let n5 = node(5, node(6, None, None), n2);
    let n1 = node(1, node(0, None, None), node(8, None, None));
    node(3, n5, n1)
}

#[test]
fn lca_of_values_on_both_sides_is_the_root() {
    let root = example_tree();
    assert_eq!(find_lca(&root, 5, 1).map(|n| n.val), Some(3));
}

#[test]
fn lca_of_a_node_and_its_descendant_is_the_node() {
    let root = example_tree();
    assert_eq!(find_lca(&root, 5, 4).map(|n| n.val), Some(5));
}

#[test]
fn lca_of_two_descendants_is_the_split_point() {
    let root = example_tree();
    assert_eq!(find_lca(&root, 6, 4).map(|n| n.val), Some(5));
    assert_eq!(find_lca(&root, 7, 4).map(|n| n.val), Some(2));
}

#[test]
fn lca_with_one_value_missing_is_the_other_values_node() {
    let root = example_tree();
    assert_eq!(find_lca(&root, 7, 99).map(|n| n.val), Some(7));
}

#[test]
fn lca_with_both_values_missing_is_nothing() {
    let root = example_tree();
    assert!(find_lca(&root, 98, 99).is_none());
    assert!(find_lca(&None, 1, 2).is_none());
}

#[test]
fn lca_returns_the_whole_subtree() {
    let root = example_tree();
    let found = find_lca(&root, 7, 4).unwrap();
    assert_eq!(found.left.as_ref().map(|n| n.val), Some(7));
    assert_eq!(found.right.as_ref().map(|n| n.val), Some(4));
}

#[test]
fn lca_of_a_value_with_itself_is_its_node() {
    let root = example_tree();
    assert_eq!(find_lca(&root, 4, 4).map(|n| n.val), Some(4));
}
