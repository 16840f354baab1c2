use algokit::bottom_up_level_traversal::bottom_up_values;
use algokit::max_level_sum_tree::{max_level_sum, try_max_level_sum};
use algokit::tree::{Tree, TreeNode};
use algokit::zig_zag_traversal::zig_zag;
use algokit::zig_zag_traversal_annotated_errors::{
    per_node_alternation, per_node_alternation_root_twice,
};

fn node(val: i32, left: Tree, right: Tree) -> Tree {
    Some(Box::new(TreeNode { val, left, right }))
}

fn leaf(val: i32) -> Tree {
    node(val, None, None)
}

//        3
//      /   \
//     4     7
//    / \   / \
//   5   1 6   8
fn three_levels() -> Tree {
    node(3, node(4, leaf(5), leaf(1)), node(7, leaf(6), leaf(8)))
}

#[test]
fn bottom_up_gives_deepest_level_first() {
    assert_eq!(bottom_up_values(three_levels()), vec![5, 1, 6, 8, 4, 7, 3]);
}

#[test]
fn bottom_up_of_a_lopsided_tree() {
    //     1
    //    /
    //   2
    //    \
    //     3
    let tree = node(1, node(2, None, leaf(3)), None);
    assert_eq!(bottom_up_values(tree), vec![3, 2, 1]);
    assert_eq!(bottom_up_values(None), Vec::<i32>::new());
    assert_eq!(bottom_up_values(leaf(9)), vec![9]);
}

#[test]
fn zig_zag_turns_at_every_level() {
    assert_eq!(zig_zag(three_levels()), vec![3, 7, 4, 5, 1, 6, 8]);
}

#[test]
fn zig_zag_of_four_levels() {
    let tree = node(
        1,
        node(2, node(4, leaf(8), None), leaf(5)),
        node(3, None, node(7, None, leaf(9))),
    );
    assert_eq!(zig_zag(tree), vec![1, 3, 2, 4, 5, 7, 9, 8]);
    assert_eq!(zig_zag(None), Vec::<i32>::new());
}

#[test]
fn per_node_alternation_is_not_zig_zag() {
    assert_eq!(per_node_alternation(three_levels()), vec![3, 7, 4, 6, 8, 1, 5]);
    assert_ne!(per_node_alternation(three_levels()), zig_zag(three_levels()));
}

#[test]
fn per_node_alternation_agrees_with_zig_zag_on_two_levels() {
    let tree = node(3, leaf(4), leaf(7));
    assert_eq!(per_node_alternation(tree.clone()), vec![3, 7, 4]);
    assert_eq!(per_node_alternation(tree.clone()), zig_zag(tree));
}

#[test]
fn root_twice_repeats_the_root() {
    assert_eq!(
        per_node_alternation_root_twice(three_levels()),
        vec![3, 3, 7, 4, 6, 8, 1, 5]
    );
    assert_eq!(per_node_alternation_root_twice(None), Vec::<i32>::new());
}

#[test]
fn max_level_sum_picks_the_heaviest_level() {
    //          8
    //        /   \
    //       3     10
    //      / \      \
    //     1   6      14
    //        / \    /
    //       4   7  13
    let tree = node(
        8,
        node(3, leaf(1), node(6, leaf(4), leaf(7))),
        node(10, None, node(14, leaf(13), None)),
    );
    assert_eq!(max_level_sum(tree), 24);
}

#[test]
fn max_level_sum_of_small_trees() {
    assert_eq!(max_level_sum(leaf(5)), 5);
    assert_eq!(max_level_sum(None), 0);
    assert_eq!(max_level_sum(node(10, node(5, leaf(3), None), None)), 10);
}

#[test]
fn max_level_sum_with_negative_values() {
    //      -5
    //     /  \
    //    2   -3
    //   / \
    //  1   4
    let tree = node(-5, node(2, leaf(1), leaf(4)), leaf(-3));
    assert_eq!(max_level_sum(tree), 5);
}

#[test]
fn max_level_sum_is_never_below_zero() {
    assert_eq!(max_level_sum(node(-1, leaf(-2), None)), 0);
}

#[test]
fn a_level_sum_out_of_range_is_noticed() {
    let tree = node(0, leaf(i32::MAX), leaf(1));
    assert_eq!(try_max_level_sum(tree), None);
    let tree = node(0, leaf(i32::MIN), leaf(-1));
    assert_eq!(try_max_level_sum(tree), None);
    let tree = node(7, leaf(i32::MAX), leaf(-1));
    assert_eq!(try_max_level_sum(tree), Some(i32::MAX - 1));
    assert_eq!(try_max_level_sum(None), Some(0));
}
