//! Checking that a binary tree is a search tree, and building trees from
//! their level-order description.

use crate::tree::{contains, is_bst, lemma_contains_node, Tree, TreeNode};
use vstd::prelude::*;

verus! {

/// Every value of `t` lies strictly between the bounds that are given.
pub open spec fn all_between(t: Tree, min: Option<i32>, max: Option<i32>) -> bool {
    forall|v: int| #[trigger]
        contains(t, v) ==> (min matches Some(lo) ==> lo < v) && (max matches Some(hi) ==> v < hi)
}

/// Whether `node` is a search tree whose values lie strictly between the
/// bounds that are given.
pub fn helper(node: &Tree, min: Option<i32>, max: Option<i32>) -> (ok: bool)
    ensures
        ok == (is_bst(*node) && all_between(*node, min, max)),
    decreases *node,
{
    match node {
        None => true,
        Some(n) => {
            let val = n.val;
            proof {
                lemma_contains_node(*n);
            }
            if let Some(min_val) = min {
                if val <= min_val {
                    return false;
                }
            }
            if let Some(max_val) = max {
                if val >= max_val {
                    return false;
                }
            }
            let left_ok = helper(&n.left, min, Some(val));
            if !left_ok {
                return false;
            }
            helper(&n.right, Some(val), max)
        },
    }
}

/// Whether the tree is a search tree: every node greater than all nodes to
/// its left and less than all nodes to its right.
pub fn is_valid_bst(root: Tree) -> (valid: bool)
    ensures
        valid == is_bst(root),
{
    helper(&root, None, None)
}

/// Number of entries among the first `j` of `nodes` that hold a value.
pub open spec fn count_some(nodes: Seq<Option<i32>>, j: int) -> nat
    decreases j,
{
    if j <= 0 {
        0
    } else {
        count_some(nodes, j - 1) + if nodes[j - 1] is Some {
            1nat
        } else {
            0nat
        }
    }
}

/// The description never runs out of nodes to hand children to: before each
/// position after the first, at least half as many values have occurred as
/// there are positions before it.
pub open spec fn well_fed(nodes: Seq<Option<i32>>) -> bool {
    forall|i: int| 1 <= i < nodes.len() ==> i <= 2 * #[trigger] count_some(nodes, i)
}

/// The tree whose root is described at position `j` of a level-order
/// description: the `c`-th value of the description (counting from 0) is a
/// node whose children are described at positions `2c + 1` and `2c + 2`; an
/// empty entry, or a position past the end, is no node. (In a description
/// that is well fed, `2c + 1` is always past `j`.)
pub open spec fn subtree_at(nodes: Seq<Option<i32>>, j: int) -> Tree
    decreases nodes.len() - j,
{
    if 0 <= j < nodes.len() && nodes[j] is Some {
        let c = count_some(nodes, j) as int;
        Some(
            Box::new(
                TreeNode {
                    val: nodes[j]->0,
                    left: if j < 2 * c + 1 < nodes.len() {
                        subtree_at(nodes, 2 * c + 1)
                    } else {
                        None
                    },
                    right: if j < 2 * c + 2 < nodes.len() {
                        subtree_at(nodes, 2 * c + 2)
                    } else {
                        None
                    },
                },
            ),
        )
    } else {
        None
    }
}

/// The count of values grows with the position, by at most one a step.
proof fn lemma_count_some_grows(nodes: Seq<Option<i32>>, i: int, j: int)
    requires
        0 <= i <= j,
    ensures
        count_some(nodes, i) <= count_some(nodes, j) <= count_some(nodes, i) + (j - i),
        count_some(nodes, i) <= i,
    decreases j,
{
    if i < j {
        lemma_count_some_grows(nodes, i, j - 1);
    } else if i > 0 {
        lemma_count_some_grows(nodes, i - 1, i - 1);
    }
}

/// In a description that is well fed, every position up to the end, the end
/// included, has at least half as many values before it as positions.
proof fn lemma_well_fed_at(nodes: Seq<Option<i32>>, j: int)
    requires
        well_fed(nodes),
        0 <= j <= nodes.len(),
        nodes.len() > 0 ==> nodes[0] is Some,
    ensures
        j <= 2 * count_some(nodes, j) + 1,
        j < nodes.len() ==> j <= 2 * count_some(nodes, j),
{
    if j >= 1 && j < nodes.len() {
        assert(j <= 2 * count_some(nodes, j));
    } else if j >= 1 {
        lemma_count_some_grows(nodes, j - 1, j);
        if j - 1 >= 1 {
            assert(j - 1 <= 2 * count_some(nodes, j - 1));
        }
    }
}

/// How many values there are before each position of `nodes`.
fn prefix_counts(nodes: &[Option<i32>]) -> (counts: Vec<usize>)
    ensures
        counts@.len() == nodes@.len(),
        forall|j: int| 0 <= j < counts@.len() ==> #[trigger] counts@[j] == count_some(nodes@, j),
{
    let mut counts: Vec<usize> = Vec::new();
    let mut seen: usize = 0;
    let mut j: usize = 0;
    while j < nodes.len()
        invariant
            j <= nodes@.len(),
            counts@.len() == j,
            seen == count_some(nodes@, j as int),
            seen <= j,
            forall|i: int| 0 <= i < j ==> #[trigger] counts@[i] == count_some(nodes@, i),
        decreases nodes@.len() - j,
    {
        counts.push(seen);
        if nodes[j].is_some() {
            seen += 1;
        }
        j += 1;
    }
    counts
}

/// The tree whose root is described at position `j`.
fn build_from(nodes: &[Option<i32>], counts: &Vec<usize>, j: usize) -> (tree: Tree)
    requires
        well_fed(nodes@),
        nodes@.len() > 0 ==> nodes@[0] is Some,
        counts@.len() == nodes@.len(),
        forall|i: int| 0 <= i < counts@.len() ==> #[trigger] counts@[i] == count_some(nodes@, i),
    ensures
        tree == subtree_at(nodes@, j as int),
    decreases nodes@.len() - j,
{
    proof {
        if j <= nodes@.len() {
            lemma_well_fed_at(nodes@, j as int);
        }
    }
    if j >= nodes.len() {
        return None;
    }
    match nodes[j] {
        None => None,
        Some(val) => {
            let c = counts[j];
            let len = nodes.len();
            proof {
                lemma_count_some_grows(nodes@, j as int, j as int);
            }
            let left = if c < len / 2 {
                build_from(nodes, counts, 2 * c + 1)
            } else {
                None
            };
            let right = if c < (len - 1) / 2 {
                build_from(nodes, counts, 2 * c + 2)
            } else {
                None
            };
            Some(Box::new(TreeNode { val, left, right }))
        },
    }
}

/// Builds a tree from its level-order description: the first entry is the
/// root, and each node, in the order in which the nodes appear, takes the
/// next two entries as its left and right child; an empty entry is a missing
/// child. An empty description, or one whose first entry is empty, gives the
/// empty tree.
pub fn build_tree(nodes: &[Option<i32>]) -> (tree: Tree)
    requires
        nodes@.len() > 0 && nodes@[0] is Some ==> well_fed(nodes@),
    ensures
        nodes@.len() == 0 || nodes@[0] is None ==> tree is None,
        nodes@.len() > 0 && nodes@[0] is Some ==> tree == subtree_at(nodes@, 0),
{
    if nodes.len() == 0 || nodes[0].is_none() {
        return None;
    }
    let counts = prefix_counts(nodes);
    build_from(nodes, &counts, 0)
}

/// Whether the description is well fed.
pub fn is_well_fed(nodes: &[Option<i32>]) -> (fed: bool)
    ensures
        fed == well_fed(nodes@),
{
    let mut seen: usize = 0;
    let mut i: usize = 0;
    while i < nodes.len()
        invariant
            i <= nodes@.len(),
            seen == count_some(nodes@, i as int),
            seen <= i,
            forall|j: int| 1 <= j < i ==> j <= 2 * #[trigger] count_some(nodes@, j),
        decreases nodes@.len() - i,
    {
        if i >= 1 && i - seen > seen {
            return false;
        }
        if nodes[i].is_some() {
            seen += 1;
        }
        i += 1;
    }
    true
}

} // verus!
