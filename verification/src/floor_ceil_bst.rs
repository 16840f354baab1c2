//! Floor and ceiling queries on a binary search tree.

use crate::tree::{contains, height, is_bst, lemma_contains_node, Tree, TreeNode};
use vstd::prelude::*;

verus! {

/// The search for the floor of `x`, started at `t` with `best` the answer so
/// far: at a node equal to `x` it ends with `x`; at a smaller node it keeps
/// that node's value and goes right; at a greater node it goes left.
pub open spec fn floor_search(t: Tree, x: i32, best: Option<i32>) -> Option<i32>
    decreases t,
{
    match t {
        None => best,
        Some(n) => if n.val == x {
            Some(x)
        } else if n.val < x {
            floor_search(n.right, x, Some(n.val))
        } else {
            floor_search(n.left, x, best)
        },
    }
}

/// The search for the ceiling of `x`, the mirror image of `floor_search`.
pub open spec fn ceil_search(t: Tree, x: i32, best: Option<i32>) -> Option<i32>
    decreases t,
{
    match t {
        None => best,
        Some(n) => if n.val == x {
            Some(x)
        } else if n.val < x {
            ceil_search(n.right, x, best)
        } else {
            ceil_search(n.left, x, Some(n.val))
        },
    }
}

/// `r` is the greatest value of `t` that is at most `x`, or nothing if `t`
/// has no such value.
pub open spec fn is_floor(t: Tree, x: i32, r: Option<i32>) -> bool {
    match r {
        Some(f) => f <= x && contains(t, f as int) && forall|v: int|
            contains(t, v) && v <= x ==> v <= f,
        None => forall|v: int| contains(t, v) ==> v > x,
    }
}

/// `r` is the least value of `t` that is at least `x`, or nothing if `t` has
/// no such value.
pub open spec fn is_ceil(t: Tree, x: i32, r: Option<i32>) -> bool {
    match r {
        Some(c) => c >= x && contains(t, c as int) && forall|v: int|
            contains(t, v) && v >= x ==> v >= c,
        None => forall|v: int| contains(t, v) ==> v < x,
    }
}

/// On a search tree the floor search, started with an answer so far that is
/// below `x` and below every value of the tree, ends with the greatest of
/// that answer and the values of the tree that are at most `x`.
proof fn lemma_floor_search(t: Tree, x: i32, best: Option<i32>)
    requires
        is_bst(t),
        best matches Some(b) ==> b < x && forall|v: int| contains(t, v) ==> b < v,
    ensures
        ({
            let r = floor_search(t, x, best);
            match r {
                Some(f) => {
                    &&& f <= x
                    &&& contains(t, f as int) || best == Some(f)
                    &&& forall|v: int| contains(t, v) && v <= x ==> v <= f
                    &&& best matches Some(b) ==> b <= f
                },
                None => best is None && forall|v: int| contains(t, v) ==> v > x,
            }
        }),
    decreases t,
{
    match t {
        None => {
        },
        Some(n) => {
            lemma_contains_node(n);
            if n.val == x {
            } else if n.val < x {
                lemma_floor_search(n.right, x, Some(n.val));
            } else {
                lemma_floor_search(n.left, x, best);
            }
        },
    }
}

proof fn lemma_ceil_search(t: Tree, x: i32, best: Option<i32>)
    requires
        is_bst(t),
        best matches Some(b) ==> b > x && forall|v: int| contains(t, v) ==> b > v,
    ensures
        ({
            let r = ceil_search(t, x, best);
            match r {
                Some(c) => {
                    &&& c >= x
                    &&& contains(t, c as int) || best == Some(c)
                    &&& forall|v: int| contains(t, v) && v >= x ==> v >= c
                    &&& best matches Some(b) ==> b >= c
                },
                None => best is None && forall|v: int| contains(t, v) ==> v < x,
            }
        }),
    decreases t,
{
    match t {
        None => {},
        Some(n) => {
            lemma_contains_node(n);
            if n.val == x {
            } else if n.val < x {
                lemma_ceil_search(n.right, x, best);
            } else {
                lemma_ceil_search(n.left, x, Some(n.val));
            }
        },
    }
}

/// On a search tree, the floor search from the root finds the floor.
pub proof fn lemma_floor_search_finds_floor(t: Tree, x: i32)
    requires
        is_bst(t),
    ensures
        is_floor(t, x, floor_search(t, x, None)),
{
    lemma_floor_search(t, x, None);
}

/// On a search tree, the ceiling search from the root finds the ceiling.
pub proof fn lemma_ceil_search_finds_ceil(t: Tree, x: i32)
    requires
        is_bst(t),
    ensures
        is_ceil(t, x, ceil_search(t, x, None)),
{
    lemma_ceil_search(t, x, None);
}

/// A tree with the given root value and subtrees.
pub fn create_node(val: i32, left: Tree, right: Tree) -> (tree:
    Tree)
    ensures
        tree == Some(Box::new(TreeNode { val, left, right })),
{
    Some(Box::new(TreeNode { val, left, right }))
}

/// The greatest value of the tree that is at most `x`, found by one walk from
/// the root. On a tree that is not a search tree the walk is the same, and
/// the result is what that walk comes to.
pub fn find_floor(root: Tree, x: i32) -> (result: Option<i32>)
    ensures
        result == floor_search(root, x, None),
        is_bst(root) ==> is_floor(root, x, result),
{
    proof {
        if is_bst(root) {
            lemma_floor_search_finds_floor(root, x);
        }
    }
    let mut candidate: Option<i32> = None;
    let mut current = &root;
    loop
        invariant
            floor_search(*current, x, candidate) == floor_search(root, x, None),
            is_bst(root) ==> is_floor(root, x, floor_search(root, x, None)),
        ensures
            candidate == floor_search(root, x, None),
        decreases height(*current),
    {
        match current {
            None => {
                break ;
            },
            Some(node) => {
                if node.val == x {
                    return Some(x);
                } else if node.val < x {
                    candidate = Some(node.val);
                    current = &node.right;
                } else {
                    current = &node.left;
                }
            },
        }
    }
    candidate
}

/// The least value of the tree that is at least `x`, found by one walk from
/// the root. On a tree that is not a search tree the walk is the same, and
/// the result is what that walk comes to.
pub fn find_ceil(root: Tree, x: i32) -> (result: Option<i32>)
    ensures
        result == ceil_search(root, x, None),
        is_bst(root) ==> is_ceil(root, x, result),
{
    proof {
        if is_bst(root) {
            lemma_ceil_search_finds_ceil(root, x);
        }
    }
    let mut candidate: Option<i32> = None;
    let mut current = &root;
    loop
        invariant
            ceil_search(*current, x, candidate) == ceil_search(root, x, None),
            is_bst(root) ==> is_ceil(root, x, ceil_search(root, x, None)),
        ensures
            candidate == ceil_search(root, x, None),
        decreases height(*current),
    {
        match current {
            None => {
                break ;
            },
            Some(node) => {
                if node.val == x {
                    return Some(x);
                } else if node.val < x {
                    current = &node.right;
                } else {
                    candidate = Some(node.val);
                    current = &node.left;
                }
            },
        }
    }
    candidate
}

} // verus!
