//! Lowest common ancestor of two values in a binary tree.

use crate::tree::{contains, lemma_contains_node, Tree, TreeNode};
use vstd::prelude::*;

verus! {

/// The subtree at which the search for the lowest common ancestor of `p` and
/// `q` ends: a node that holds `p` or `q` ends the search in its subtree; a
/// node with a find on both sides is the answer itself; otherwise the answer
/// is that of the one side that has a find, if any.
pub open spec fn lca_search(t: Tree, p: i32, q: i32) -> Tree
    decreases t,
{
    match t {
        None => None,
        Some(n) => if n.val == p || n.val == q {
            t
        } else {
            let l = lca_search(n.left, p, q);
            let r = lca_search(n.right, p, q);
            if l is Some && r is Some {
                t
            } else if l is Some {
                l
            } else {
                r
            }
        },
    }
}

/// `s` is `t` or the subtree of one of its nodes.
pub open spec fn is_subtree(t: Tree, s: Tree) -> bool
    decreases t,
{
    s == t || match t {
        None => false,
        Some(n) => is_subtree(n.left, s) || is_subtree(n.right, s),
    }
}

/// The search finds a node exactly if one of the two values occurs, and the
/// node it finds is a node of the tree that holds one of them or has one on
/// each side.
pub proof fn lemma_lca_found(t: Tree, p: i32, q: i32)
    ensures
        lca_search(t, p, q) is Some <==> contains(t, p as int) || contains(t, q as int),
        is_subtree(t, lca_search(t, p, q)),
    decreases t,
{
    match t {
        None => {},
        Some(n) => {
            lemma_contains_node(n);
            lemma_lca_found(n.left, p, q);
            lemma_lca_found(n.right, p, q);
        },
    }
}

/// If both values occur in the tree, both occur under the node that the
/// search finds: it is a common ancestor.
pub proof fn lemma_lca_is_common_ancestor(t: Tree, p: i32, q: i32)
    requires
        contains(t, p as int),
        contains(t, q as int),
    ensures
        contains(lca_search(t, p, q), p as int),
        contains(lca_search(t, p, q), q as int),
    decreases t,
{
    match t {
        None => {},
        Some(n) => {
            lemma_contains_node(n);
            if n.val == p || n.val == q {
            } else {
                lemma_lca_found(n.left, p, q);
                lemma_lca_found(n.right, p, q);
                let l = lca_search(n.left, p, q);
                let r = lca_search(n.right, p, q);
                if l is Some && r is Some {
                } else if l is Some {
                    lemma_lca_is_common_ancestor(n.left, p, q);
                } else {
                    lemma_lca_is_common_ancestor(n.right, p, q);
                }
            }
        },
    }
}

/// No value occurs twice in the tree.
pub open spec fn distinct_values(t: Tree) -> bool
    decreases t,
{
    match t {
        None => true,
        Some(n) => {
            &&& distinct_values(n.left)
            &&& distinct_values(n.right)
            &&& !contains(n.left, n.val as int)
            &&& !contains(n.right, n.val as int)
            &&& forall|v: int| !(contains(n.left, v) && contains(n.right, v))
        },
    }
}

/// In a tree in which no value occurs twice and both values occur, neither
/// subtree of the node that the search finds holds both values: the node is
/// the lowest of their common ancestors.
pub proof fn lemma_lca_is_lowest(t: Tree, p: i32, q: i32)
    requires
        distinct_values(t),
        contains(t, p as int),
        contains(t, q as int),
    ensures
        lca_search(t, p, q) matches Some(n) && !(contains(n.left, p as int) && contains(
            n.left,
            q as int,
        )) && !(contains(n.right, p as int) && contains(n.right, q as int)),
    decreases t,
{
    match t {
        None => {},
        Some(n) => {
            lemma_contains_node(n);
            if n.val == p || n.val == q {
            } else {
                lemma_lca_found(n.left, p, q);
                lemma_lca_found(n.right, p, q);
                let l = lca_search(n.left, p, q);
                let r = lca_search(n.right, p, q);
                if l is Some && r is Some {
                } else if l is Some {
                    lemma_lca_is_lowest(n.left, p, q);
                } else {
                    lemma_lca_is_lowest(n.right, p, q);
                }
            }
        },
    }
}

/// `found` is a node under which both values occur, and under neither of
/// whose children both occur.
pub open spec fn is_lowest_common_ancestor(found: Option<&Box<TreeNode>>, p: i32, q: i32) -> bool {
    found matches Some(n) && {
        &&& contains(Some(*n), p as int)
        &&& contains(Some(*n), q as int)
        &&& !(contains(n.left, p as int) && contains(n.left, q as int))
        &&& !(contains(n.right, p as int) && contains(n.right, q as int))
    }
}

/// The node at which the search for the lowest common ancestor of `p_val`
/// and `q_val` ends, if either value occurs in the tree. In a tree in which
/// no value occurs twice and both values occur, it is the lowest node under
/// which both occur.
pub fn find_lca<'a>(root: &'a Tree, p_val: i32, q_val: i32) -> (found: Option<&'a Box<TreeNode>>)
    ensures
        match found {
            Some(node) => lca_search(*root, p_val, q_val) == Some(*node),
            None => lca_search(*root, p_val, q_val) is None,
        },
        found is Some <==> contains(*root, p_val as int) || contains(*root, q_val as int),
        distinct_values(*root) && contains(*root, p_val as int) && contains(*root, q_val as int)
            ==> is_lowest_common_ancestor(found, p_val, q_val),
    decreases *root,
{
    proof {
        lemma_lca_found(*root, p_val, q_val);
        if distinct_values(*root) && contains(*root, p_val as int) && contains(
            *root,
            q_val as int,
        ) {
            lemma_lca_is_common_ancestor(*root, p_val, q_val);
            lemma_lca_is_lowest(*root, p_val, q_val);
        }
    }
    match root {
        None => None,
        Some(node) => {
            let val = node.val;
            if val == p_val || val == q_val {
                return Some(node);
            }
            let left_res = find_lca(&node.left, p_val, q_val);
            let right_res = find_lca(&node.right, p_val, q_val);
            if left_res.is_some() && right_res.is_some() {
                return Some(node);
            }
            if left_res.is_some() {
                return left_res;
            }
            right_res
        },
    }
}

} // verus!
