//! Binary trees of integers, and what the tree algorithms of this crate say
//! about them.

use vstd::prelude::*;

verus! {

#[derive(Debug, PartialEq, Eq)]
pub struct TreeNode {
    pub val: i32,
    pub left: Option<Box<TreeNode>>,
    pub right: Option<Box<TreeNode>>,
}

/// A tree: nothing, or a root node with two subtrees.
pub type Tree = Option<Box<TreeNode>>;

/// `v` is the value of some node of `t`.
pub open spec fn contains(t: Tree, v: int) -> bool
    decreases t,
{
    match t {
        None => false,
        Some(n) => n.val == v || contains(n.left, v) || contains(n.right, v),
    }
}

/// Number of nodes on the longest path from the root down.
pub open spec fn height(t: Tree) -> nat
    decreases t,
{
    match t {
        None => 0,
        Some(n) => {
            let l = height(n.left);
            let r = height(n.right);
            if l >= r {
                l + 1
            } else {
                r + 1
            }
        },
    }
}

/// Number of nodes.
pub open spec fn size(t: Tree) -> nat
    decreases t,
{
    match t {
        None => 0,
        Some(n) => 1 + size(n.left) + size(n.right),
    }
}

/// The values of the nodes from left to right.
pub open spec fn inorder(t: Tree) -> Seq<i32>
    decreases t,
{
    match t {
        None => Seq::empty(),
        Some(n) => inorder(n.left) + seq![n.val] + inorder(n.right),
    }
}

/// Every node of `t` is greater than all nodes to its left and less than all
/// nodes to its right.
pub open spec fn is_bst(t: Tree) -> bool
    decreases t,
{
    match t {
        None => true,
        Some(n) => {
            &&& is_bst(n.left)
            &&& is_bst(n.right)
            &&& forall|v: int| contains(n.left, v) ==> v < n.val
            &&& forall|v: int| contains(n.right, v) ==> v > n.val
        },
    }
}

/// The values of a tree are its root's value and the values of its subtrees.
pub proof fn lemma_contains_node(n: Box<TreeNode>)
    ensures
        contains(Some(n), n.val as int),
        forall|v: int| #[trigger] contains(n.left, v) ==> contains(Some(n), v),
        forall|v: int| #[trigger] contains(n.right, v) ==> contains(Some(n), v),
        forall|v: int| #[trigger]
            contains(Some(n), v) ==> v == n.val || contains(n.left, v) || contains(n.right, v),
{
    assert forall|v: int| #[trigger] contains(n.left, v) implies contains(Some(n), v) by {}
    assert forall|v: int| #[trigger] contains(n.right, v) implies contains(Some(n), v) by {}
    assert forall|v: int| #[trigger] contains(Some(n), v) implies v == n.val || contains(
        n.left,
        v,
    ) || contains(n.right, v) by {}
}

/// A copy of the tree.
pub fn copy_tree(t: &Tree) -> (copy: Tree)
    ensures
        copy == *t,
    decreases *t,
{
    match t {
        None => None,
        Some(n) => Some(
            Box::new(
                TreeNode { val: n.val, left: copy_tree(&n.left), right: copy_tree(&n.right) },
            ),
        ),
    }
}

impl Clone for TreeNode {
    fn clone(&self) -> (copy: Self)
        ensures
            copy == *self,
    {
        TreeNode { val: self.val, left: copy_tree(&self.left), right: copy_tree(&self.right) }
    }
}

/// The values met from left to right are the values of the tree.
pub proof fn lemma_inorder_contains(t: Tree, v: int)
    ensures
        contains(t, v) <==> exists|i: int|
            0 <= i < inorder(t).len() && #[trigger] inorder(t)[i] == v,
    decreases t,
{
    match t {
        None => {},
        Some(n) => {
            let l = inorder(n.left);
            let r = inorder(n.right);
            let all = inorder(t);
            lemma_inorder_contains(n.left, v);
            lemma_inorder_contains(n.right, v);
            assert(all =~= l + seq![n.val] + r);
            if contains(n.left, v) {
                let i = choose|i: int| 0 <= i < l.len() && #[trigger] l[i] == v;
                assert(all[i] == v);
            }
            if n.val == v {
                assert(all[l.len() as int] == v);
            }
            if contains(n.right, v) {
                let i = choose|i: int| 0 <= i < r.len() && #[trigger] r[i] == v;
                assert(all[l.len() + 1 + i] == v);
            }
            if exists|i: int| 0 <= i < all.len() && #[trigger] all[i] == v {
                let i = choose|i: int| 0 <= i < all.len() && #[trigger] all[i] == v;
                if i < l.len() {
                    assert(l[i] == v);
                } else if i > l.len() {
                    assert(r[i - l.len() - 1] == v);
                }
            }
        },
    }
}

/// The values are in strictly ascending order.
pub open spec fn strictly_ascending(s: Seq<i32>) -> bool {
    forall|i: int, j: int| 0 <= i < j < s.len() ==> s[i] < s[j]
}

/// The values of a search tree, met from left to right, are in strictly
/// ascending order.
pub proof fn lemma_bst_inorder_ascending(t: Tree)
    requires
        is_bst(t),
    ensures
        strictly_ascending(inorder(t)),
    decreases t,
{
    match t {
        None => {},
        Some(n) => {
            let l = inorder(n.left);
            let r = inorder(n.right);
            let all = inorder(t);
            lemma_bst_inorder_ascending(n.left);
            lemma_bst_inorder_ascending(n.right);
            assert(all =~= l + seq![n.val] + r);
            assert forall|i: int, j: int| 0 <= i < j < all.len() implies all[i] < all[j] by {
                if i < l.len() {
                    assert(all[i] == l[i]);
                    lemma_inorder_contains(n.left, l[i] as int);
                } else if i > l.len() {
                    assert(all[i] == r[i - l.len() - 1]);
                }
                if j < l.len() {
                    assert(all[j] == l[j]);
                } else if j > l.len() {
                    assert(all[j] == r[j - l.len() - 1]);
                    lemma_inorder_contains(n.right, r[j - l.len() - 1] as int);
                }
            }
        },
    }
}

impl TreeNode {
    /// A node without children.
    pub fn new(val: i32) -> (node: Self)
        ensures
            node == (TreeNode { val, left: None, right: None }),
    {
        TreeNode { val, left: None, right: None }
    }
}

} // verus!
