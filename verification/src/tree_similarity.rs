//! Comparing the shapes of two binary trees.

use crate::tree::Tree;
use vstd::prelude::*;

verus! {

/// The two trees have the same shape: both are empty, or both have a root
/// and their left subtrees and their right subtrees have the same shape.
/// The values play no part.
pub open spec fn same_shape(t1: Tree, t2: Tree) -> bool
    decreases t1,
{
    match (t1, t2) {
        (None, None) => true,
        (Some(n1), Some(n2)) => same_shape(n1.left, n2.left) && same_shape(n1.right, n2.right),
        _ => false,
    }
}

/// Whether the two trees have the same shape.
pub fn is_similar(t1: &Tree, t2: &Tree) -> (similar: bool)
    ensures
        similar == same_shape(*t1, *t2),
    decreases *t1,
{
    match (t1, t2) {
        (None, None) => true,
        (Some(n1), Some(n2)) => {
            is_similar(&n1.left, &n2.left) && is_similar(&n1.right, &n2.right)
        },
        _ => false,
    }
}

/// Having the same shape is reflexive.
pub proof fn lemma_same_shape_reflexive(t: Tree)
    ensures
        same_shape(t, t),
    decreases t,
{
    match t {
        None => {},
        Some(n) => {
            lemma_same_shape_reflexive(n.left);
            lemma_same_shape_reflexive(n.right);
        },
    }
}

/// Having the same shape is symmetric.
pub proof fn lemma_same_shape_symmetric(t1: Tree, t2: Tree)
    ensures
        same_shape(t1, t2) == same_shape(t2, t1),
    decreases t1,
{
    match (t1, t2) {
        (Some(n1), Some(n2)) => {
            lemma_same_shape_symmetric(n1.left, n2.left);
            lemma_same_shape_symmetric(n1.right, n2.right);
        },
        _ => {},
    }
}

} // verus!
