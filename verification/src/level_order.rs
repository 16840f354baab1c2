//! The levels of a binary tree: what a breadth-first traversal meets.
//!
//! A forest is a sequence of nodes. The children of a forest are the
//! children of its nodes, in the order of the nodes; within one node either
//! left before right or right before left. The `d`-th generation of a tree
//! is what is reached from its root by going to the children `d` times: the
//! nodes of depth `d`, left to right or right to left.

use crate::tree::{height, size, Tree, TreeNode};
use vstd::prelude::*;

verus! {

/// A sequence of nodes, each with the subtree below it.
pub type Forest = Seq<Box<TreeNode>>;

/// The forest of the root of a tree: one node, or none.
pub open spec fn root_of(t: Tree) -> Forest {
    match t {
        Some(n) => seq![n],
        None => Seq::empty(),
    }
}

/// The children of one node: left before right if `left_first`, else right
/// before left.
pub open spec fn children(n: Box<TreeNode>, left_first: bool) -> Forest {
    if left_first {
        root_of(n.left) + root_of(n.right)
    } else {
        root_of(n.right) + root_of(n.left)
    }
}

/// The children of the nodes of a forest, in the order of their parents.
pub open spec fn kids(q: Forest, left_first: bool) -> Forest
    decreases q.len(),
{
    if q.len() == 0 {
        Seq::empty()
    } else {
        kids(q.drop_last(), left_first) + children(q.last(), left_first)
    }
}

/// The values of the nodes of a forest.
pub open spec fn roots(q: Forest) -> Seq<i32> {
    q.map_values(|n: Box<TreeNode>| n.val)
}

/// What is reached from a forest by going to the children `d` times.
pub open spec fn descend(q: Forest, d: nat, left_first: bool) -> Forest
    decreases d,
{
    if d == 0 {
        q
    } else {
        descend(kids(q, left_first), (d - 1) as nat, left_first)
    }
}

/// The nodes of depth `d` of a tree: left to right if `left_first`, else
/// right to left.
pub open spec fn generation(t: Tree, d: nat, left_first: bool) -> Forest {
    descend(root_of(t), d, left_first)
}

/// The values of depth `d` of a tree, left to right.
pub open spec fn level(t: Tree, d: nat) -> Seq<i32> {
    roots(generation(t, d, true))
}

/// The number of nodes in and below a forest.
pub open spec fn total(q: Forest) -> nat
    decreases q.len(),
{
    if q.len() == 0 {
        0
    } else {
        total(q.drop_last()) + size(Some(q.last()))
    }
}

/// The children of a forest with one more node are the children of the
/// forest, then those of the node.
pub proof fn lemma_kids_push(q: Forest, n: Box<TreeNode>, left_first: bool)
    ensures
        kids(q.push(n), left_first) == kids(q, left_first) + children(n, left_first),
{
    assert(q.push(n).drop_last() =~= q);
}

/// The children of two forests one after the other are the children of the
/// first, then those of the second.
pub proof fn lemma_kids_concat(a: Forest, b: Forest, left_first: bool)
    ensures
        kids(a + b, left_first) == kids(a, left_first) + kids(b, left_first),
    decreases b.len(),
{
    if b.len() == 0 {
        assert(a + b =~= a);
        assert(kids(a, left_first) + kids(b, left_first) =~= kids(a, left_first));
    } else {
        lemma_kids_concat(a, b.drop_last(), left_first);
        assert((a + b).drop_last() =~= a + b.drop_last());
        assert(kids(a + b, left_first) =~= kids(a, left_first) + kids(b, left_first));
    }
}

/// The nodes in and below the root of a tree are the nodes of the tree.
pub proof fn lemma_total_root(t: Tree)
    ensures
        total(root_of(t)) == size(t),
{
    match t {
        None => {},
        Some(n) => {
            assert(root_of(t).drop_last() =~= Seq::<Box<TreeNode>>::empty());
            assert(root_of(t).last() == n);
            assert(total(root_of(t).drop_last()) == 0);
        },
    }
}

/// Two forests one after the other hold the nodes of both.
pub proof fn lemma_total_concat(a: Forest, b: Forest)
    ensures
        total(a + b) == total(a) + total(b),
    decreases b.len(),
{
    if b.len() == 0 {
        assert(a + b =~= a);
    } else {
        lemma_total_concat(a, b.drop_last());
        assert((a + b).drop_last() =~= a + b.drop_last());
    }
}

/// Below a node there is one node fewer than in and below it.
pub proof fn lemma_total_children(n: Box<TreeNode>, left_first: bool)
    ensures
        total(children(n, left_first)) + 1 == size(Some(n)),
{
    lemma_total_concat(root_of(n.left), root_of(n.right));
    lemma_total_concat(root_of(n.right), root_of(n.left));
    lemma_total_root(n.left);
    lemma_total_root(n.right);
}

/// A forest holds as many nodes as its own and those in and below its
/// children.
pub proof fn lemma_total_kids(q: Forest, left_first: bool)
    ensures
        total(q) == q.len() + total(kids(q, left_first)),
    decreases q.len(),
{
    if q.len() > 0 {
        let n = q.last();
        lemma_total_kids(q.drop_last(), left_first);
        lemma_total_concat(kids(q.drop_last(), left_first), children(n, left_first));
        lemma_total_children(n, left_first);
    }
}

/// Below an empty forest there is nothing.
pub proof fn lemma_descend_empty(d: nat, left_first: bool)
    ensures
        descend(Seq::empty(), d, left_first) == Seq::<Box<TreeNode>>::empty(),
    decreases d,
{
    if d > 0 {
        lemma_descend_empty((d - 1) as nat, left_first);
    }
}

/// Going down `d` times and then once more is going down `d + 1` times.
pub proof fn lemma_descend_step(q: Forest, d: nat, left_first: bool)
    ensures
        descend(q, d + 1, left_first) == kids(descend(q, d, left_first), left_first),
    decreases d,
{
    assert(descend(q, d + 1, left_first) == descend(kids(q, left_first), d, left_first));
    if d > 0 {
        lemma_descend_step(kids(q, left_first), (d - 1) as nat, left_first);
        assert(descend(q, d, left_first) == descend(
            kids(q, left_first),
            (d - 1) as nat,
            left_first,
        ));
    } else {
        assert(descend(kids(q, left_first), 0, left_first) == kids(q, left_first));
    }
}

/// Going down from two forests one after the other is going down from
/// each.
pub proof fn lemma_descend_concat(a: Forest, b: Forest, d: nat, left_first: bool)
    ensures
        descend(a + b, d, left_first) == descend(a, d, left_first) + descend(b, d, left_first),
    decreases d,
{
    if d > 0 {
        lemma_kids_concat(a, b, left_first);
        lemma_descend_concat(kids(a, left_first), kids(b, left_first), (d - 1) as nat, left_first);
    }
}

/// The nodes of depth `d + 1` under a node are the nodes of depth `d` of its
/// two subtrees, in the order of the direction.
pub proof fn lemma_generation_node(n: Box<TreeNode>, d: nat, left_first: bool)
    ensures
        generation(Some(n), 0, left_first) == seq![n],
        generation(Some(n), d + 1, left_first) == if left_first {
            generation(n.left, d, left_first) + generation(n.right, d, left_first)
        } else {
            generation(n.right, d, left_first) + generation(n.left, d, left_first)
        },
{
    let q = seq![n];
    assert(q.drop_last() =~= Seq::<Box<TreeNode>>::empty());
    assert(kids(q.drop_last(), left_first) =~= Seq::<Box<TreeNode>>::empty());
    assert(kids(q, left_first) =~= children(n, left_first));
    assert(descend(q, d + 1, left_first) == descend(kids(q, left_first), d, left_first));
    lemma_descend_concat(root_of(n.left), root_of(n.right), d, left_first);
    lemma_descend_concat(root_of(n.right), root_of(n.left), d, left_first);
}

/// The levels of a tree, told by its shape: the empty tree has no values at
/// any depth; a node's value is the one value of depth 0, and the values of
/// depth `d + 1` are those of depth `d` of its left subtree, then those of
/// its right subtree.
pub proof fn lemma_level_by_shape(t: Tree, d: nat)
    ensures
        t is None ==> level(t, d) == Seq::<i32>::empty(),
        t matches Some(n) ==> level(t, 0) == seq![n.val] && level(t, d + 1) == level(n.left, d)
            + level(n.right, d),
{
    match t {
        None => {
            lemma_descend_empty(d, true);
            assert(roots(Seq::empty()) =~= Seq::<i32>::empty());
        },
        Some(n) => {
            lemma_generation_node(n, d, true);
            assert(roots(seq![n]) =~= seq![n.val]);
            assert(roots(generation(n.left, d, true) + generation(n.right, d, true)) =~= roots(
                generation(n.left, d, true),
            ) + roots(generation(n.right, d, true)));
        },
    }
}

/// A tree has nodes of depth `d` exactly if `d` is less than its height.
pub proof fn lemma_generation_height(t: Tree, d: nat, left_first: bool)
    ensures
        generation(t, d, left_first).len() == 0 <==> d >= height(t),
    decreases t,
{
    match t {
        None => {
            lemma_descend_empty(d, left_first);
        },
        Some(n) => {
            if d > 0 {
                lemma_generation_node(n, (d - 1) as nat, left_first);
                lemma_generation_height(n.left, (d - 1) as nat, left_first);
                lemma_generation_height(n.right, (d - 1) as nat, left_first);
            }
        },
    }
}

/// The nodes of one depth right to left are those left to right, reversed.
pub proof fn lemma_generation_mirror(t: Tree, d: nat)
    ensures
        generation(t, d, false) == generation(t, d, true).reverse(),
        roots(generation(t, d, false)) == level(t, d).reverse(),
    decreases t,
{
    match t {
        None => {
            lemma_descend_empty(d, true);
            lemma_descend_empty(d, false);
            assert(generation(t, d, false) =~= generation(t, d, true).reverse());
        },
        Some(n) => {
            if d > 0 {
                let e = (d - 1) as nat;
                lemma_generation_node(n, e, true);
                lemma_generation_node(n, e, false);
                lemma_generation_mirror(n.left, e);
                lemma_generation_mirror(n.right, e);
                assert(generation(t, d, false) =~= generation(t, d, true).reverse());
            } else {
                assert(generation(t, d, false) =~= generation(t, d, true).reverse());
            }
        },
    }
    assert(roots(generation(t, d, true).reverse()) =~= roots(generation(t, d, true)).reverse());
}

/// One step of a breadth-first walk that is `i` nodes into the forest `cur`:
/// the front of the queue is the next node of `cur`; once it has left and
/// its children have joined at the back, the walk is `i + 1` nodes into
/// `cur`, and the queue holds one node fewer in all.
pub proof fn lemma_walk_step(cur: Forest, i: int, before: Forest, after: Forest, left_first: bool)
    requires
        0 <= i < cur.len(),
        before == cur.subrange(i, cur.len() as int) + kids(cur.subrange(0, i), left_first),
        after == before.subrange(1, before.len() as int) + children(cur[i], left_first),
    ensures
        before[0] == cur[i],
        after == cur.subrange(i + 1, cur.len() as int) + kids(cur.subrange(0, i + 1), left_first),
        roots(cur.subrange(0, i + 1)) == roots(cur.subrange(0, i)).push(cur[i].val),
        total(after) < total(before),
        i + 1 == cur.len() ==> after == kids(cur, left_first) && cur.subrange(0, i + 1) == cur,
{
    let node = cur[i];
    let rest = before.subrange(1, before.len() as int);
    lemma_kids_push(cur.subrange(0, i), node, left_first);
    assert(cur.subrange(0, i + 1) =~= cur.subrange(0, i).push(node));
    assert(after =~= cur.subrange(i + 1, cur.len() as int) + kids(
        cur.subrange(0, i + 1),
        left_first,
    ));
    assert(roots(cur.subrange(0, i + 1)) =~= roots(cur.subrange(0, i)).push(node.val));
    assert(before =~= seq![node] + rest);
    lemma_total_concat(seq![node], rest);
    lemma_total_root(Some(node));
    lemma_total_concat(rest, children(node, left_first));
    lemma_total_children(node, left_first);
    if i + 1 == cur.len() {
        assert(cur.subrange(0, i + 1) =~= cur);
        assert(cur.subrange(i + 1, cur.len() as int) =~= Seq::<Box<TreeNode>>::empty());
        assert(after =~= kids(cur, left_first));
    }
}

/// A walk that has not started on the forest `cur` has all of `cur` in its
/// queue.
pub proof fn lemma_walk_start(cur: Forest, left_first: bool)
    ensures
        cur == cur.subrange(0, cur.len() as int) + kids(cur.subrange(0, 0), left_first),
        roots(cur.subrange(0, 0)) == Seq::<i32>::empty(),
{
    assert(cur.subrange(0, cur.len() as int) =~= cur);
    assert(kids(cur.subrange(0, 0), left_first) =~= Seq::<Box<TreeNode>>::empty());
    assert(cur =~= cur.subrange(0, cur.len() as int) + kids(cur.subrange(0, 0), left_first));
    assert(roots(cur.subrange(0, 0)) =~= Seq::<i32>::empty());
}

} // verus!
