//! Two traversals that are easily taken for the zig-zag order and are not.
//!
//! Both walk the tree breadth first and change the order in which they
//! queue a node's children from one *node* to the next, where the zig-zag
//! order changes direction from one *level* to the next. They are kept, with
//! exact contracts, so that the difference can be stated and tested.

use crate::level_order::{
    children, lemma_total_children, lemma_total_concat, lemma_total_root, root_of, total, Forest,
};
use crate::tree::{size, Tree, TreeNode};
use std::collections::VecDeque;
use vstd::prelude::*;

verus! {

/// The values met by a breadth-first walk of at most `fuel` nodes from the
/// queue `q`, in which the node taken from the queue at an odd step queues
/// its children left before right and the node taken at an even step right
/// before left. The steps are counted from `step`.
pub open spec fn per_node_walk(q: Forest, step: nat, fuel: nat) -> Seq<i32>
    decreases fuel,
{
    if fuel == 0 || q.len() == 0 {
        Seq::empty()
    } else {
        seq![q[0].val] + per_node_walk(
            q.drop_first() + children(q[0], step % 2 == 1),
            step + 1,
            (fuel - 1) as nat,
        )
    }
}

/// The values of the tree in the order of the walk that alternates from
/// node to node, started at the root.
pub open spec fn per_node_order(t: Tree) -> Seq<i32> {
    per_node_walk(root_of(t), 0, size(t))
}

/// Taking the front node from a queue and adding its children leaves one
/// node fewer in and below the queue.
proof fn lemma_one_node_less(before: Forest, left_first: bool)
    requires
        before.len() > 0,
    ensures
        total(before.drop_first() + children(before[0], left_first)) + 1 == total(before),
{
    let node = before[0];
    let rest = before.drop_first();
    assert(before =~= seq![node] + rest);
    lemma_total_concat(seq![node], rest);
    lemma_total_root(Some(node));
    lemma_total_concat(rest, children(node, left_first));
    lemma_total_children(node, left_first);
}

/// The values of the tree in the order of a breadth-first walk that queues
/// the children of every second node left before right and those of the
/// others, the root among them, right before left. On a tree of at most
/// two levels this is the zig-zag order; in general it is not.
pub fn per_node_alternation(root: Tree) -> (out: Vec<i32>)
    ensures
        out@ == per_node_order(root),
{
    let mut out: Vec<i32> = Vec::new();
    let mut queue: VecDeque<Box<TreeNode>> = VecDeque::new();
    let mut level: usize = 0;
    if let Some(node) = root {
        queue.push_back(node);
    }
    proof {
        assert(queue@ =~= root_of(root));
        lemma_total_root(root);
    }
    while queue.len() > 0
        invariant
            level == out@.len(),
            out@ + per_node_walk(queue@, level as nat, total(queue@)) == per_node_order(root),
        decreases total(queue@),
    {
        let ghost before = queue@;
        let ghost met = out@;
        let is_odd = level % 2 == 1;
        proof {
            lemma_one_node_less(before, is_odd);
        }
        if is_odd {
            if let Some(node) = queue.pop_front() {
                let TreeNode { val, left, right } = *node;
                if let Some(l) = left {
                    queue.push_back(l);
                }
                if let Some(r) = right {
                    queue.push_back(r);
                }
                out.push(val);
            }
        } else {
            if let Some(node) = queue.pop_front() {
                let TreeNode { val, left, right } = *node;
                if let Some(r) = right {
                    queue.push_back(r);
                }
                if let Some(l) = left {
                    queue.push_back(l);
                }
                out.push(val);
            }
        }
        proof {
            assert(queue@ =~= before.drop_first() + children(before[0], is_odd));
            let rest = per_node_walk(queue@, (level + 1) as nat, total(queue@));
            assert(per_node_walk(before, level as nat, total(before)) == seq![before[0].val]
                + rest);
            assert(out@ + rest =~= met + (seq![before[0].val] + rest));
        }
        let written = out.len();
        level += 1;
    }
    proof {
        assert(out@ + Seq::<i32>::empty() =~= out@);
    }
    out
}

/// The value of the root, followed by the values of the tree in the order
/// of `per_node_alternation`: the root's value comes twice. Nothing for the
/// empty tree.
pub fn per_node_alternation_root_twice(root: Tree) -> (out: Vec<i32>)
    ensures
        out@ == match root {
            Some(n) => seq![n.val] + per_node_order(root),
            None => Seq::empty(),
        },
{
    let mut result_queue: Vec<i32> = Vec::new();
    if let Some(node) = &root {
        result_queue.push(node.val);
    }
    let rest = per_node_alternation(root);
    let mut i: usize = 0;
    let ghost first = result_queue@;
    while i < rest.len()
        invariant
            i <= rest@.len(),
            result_queue@ == first + rest@.subrange(0, i as int),
        decreases rest@.len() - i,
    {
        result_queue.push(rest[i]);
        i += 1;
        proof {
            assert(rest@.subrange(0, i as int) =~= rest@.subrange(0, i - 1).push(rest@[i - 1]));
        }
    }
    proof {
        assert(rest@.subrange(0, rest@.len() as int) =~= rest@);
        if root is None {
            assert(per_node_order(root) =~= Seq::<i32>::empty());
            assert(result_queue@ =~= Seq::<i32>::empty());
        }
    }
    result_queue
}

} // verus!
