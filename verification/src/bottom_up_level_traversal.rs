//! Bottom-up level order: the levels of a tree from the deepest to the root,
//! each left to right.

use crate::level_order::{
    children, generation, kids, lemma_descend_step, lemma_generation_height,
    lemma_generation_mirror, lemma_walk_start, lemma_walk_step, level, root_of, roots, total,
};
use crate::tree::{height, Tree, TreeNode};
use std::collections::VecDeque;
use vstd::prelude::*;

verus! {

/// The first `d` levels of the tree from the deepest of them up to the
/// root, each left to right.
pub open spec fn bottom_up_upto(t: Tree, d: nat) -> Seq<i32>
    decreases d,
{
    if d == 0 {
        Seq::empty()
    } else {
        level(t, (d - 1) as nat) + bottom_up_upto(t, (d - 1) as nat)
    }
}

/// The values of the tree in bottom-up level order: all its levels from the
/// deepest up to the root, each left to right.
pub open spec fn bottom_up_order(t: Tree) -> Seq<i32> {
    bottom_up_upto(t, height(t))
}

/// The first `d` levels of the tree from the root down, each right to left.
pub open spec fn top_down_mirrored(t: Tree, d: nat) -> Seq<i32>
    decreases d,
{
    if d == 0 {
        Seq::empty()
    } else {
        top_down_mirrored(t, (d - 1) as nat) + roots(generation(t, (d - 1) as nat, false))
    }
}

/// The levels from the root down, each right to left, are, read backwards,
/// the levels from the deepest up, each left to right.
pub proof fn lemma_mirrored_reversed(t: Tree, d: nat)
    ensures
        top_down_mirrored(t, d).reverse() == bottom_up_upto(t, d),
    decreases d,
{
    if d == 0 {
        assert(top_down_mirrored(t, d).reverse() =~= bottom_up_upto(t, d));
    } else {
        let e = (d - 1) as nat;
        lemma_mirrored_reversed(t, e);
        lemma_generation_mirror(t, e);
        let a = top_down_mirrored(t, e);
        let b = roots(generation(t, e, false));
        assert((a + b).reverse() =~= b.reverse() + a.reverse());
        assert(level(t, e).reverse().reverse() =~= level(t, e));
    }
}

/// The values of the tree in bottom-up level order. The tree is walked
/// breadth first from the root, right child before left, and what the walk
/// met is handed out last to first.
pub fn bottom_up_values(root: Tree) -> (out: Vec<i32>)
    ensures
        out@ == bottom_up_order(root),
{
    let mut out: Vec<i32> = Vec::new();
    let first = match root {
        Some(r) => r,
        None => {
            return out;
        },
    };
    let mut queue: VecDeque<Box<TreeNode>> = VecDeque::new();
    let mut stack: Vec<i32> = Vec::new();
    queue.push_back(first);
    let ghost mut depth: nat = 0;
    let ghost mut i: int = 0;
    let ghost mut cur = queue@;
    proof {
        assert(queue@ =~= root_of(root));
        lemma_walk_start(cur, false);
        assert(stack@ =~= top_down_mirrored(root, 0) + roots(cur.subrange(0, 0)));
    }
    while queue.len() > 0
        invariant
            cur == generation(root, depth, false),
            0 <= i <= cur.len(),
            i < cur.len() || cur.len() == 0,
            queue@ == cur.subrange(i, cur.len() as int) + kids(cur.subrange(0, i), false),
            stack@ == top_down_mirrored(root, depth) + roots(cur.subrange(0, i)),
            depth <= height(root),
        decreases total(queue@),
    {
        let ghost before = queue@;
        let ghost met = stack@;
        proof {
            if cur.len() == 0 {
                assert(cur.subrange(0, i) =~= Seq::<Box<TreeNode>>::empty());
                assert(kids(cur.subrange(0, i), false) =~= Seq::<Box<TreeNode>>::empty());
            }
            lemma_generation_height(root, depth, false);
        }
        if let Some(current) = queue.pop_front() {
            let TreeNode { val, left, right } = *current;
            stack.push(val);
            if let Some(r) = right {
                queue.push_back(r);
            }
            if let Some(l) = left {
                queue.push_back(l);
            }
            proof {
                assert(queue@ =~= before.subrange(1, before.len() as int) + children(
                    before[0],
                    false,
                ));
                lemma_walk_step(cur, i, before, queue@, false);
                assert(stack@ =~= top_down_mirrored(root, depth) + roots(cur.subrange(0, i + 1)));
                i = i + 1;
                if i == cur.len() {
                    lemma_descend_step(root_of(root), depth, false);
                    assert(stack@ == top_down_mirrored(root, depth + 1));
                    depth = depth + 1;
                    cur = queue@;
                    i = 0;
                    lemma_walk_start(cur, false);
                    assert(stack@ =~= top_down_mirrored(root, depth) + roots(cur.subrange(0, 0)));
                }
            }
        }
    }
    proof {
        assert(cur.subrange(0, i) =~= Seq::<Box<TreeNode>>::empty());
        assert(stack@ =~= top_down_mirrored(root, depth));
        lemma_generation_height(root, depth, false);
        lemma_mirrored_reversed(root, depth);
    }
    let ghost met = stack@;
    loop
        invariant
            stack@.len() <= met.len(),
            stack@ == met.subrange(0, stack@.len() as int),
            out@ == met.subrange(stack@.len() as int, met.len() as int).reverse(),
        ensures
            out@ == met.reverse(),
        decreases stack@.len(),
    {
        match stack.pop() {
            Some(val) => {
                out.push(val);
                proof {
                    let k = stack@.len() as int;
                    assert(met.subrange(k, met.len() as int).reverse() =~= met.subrange(
                        k + 1,
                        met.len() as int,
                    ).reverse().push(met[k]));
                }
            },
            None => {
                proof {
                    assert(met.subrange(0, met.len() as int) =~= met);
                }
                break ;
            },
        }
    }
    out
}

} // verus!
