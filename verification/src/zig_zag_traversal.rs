//! Zig-zag traversal: the levels of a tree from the top, alternately left to
//! right and right to left.

use crate::level_order::{
    children, generation, kids, lemma_descend_step, lemma_generation_height, lemma_total_kids,
    lemma_walk_step, level, root_of, roots, total,
};
use crate::tree::{height, Tree, TreeNode};
use std::collections::VecDeque;
use vstd::prelude::*;

verus! {

/// The first `d` levels of the tree, one after the other, the levels of
/// odd depth right to left and the others left to right.
pub open spec fn zig_zag_upto(t: Tree, d: nat) -> Seq<i32>
    decreases d,
{
    if d == 0 {
        Seq::empty()
    } else {
        let depth = (d - 1) as nat;
        zig_zag_upto(t, depth) + if depth % 2 == 1 {
            level(t, depth).reverse()
        } else {
            level(t, depth)
        }
    }
}

/// The values of the tree in zig-zag order: all its levels from the top, the
/// levels of odd depth right to left and the others left to right.
pub open spec fn zig_zag_order(t: Tree) -> Seq<i32> {
    zig_zag_upto(t, height(t))
}

/// The values of the tree in zig-zag order.
pub fn zig_zag(root: Tree) -> (out: Vec<i32>)
    ensures
        out@ == zig_zag_order(root),
{
    let mut out: Vec<i32> = Vec::new();
    let mut queue: VecDeque<Box<TreeNode>> = VecDeque::new();
    let mut level: usize = 0;
    if let Some(node) = root {
        queue.push_back(node);
    }
    let ghost mut depth: nat = 0;
    proof {
        assert(queue@ =~= root_of(root));
    }
    while queue.len() > 0
        invariant
            queue@ == generation(root, depth, true),
            out@ == zig_zag_upto(root, depth),
            level == depth,
            level <= out@.len(),
            depth <= height(root),
        decreases total(queue@),
    {
        let ghost cur = queue@;
        proof {
            lemma_generation_height(root, depth, true);
        }
        let level_size = queue.len();
        let mut level_nodes: Vec<i32> = Vec::new();
        let mut i: usize = 0;
        while i < level_size
            invariant
                i <= level_size,
                level_size == cur.len(),
                queue@ == cur.subrange(i as int, cur.len() as int) + kids(
                    cur.subrange(0, i as int),
                    true,
                ),
                level_nodes@ == roots(cur.subrange(0, i as int)),
            decreases level_size - i,
        {
            let ghost before = queue@;
            if let Some(node) = queue.pop_front() {
                let TreeNode { val, left, right } = *node;
                level_nodes.push(val);
                if let Some(l) = left {
                    queue.push_back(l);
                }
                if let Some(r) = right {
                    queue.push_back(r);
                }
                proof {
                    assert(queue@ =~= before.subrange(1, before.len() as int) + children(
                        cur[i as int],
                        true,
                    ));
                    lemma_walk_step(cur, i as int, before, queue@, true);
                }
            }
            i += 1;
        }
        proof {
            assert(cur.subrange(0, cur.len() as int) =~= cur);
            assert(queue@ =~= kids(cur, true));
            lemma_descend_step(root_of(root), depth, true);
            lemma_total_kids(cur, true);
        }
        if level % 2 == 1 {
            let mut j: usize = level_nodes.len();
            while j > 0
                invariant
                    j <= level_nodes@.len(),
                    out@ == zig_zag_upto(root, depth) + level_nodes@.subrange(
                        j as int,
                        level_nodes@.len() as int,
                    ).reverse(),
                decreases j,
            {
                j -= 1;
                out.push(level_nodes[j]);
                proof {
                    assert(level_nodes@.subrange(j as int, level_nodes@.len() as int).reverse()
                        =~= level_nodes@.subrange(j + 1, level_nodes@.len() as int).reverse().push(
                        level_nodes@[j as int],
                    ));
                }
            }
            proof {
                assert(level_nodes@.subrange(0, level_nodes@.len() as int) =~= level_nodes@);
            }
        } else {
            let mut j: usize = 0;
            while j < level_nodes.len()
                invariant
                    j <= level_nodes@.len(),
                    out@ == zig_zag_upto(root, depth) + level_nodes@.subrange(0, j as int),
                decreases level_nodes@.len() - j,
            {
                out.push(level_nodes[j]);
                j += 1;
                proof {
                    assert(level_nodes@.subrange(0, j as int) =~= level_nodes@.subrange(
                        0,
                        j - 1,
                    ).push(level_nodes@[j - 1]));
                }
            }
            proof {
                assert(level_nodes@.subrange(0, level_nodes@.len() as int) =~= level_nodes@);
            }
        }
        let written = out.len();
        assert(level < written) by {
            assert(level_nodes@.len() == level_size);
        }
        level += 1;
        proof {
            depth = depth + 1;
        }
    }
    proof {
        lemma_generation_height(root, depth, true);
    }
    out
}

} // verus!
