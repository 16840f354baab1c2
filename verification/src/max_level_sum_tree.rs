//! The greatest sum of the values of one level of a binary tree.

use crate::level_order::{
    generation, kids, lemma_descend_step, lemma_generation_height, lemma_kids_push,
    lemma_total_kids, level, root_of, roots, total,
};
use crate::tree::{height, Tree, TreeNode};
use std::collections::VecDeque;
use vstd::prelude::*;

verus! {

/// The sum of the values.
pub open spec fn sum(s: Seq<i32>) -> int
    decreases s.len(),
{
    if s.len() == 0 {
        0
    } else {
        sum(s.drop_last()) + s.last()
    }
}

/// The greatest of 0 and the sums of the first `d` levels of the tree.
pub open spec fn best_level_sum(t: Tree, d: nat) -> int
    decreases d,
{
    if d == 0 {
        0
    } else {
        let before = best_level_sum(t, (d - 1) as nat);
        let here = sum(level(t, (d - 1) as nat));
        if here > before {
            here
        } else {
            before
        }
    }
}

/// Adding up any level of the tree, left to right, never leaves the range
/// of `i32`.
pub open spec fn level_sums_fit(t: Tree) -> bool {
    forall|d: nat, k: int|
        0 <= k <= level(t, d).len() ==> i32::MIN <= #[trigger] sum(level(t, d).take(k))
            <= i32::MAX
}

/// The result is at least 0 and at least the sum of every one of the first
/// `d` levels, and it is 0 or the sum of one of them.
pub proof fn lemma_best_level_sum(t: Tree, d: nat)
    ensures
        best_level_sum(t, d) >= 0,
        forall|e: nat| e < d ==> #[trigger] sum(level(t, e)) <= best_level_sum(t, d),
        best_level_sum(t, d) == 0 || exists|e: nat|
            e < d && #[trigger] sum(level(t, e)) == best_level_sum(t, d),
    decreases d,
{
    if d > 0 {
        let p = (d - 1) as nat;
        lemma_best_level_sum(t, p);
        if best_level_sum(t, d) != 0 {
            if best_level_sum(t, d) == best_level_sum(t, p) {
                let e = choose|e: nat| e < p && #[trigger] sum(level(t, e)) == best_level_sum(t, p);
                assert(e < d && sum(level(t, e)) == best_level_sum(t, d));
            } else {
                assert(p < d && sum(level(t, p)) == best_level_sum(t, d));
            }
        }
    }
}

/// The greatest sum of the values of one level of the tree, or 0 if no
/// level has a positive sum; 0 for the empty tree.
pub fn max_level_sum(root: Tree) -> (best: i32)
    requires
        level_sums_fit(root),
    ensures
        best == best_level_sum(root, height(root)),
{
    let mut max_level_sum: i32 = 0;
    let mut queue: VecDeque<Box<TreeNode>> = VecDeque::new();
    match root {
        None => {
            return max_level_sum;
        },
        Some(node) => {
            queue.push_back(node);
            let ghost mut depth: nat = 0;
            proof {
                assert(queue@ =~= root_of(root));
            }
            while queue.len() > 0
                invariant
                    level_sums_fit(root),
                    queue@ == generation(root, depth, true),
                    max_level_sum == best_level_sum(root, depth),
                    depth <= height(root),
                decreases total(queue@),
            {
                let ghost cur = queue@;
                proof {
                    lemma_generation_height(root, depth, true);
                }
                let mut current_sum: i32 = 0;
                let level_size: usize = queue.len();
                let mut i: usize = 0;
                while i < level_size
                    invariant
                        level_sums_fit(root),
                        cur == generation(root, depth, true),
                        i <= level_size,
                        level_size == cur.len(),
                        queue@ == cur.subrange(i as int, cur.len() as int) + kids(
                            cur.subrange(0, i as int),
                            true,
                        ),
                        current_sum == sum(roots(cur).take(i as int)),
                    decreases level_size - i,
                {
                    if let Some(node) = queue.pop_front() {
                        let TreeNode { val, left, right } = *node;
                        proof {
                            let vals = roots(cur);
                            assert(vals.take(i + 1).drop_last() =~= vals.take(i as int));
                            assert(vals.take(i + 1).last() == val);
                            assert(vals == level(root, depth));
                            assert(i32::MIN <= sum(level(root, depth).take(i + 1)) <= i32::MAX);
                        }
                        current_sum += val;
                        if let Some(l) = left {
                            queue.push_back(l);
                        }
                        if let Some(r) = right {
                            queue.push_back(r);
                        }
                        proof {
                            lemma_kids_push(cur.subrange(0, i as int), cur[i as int], true);
                            assert(cur.subrange(0, i + 1) =~= cur.subrange(0, i as int).push(
                                cur[i as int],
                            ));
                            assert(queue@ =~= cur.subrange(i + 1, cur.len() as int) + kids(
                                cur.subrange(0, i + 1),
                                true,
                            ));
                        }
                    }
                    i += 1;
                }
                proof {
                    assert(cur.subrange(0, cur.len() as int) =~= cur);
                    assert(roots(cur).take(cur.len() as int) =~= roots(cur));
                    assert(queue@ =~= kids(cur, true));
                    lemma_descend_step(root_of(root), depth, true);
                    lemma_total_kids(cur, true);
                }
                if current_sum > max_level_sum {
                    max_level_sum = current_sum;
                }
                proof {
                    depth = depth + 1;
                }
            }
            proof {
                lemma_generation_height(root, depth, true);
            }
            max_level_sum
        },
    }
}

/// Adding up the first `d` levels of the tree, left to right, never leaves
/// the range of `i32`.
pub open spec fn level_sums_fit_upto(t: Tree, d: nat) -> bool {
    forall|e: nat, k: int|
        e < d && 0 <= k <= level(t, e).len() ==> i32::MIN <= #[trigger] sum(level(t, e).take(k))
            <= i32::MAX
}

/// Levels at or past the height of the tree are empty, so sums that fit up
/// to the height fit everywhere.
proof fn lemma_fit_upto_height(t: Tree)
    requires
        level_sums_fit_upto(t, height(t)),
    ensures
        level_sums_fit(t),
{
    assert forall|d: nat, k: int| 0 <= k <= level(t, d).len() implies i32::MIN <= #[trigger] sum(
        level(t, d).take(k),
    ) <= i32::MAX by {
        if d >= height(t) {
            lemma_generation_height(t, d, true);
            assert(level(t, d).take(k) =~= Seq::<i32>::empty());
        }
    }
}

/// The greatest sum of the values of one level of the tree, or 0 if no
/// level has a positive sum; nothing if adding up some level, left to
/// right, leaves the range of `i32`.
pub fn try_max_level_sum(root: Tree) -> (best: Option<i32>)
    ensures
        match best {
            Some(b) => level_sums_fit(root) && b == best_level_sum(root, height(root)),
            None => !level_sums_fit(root),
        },
{
    let mut max_level_sum: i32 = 0;
    let mut queue: VecDeque<Box<TreeNode>> = VecDeque::new();
    if let Some(node) = root {
        queue.push_back(node);
    }
    let ghost mut depth: nat = 0;
    proof {
        assert(queue@ =~= root_of(root));
    }
    while queue.len() > 0
        invariant
            queue@ == generation(root, depth, true),
            max_level_sum == best_level_sum(root, depth),
            depth <= height(root),
            level_sums_fit_upto(root, depth),
        decreases total(queue@),
    {
        let ghost cur = queue@;
        proof {
            lemma_generation_height(root, depth, true);
        }
        let mut current_sum: i32 = 0;
        let level_size: usize = queue.len();
        let mut i: usize = 0;
        while i < level_size
            invariant
                cur == generation(root, depth, true),
                i <= level_size,
                level_size == cur.len(),
                queue@ == cur.subrange(i as int, cur.len() as int) + kids(
                    cur.subrange(0, i as int),
                    true,
                ),
                current_sum == sum(roots(cur).take(i as int)),
                forall|k: int|
                    0 <= k <= i ==> i32::MIN <= #[trigger] sum(roots(cur).take(k)) <= i32::MAX,
            decreases level_size - i,
        {
            if let Some(node) = queue.pop_front() {
                let TreeNode { val, left, right } = *node;
                proof {
                    let vals = roots(cur);
                    assert(vals.take(i + 1).drop_last() =~= vals.take(i as int));
                    assert(vals.take(i + 1).last() == val);
                    assert(vals == level(root, depth));
                }
                match current_sum.checked_add(val) {
                    Some(s) => {
                        current_sum = s;
                    },
                    None => {
                        proof {
                            let k = i + 1;
                            assert(!(i32::MIN <= sum(level(root, depth).take(k)) <= i32::MAX));
                        }
                        return None;
                    },
                }
                if let Some(l) = left {
                    queue.push_back(l);
                }
                if let Some(r) = right {
                    queue.push_back(r);
                }
                proof {
                    lemma_kids_push(cur.subrange(0, i as int), cur[i as int], true);
                    assert(cur.subrange(0, i + 1) =~= cur.subrange(0, i as int).push(
                        cur[i as int],
                    ));
                    assert(queue@ =~= cur.subrange(i + 1, cur.len() as int) + kids(
                        cur.subrange(0, i + 1),
                        true,
                    ));
                }
            }
            i += 1;
        }
        proof {
            assert(cur.subrange(0, cur.len() as int) =~= cur);
            assert(roots(cur).take(cur.len() as int) =~= roots(cur));
            assert(queue@ =~= kids(cur, true));
            lemma_descend_step(root_of(root), depth, true);
            lemma_total_kids(cur, true);
            assert(level_sums_fit_upto(root, depth + 1)) by {
                assert forall|e: nat, k: int|
                    e < depth + 1 && 0 <= k <= level(root, e).len() implies i32::MIN
                    <= #[trigger] sum(level(root, e).take(k)) <= i32::MAX by {
                    if e == depth {
                        assert(level(root, e) == roots(cur));
                    }
                }
            }
        }
        if current_sum > max_level_sum {
            max_level_sum = current_sum;
        }
        proof {
            depth = depth + 1;
        }
    }
    proof {
        lemma_generation_height(root, depth, true);
        lemma_fit_upto_height(root);
    }
    Some(max_level_sum)
}

} // verus!
