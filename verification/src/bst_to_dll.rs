//! Turning a binary search tree into a circular doubly linked list of its
//! values in order.

use crate::tree::{
    contains, is_bst, lemma_bst_inorder_ascending, lemma_contains_node, strictly_ascending, Tree,
    TreeNode,
};
use vstd::prelude::*;

verus! {

/// The tree after `val` has been inserted at the place the search for it
/// comes to: left of every greater node on the way, right of every other.
pub open spec fn bst_insert(t: Tree, val: i32) -> Tree
    decreases t,
{
    match t {
        None => Some(Box::new(TreeNode { val, left: None, right: None })),
        Some(n) => if val < n.val {
            Some(Box::new(TreeNode { val: n.val, left: bst_insert(n.left, val), right: n.right }))
        } else {
            Some(Box::new(TreeNode { val: n.val, left: n.left, right: bst_insert(n.right, val) }))
        },
    }
}

/// The tree after the first `k` of `values` have been inserted, in order,
/// into the empty tree.
pub open spec fn bst_of(values: Seq<i32>, k: int) -> Tree
    decreases k,
{
    if k <= 0 {
        None
    } else {
        bst_insert(bst_of(values, k - 1), values[k - 1])
    }
}

/// Inserts `val` into the tree.
pub fn insert_bst(root: &mut Tree, val: i32)
    ensures
        *final(root) == bst_insert(*old(root), val),
    decreases *old(root),
{
    match root {
        None => {
            *root = Some(Box::new(TreeNode::new(val)));
        },
        Some(node) => {
            if val < node.val {
                insert_bst(&mut node.left, val);
            } else {
                insert_bst(&mut node.right, val);
            }
        },
    }
}

/// The tree that results from inserting the values, first to last, into the
/// empty tree.
pub fn build_bst(values: &[i32]) -> (root: Tree)
    ensures
        root == bst_of(values@, values@.len() as int),
{
    let mut root: Tree = None;
    let mut i: usize = 0;
    while i < values.len()
        invariant
            i <= values@.len(),
            root == bst_of(values@, i as int),
        decreases values@.len() - i,
    {
        insert_bst(&mut root, values[i]);
        i += 1;
    }
    root
}

/// One node of a doubly linked list kept in a vector: `left` is the index of
/// the node before it, `right` that of the node after it.
#[derive(Debug, Clone, Copy, PartialEq, Eq)]
pub struct DllNode {
    pub val: i32,
    pub left: Option<usize>,
    pub right: Option<usize>,
}

/// A doubly linked list kept in a vector, with the index of its first node.
#[derive(Debug)]
pub struct Dll {
    pub nodes: Vec<DllNode>,
    pub head: Option<usize>,
}

/// The link `l` names the node at index `j`.
pub open spec fn points_to(l: Option<usize>, j: int) -> bool {
    l matches Some(x) && x == j
}

/// The values met on a walk of at most `steps` nodes that starts at `start`
/// and follows the `right` links if `forward`, the `left` links if not,
/// until a link is missing.
pub open spec fn walk(nodes: Seq<DllNode>, start: Option<usize>, steps: nat, forward: bool) -> Seq<
    i32,
>
    decreases steps,
{
    match start {
        Some(i) if steps > 0 => {
            let next = if forward {
                nodes[i as int].right
            } else {
                nodes[i as int].left
            };
            seq![nodes[i as int].val] + walk(nodes, next, (steps - 1) as nat, forward)
        },
        _ => Seq::empty(),
    }
}

impl Dll {
    /// The values of the list, first to last.
    pub open spec fn view(&self) -> Seq<i32> {
        self.nodes@.map_values(|n: DllNode| n.val)
    }

    /// Every link and the head name a node of the list.
    pub open spec fn links_in_range(&self) -> bool {
        &&& self.head matches Some(h) ==> h < self.nodes@.len()
        &&& forall|i: int|
            0 <= i < self.nodes@.len() ==> {
                &&& (#[trigger] self.nodes@[i]).left matches Some(l) ==> l < self.nodes@.len()
                &&& self.nodes@[i].right matches Some(r) ==> r < self.nodes@.len()
            }
    }

    /// The nodes are linked in the order of the vector, the first has no
    /// node before it and the last none after it, and the head is the first.
    pub open spec fn is_chain(&self) -> bool {
        let n = self.nodes@.len();
        &&& if n == 0 {
            self.head is None
        } else {
            points_to(self.head, 0)
        }
        &&& forall|i: int|
            0 <= i < n ==> {
                &&& if i == 0 {
                    (#[trigger] self.nodes@[i]).left is None
                } else {
                    points_to(self.nodes@[i].left, i - 1)
                }
                &&& if i == n - 1 {
                    self.nodes@[i].right is None
                } else {
                    points_to(self.nodes@[i].right, i + 1)
                }
            }
    }

    /// The nodes are linked in the order of the vector and in a circle: the
    /// last comes before the first, the first after the last. The head is
    /// the first.
    pub open spec fn is_ring(&self) -> bool {
        let n = self.nodes@.len();
        &&& if n == 0 {
            self.head is None
        } else {
            points_to(self.head, 0)
        }
        &&& forall|i: int|
            0 <= i < n ==> {
                &&& points_to(
                    (#[trigger] self.nodes@[i]).left,
                    if i == 0 {
                        n - 1
                    } else {
                        i - 1
                    },
                )
                &&& points_to(
                    self.nodes@[i].right,
                    if i == n - 1 {
                        0
                    } else {
                        i + 1
                    },
                )
            }
    }
}

/// `last` is the last node of `list`, if `list` has one.
pub open spec fn is_last(list: Dll, last: Option<usize>) -> bool {
    if list.nodes@.len() == 0 {
        last is None
    } else {
        points_to(last, list.nodes@.len() - 1)
    }
}

/// Whether every link and the head of the list name a node of the list.
pub fn has_links_in_range(list: &Dll) -> (ok: bool)
    ensures
        ok == list.links_in_range(),
{
    let n = list.nodes.len();
    if let Some(h) = list.head {
        if h >= n {
            return false;
        }
    }
    let mut i: usize = 0;
    while i < n
        invariant
            n == list.nodes@.len(),
            i <= n,
            list.head matches Some(h) ==> h < n,
            forall|j: int|
                0 <= j < i ==> {
                    &&& (#[trigger] list.nodes@[j]).left matches Some(l) ==> l < n
                    &&& list.nodes@[j].right matches Some(r) ==> r < n
                },
        decreases n - i,
    {
        if let Some(l) = list.nodes[i].left {
            if l >= n {
                return false;
            }
        }
        if let Some(r) = list.nodes[i].right {
            if r >= n {
                return false;
            }
        }
        i += 1;
    }
    true
}

/// Appends the values of `node`, in order, to the chain `list`, whose last
/// node is `last`.
pub fn inorder(node: &Tree, list: &mut Dll, last: &mut Option<usize>)
    requires
        old(list).is_chain(),
        is_last(*old(list), *old(last)),
    ensures
        final(list).is_chain(),
        final(list)@ == old(list)@ + crate::tree::inorder(*node),
        is_last(*final(list), *final(last)),
    decreases *node,
{
    match node {
        None => {
            proof {
                assert(list@ + crate::tree::inorder(*node) =~= list@);
            }
            return ;
        },
        Some(inner) => {
            inorder(&inner.left, list, last);
            let ghost mid = list@;
            let cur = list.nodes.len();
            list.nodes.push(DllNode { val: inner.val, left: None, right: None });
            if let Some(prev_node) = *last {
                list.nodes[prev_node].right = Some(cur);
                list.nodes[cur].left = Some(prev_node);
            } else {
                list.head = Some(cur);
            }
            *last = Some(cur);
            proof {
                assert(list@ =~= mid + seq![inner.val]);
            }
            inorder(&inner.right, list, last);
            proof {
                assert(list@ =~= old(list)@ + crate::tree::inorder(*node));
            }
        },
    }
}

/// The circular doubly linked list of the values of the tree in order: each
/// node's `right` is the next value's node, its `left` the one before, and
/// the first and the last are linked to each other. The empty tree gives the
/// empty list.
pub fn bst_to_dll(root: Tree) -> (list: Dll)
    ensures
        list.is_ring(),
        list@ == crate::tree::inorder(root),
        list.head is None <==> root is None,
        is_bst(root) ==> strictly_ascending(list@),
{
    proof {
        if is_bst(root) {
            lemma_bst_inorder_ascending(root);
        }
    }
    let mut list = Dll { nodes: Vec::new(), head: None };
    let mut last: Option<usize> = None;
    inorder(&root, &mut list, &mut last);
    proof {
        assert(list@ =~= crate::tree::inorder(root));
        if root is Some {
            assert(crate::tree::inorder(root).len() > 0);
        }
    }
    if let (Some(h), Some(l)) = (list.head, last) {
        list.nodes[h].left = Some(l);
        list.nodes[l].right = Some(h);
    }
    proof {
        assert(list@ =~= crate::tree::inorder(root));
    }
    list
}

/// The values met from the head of the list on a walk of at most
/// `expected_len` nodes along the `right` links.
pub fn dll_to_vec_forward(head: &Dll, expected_len: usize) -> (result: Vec<i32>)
    requires
        head.links_in_range(),
    ensures
        result@ == walk(head.nodes@, head.head, expected_len as nat, true),
{
    let mut result: Vec<i32> = Vec::new();
    if let Some(h) = head.head {
        let mut current = h;
        let mut i: usize = 0;
        while i < expected_len
            invariant_except_break
                current < head.nodes@.len(),
                result@ + walk(head.nodes@, Some(current), (expected_len - i) as nat, true) == walk(
                    head.nodes@,
                    head.head,
                    expected_len as nat,
                    true,
                ),
            invariant
                head.links_in_range(),
                i <= expected_len,
            ensures
                result@ == walk(head.nodes@, head.head, expected_len as nat, true),
            decreases expected_len - i,
        {
            let ghost before = result@;
            let ghost rest = walk(head.nodes@, Some(current), (expected_len - i) as nat, true);
            result.push(head.nodes[current].val);
            let next = head.nodes[current].right;
            i += 1;
            proof {
                let tail = walk(head.nodes@, next, (expected_len - i) as nat, true);
                assert(rest == seq![head.nodes@[current as int].val] + tail);
                assert(result@ + tail =~= before + rest);
                if next is None {
                    assert(result@ + tail =~= result@);
                }
            }
            match next {
                Some(n) => {
                    current = n;
                },
                None => {
                    break ;
                },
            }
        }
        proof {
            if i == expected_len {
                assert(result@ + Seq::<i32>::empty() =~= result@);
            }
        }
    }
    result
}

/// The values met on a walk of at most `expected_len` nodes along the `left`
/// links, starting from the node before the head.
pub fn dll_to_vec_backward(head: &Dll, expected_len: usize) -> (result: Vec<i32>)
    requires
        head.links_in_range(),
    ensures
        result@ == match head.head {
            Some(h) => walk(head.nodes@, head.nodes@[h as int].left, expected_len as nat, false),
            None => Seq::empty(),
        },
{
    let mut result: Vec<i32> = Vec::new();
    if let Some(h) = head.head {
        let tail = head.nodes[h].left;
        if let Some(t) = tail {
            let mut current = t;
            let mut i: usize = 0;
            while i < expected_len
                invariant_except_break
                    current < head.nodes@.len(),
                    result@ + walk(head.nodes@, Some(current), (expected_len - i) as nat, false)
                        == walk(head.nodes@, tail, expected_len as nat, false),
                invariant
                    head.links_in_range(),
                    i <= expected_len,
                ensures
                    result@ == walk(head.nodes@, tail, expected_len as nat, false),
                decreases expected_len - i,
            {
                let ghost before = result@;
                let ghost rest = walk(
                    head.nodes@,
                    Some(current),
                    (expected_len - i) as nat,
                    false,
                );
                result.push(head.nodes[current].val);
                let prev = head.nodes[current].left;
                i += 1;
                proof {
                    let more = walk(head.nodes@, prev, (expected_len - i) as nat, false);
                    assert(rest == seq![head.nodes@[current as int].val] + more);
                    assert(result@ + more =~= before + rest);
                    if prev is None {
                        assert(result@ + more =~= result@);
                    }
                }
                match prev {
                    Some(p) => {
                        current = p;
                    },
                    None => {
                        break ;
                    },
                }
            }
            proof {
                if i == expected_len {
                    assert(result@ + Seq::<i32>::empty() =~= result@);
                }
            }
        }
    }
    result
}

/// In a circular list every link names a node.
pub proof fn lemma_ring_links_in_range(list: Dll)
    requires
        list.is_ring(),
    ensures
        list.links_in_range(),
{
}

/// In a circular list, a walk along the `right` links that starts at node
/// `i` and does not pass the last node meets the values from `i` on.
proof fn lemma_ring_walk_forward(list: Dll, i: int, steps: nat)
    requires
        list.is_ring(),
        0 <= i,
        i + steps <= list.nodes@.len(),
    ensures
        walk(list.nodes@, Some(i as usize), steps, true) == list@.subrange(i, i + steps),
    decreases steps,
{
    let n = list.nodes@.len() as int;
    if steps == 0 {
        assert(list@.subrange(i, i + steps) =~= Seq::empty());
    } else {
        let next = list.nodes@[i].right;
        if i + 1 < n {
            assert(next == Some((i + 1) as usize));
            lemma_ring_walk_forward(list, i + 1, (steps - 1) as nat);
        } else {
            assert(walk(list.nodes@, next, (steps - 1) as nat, true) =~= Seq::empty());
        }
        assert(list@.subrange(i, i + steps) =~= seq![list.nodes@[i].val] + list@.subrange(
            i + 1,
            i + steps,
        ));
    }
}

/// In a circular list, a walk along the `left` links that starts at node `i`
/// and does not pass the first node meets the values from `i` down.
proof fn lemma_ring_walk_backward(list: Dll, i: int, steps: nat)
    requires
        list.is_ring(),
        i < list.nodes@.len(),
        0 <= i - steps + 1,
    ensures
        walk(list.nodes@, Some(i as usize), steps, false) == list@.subrange(
            i - steps + 1,
            i + 1,
        ).reverse(),
    decreases steps,
{
    if steps == 0 {
        assert(list@.subrange(i - steps + 1, i + 1).reverse() =~= Seq::empty());
    } else {
        let prev = list.nodes@[i].left;
        if i > 0 {
            assert(prev == Some((i - 1) as usize));
            lemma_ring_walk_backward(list, i - 1, (steps - 1) as nat);
        } else {
            assert(walk(list.nodes@, prev, (steps - 1) as nat, false) =~= Seq::empty());
        }
        assert(list@.subrange(i - steps + 1, i + 1).reverse() =~= seq![list.nodes@[i].val]
            + list@.subrange(i - steps + 1, i).reverse());
    }
}

/// Once round a circular list along the `right` links, from the head, meets
/// its values first to last; once round along the `left` links, from the
/// node before the head, meets them last to first.
pub proof fn lemma_ring_walks(list: Dll)
    requires
        list.is_ring(),
    ensures
        walk(list.nodes@, list.head, list.nodes@.len(), true) == list@,
        list.head matches Some(h) ==> walk(
            list.nodes@,
            list.nodes@[h as int].left,
            list.nodes@.len(),
            false,
        ) == list@.reverse(),
{
    let n = list.nodes@.len();
    if n == 0 {
        assert(list@ =~= Seq::empty());
    } else {
        lemma_ring_walk_forward(list, 0, n);
        assert(list@.subrange(0, n as int) =~= list@);
        lemma_ring_walk_backward(list, n - 1, n);
        assert(list.nodes@[0].left == Some((n - 1) as usize));
    }
}

/// Inserting a value adds it to the values of the tree and takes none away.
pub proof fn lemma_bst_insert_contains(t: Tree, val: i32, v: int)
    ensures
        contains(bst_insert(t, val), v) <==> contains(t, v) || v == val,
    decreases t,
{
    match t {
        None => {},
        Some(n) => {
            if val < n.val {
                lemma_bst_insert_contains(n.left, val, v);
            } else {
                lemma_bst_insert_contains(n.right, val, v);
            }
        },
    }
}

/// Inserting a value that a search tree does not hold gives a search tree.
pub proof fn lemma_bst_insert_keeps_order(t: Tree, val: i32)
    requires
        is_bst(t),
        !contains(t, val as int),
    ensures
        is_bst(bst_insert(t, val)),
    decreases t,
{
    match t {
        None => {},
        Some(n) => {
            lemma_contains_node(n);
            if val < n.val {
                lemma_bst_insert_keeps_order(n.left, val);
                assert forall|v: int| contains(bst_insert(n.left, val), v) implies v < n.val by {
                    lemma_bst_insert_contains(n.left, val, v);
                }
            } else {
                lemma_bst_insert_keeps_order(n.right, val);
                assert forall|v: int| contains(bst_insert(n.right, val), v) implies v > n.val by {
                    lemma_bst_insert_contains(n.right, val, v);
                }
            }
        },
    }
}

} // verus!
