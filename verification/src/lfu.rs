//! A least-frequently-used cache with fixed capacity.
//!
//! Entries live in an arena (`nodes`) and are addressed by index. For each
//! access count in use, the entries that have it form a doubly linked list
//! threaded through the arena, most recently promoted first.

use crate::lfu_model::{
    accessed, lemma_put_evicts_victim, lemma_put_then_lookup, slot_of, without, CacheModel, Entry,
    Slot,
};
use std::collections::HashMap;
use vstd::prelude::*;

verus! {

/// One arena slot.
struct Node {
    key: i32,
    val: i32,
    freq: usize,
    prev: Option<usize>,
    next: Option<usize>,
}

/// A cache of integer keys and values that holds at most `capacity` entries
/// and, when full, gives up the entry that was accessed least often; among
/// those, the one whose last access lies furthest back.
pub struct LFUCache {
    capacity: usize,
    min_freq: usize,
    key_map: HashMap<i32, usize>,
    freq_heads: HashMap<usize, usize>,
    freq_tails: HashMap<usize, usize>,
    nodes: Vec<Node>,
    /// For each access count in use, the arena indices of its list, head first.
    lists: Ghost<Map<usize, Seq<usize>>>,
}

/// The `j`-th member of list `l` lies in the arena, has access count `f`, and
/// its links name its neighbours in `l`.
spec fn link_at(nodes: Seq<Node>, l: Seq<usize>, f: usize, j: int) -> bool {
    let n = nodes[l[j] as int];
    &&& l[j] < nodes.len()
    &&& n.freq == f
    &&& n.prev == if j == 0 {
        None
    } else {
        Some(l[j - 1])
    }
    &&& n.next == if j == l.len() - 1 {
        None
    } else {
        Some(l[j + 1])
    }
}

/// `l` is a well-linked, non-empty list of distinct slots with access count `f`.
spec fn chain_ok(nodes: Seq<Node>, l: Seq<usize>, f: usize) -> bool {
    &&& l.len() > 0
    &&& l.no_duplicates()
    &&& forall|j: int| 0 <= j < l.len() ==> #[trigger] link_at(nodes, l, f, j)
}

/// Slot `i` is a member of the list of its access count.
spec fn listed(lists: Map<usize, Seq<usize>>, nodes: Seq<Node>, i: usize) -> bool {
    &&& lists.contains_key(nodes[i as int].freq)
    &&& lists[nodes[i as int].freq].contains(i)
}

/// Two arenas agree on everything but the links.
spec fn same_payload(a: Seq<Node>, b: Seq<Node>) -> bool {
    &&& a.len() == b.len()
    &&& forall|i: int|
        0 <= i < a.len() ==> (#[trigger] a[i]).key == b[i].key && a[i].val == b[i].val && a[i].freq
            == b[i].freq
}

/// The lists and the head and tail tables describe the same chains, and every
/// slot but `hole` is in the chain of its access count.
spec fn links_ok(
    nodes: Seq<Node>,
    lists: Map<usize, Seq<usize>>,
    heads: Map<usize, usize>,
    tails: Map<usize, usize>,
    hole: Option<usize>,
) -> bool {
    &&& forall|f: usize| #[trigger] lists.contains_key(f) <==> heads.contains_key(f)
    &&& forall|f: usize| #[trigger] lists.contains_key(f) <==> tails.contains_key(f)
    &&& forall|f: usize| #[trigger]
        lists.contains_key(f) ==> {
            &&& chain_ok(nodes, lists[f], f)
            &&& heads[f] == lists[f].first()
            &&& tails[f] == lists[f].last()
            &&& hole is Some ==> !lists[f].contains(hole->0)
        }
    &&& forall|i: usize|
        i < nodes.len() && hole != Some(i) ==> #[trigger] listed(lists, nodes, i)
}

/// The key table and the arena name each other, for every slot but `hole`.
spec fn keys_ok(nodes: Seq<Node>, key_map: Map<i32, usize>, hole: Option<usize>) -> bool {
    &&& key_map.dom().finite()
    &&& key_map.dom().len() + (if hole is Some { 1nat } else { 0nat }) == nodes.len()
    &&& forall|k: i32| #[trigger]
        key_map.contains_key(k) ==> {
            &&& key_map[k] < nodes.len()
            &&& nodes[key_map[k] as int].key == k
            &&& hole != Some(key_map[k])
        }
    &&& forall|i: usize|
        i < nodes.len() && hole != Some(i) ==> {
            &&& key_map.contains_key((#[trigger] nodes[i as int]).key)
            &&& key_map[nodes[i as int].key] == i
            &&& nodes[i as int].freq >= 1
        }
}

/// Slot `i` has the same access count and the same links in both arenas.
spec fn same_links_at(a: Seq<Node>, b: Seq<Node>, i: usize) -> bool {
    &&& a[i as int].freq == b[i as int].freq
    &&& a[i as int].prev == b[i as int].prev
    &&& a[i as int].next == b[i as int].next
}

/// Slot `i` has the same key in both arenas, and a positive access count in
/// the second.
spec fn same_key_at(a: Seq<Node>, b: Seq<Node>, i: usize) -> bool {
    &&& a[i as int].key == b[i as int].key
    &&& b[i as int].freq >= 1
}

/// Whether the chains are well linked depends only on the access counts and
/// links of the slots that are in them: the slot that is in none may change,
/// and a new slot that is in none may be added.
proof fn lemma_links_frame(
    a: Seq<Node>,
    b: Seq<Node>,
    lists: Map<usize, Seq<usize>>,
    heads: Map<usize, usize>,
    tails: Map<usize, usize>,
    hole_a: Option<usize>,
    hole_b: Option<usize>,
)
    requires
        links_ok(a, lists, heads, tails, hole_a),
        a.len() <= b.len(),
        forall|i: usize| i < a.len() && hole_a != Some(i) ==> #[trigger] same_links_at(a, b, i),
        hole_a is Some ==> hole_b == hole_a && a.len() == b.len(),
        hole_a is None && a.len() == b.len() ==> hole_b is None,
        hole_a is None && a.len() < b.len() ==> b.len() == a.len() + 1 && hole_b is Some
            && hole_b->0 == a.len(),
    ensures
        links_ok(b, lists, heads, tails, hole_b),
{
    assert forall|g: usize| #[trigger] lists.contains_key(g) implies chain_ok(b, lists[g], g) && (
    hole_b is Some ==> !lists[g].contains(hole_b->0)) by {
        let lg = lists[g];
        assert(chain_ok(a, lg, g));
        assert forall|j: int| 0 <= j < lg.len() implies #[trigger] link_at(b, lg, g, j) by {
            assert(link_at(a, lg, g, j));
            assert(lg.contains(lg[j]));
            assert(same_links_at(a, b, lg[j]));
        }
        assert forall|j: int| 0 <= j < lg.len() implies hole_b != Some(lg[j]) by {
            assert(link_at(a, lg, g, j));
            assert(lg.contains(lg[j]));
        }
    }
    assert forall|i: usize| i < b.len() && hole_b != Some(i) implies #[trigger] listed(
        lists,
        b,
        i,
    ) by {
        assert(listed(lists, a, i));
        assert(same_links_at(a, b, i));
    }
}

/// Whether the key table and the arena name each other depends only on the
/// keys of the slots that are under a key: the slot that is under none may
/// change, and a new slot that is under none may be added.
proof fn lemma_keys_frame(
    a: Seq<Node>,
    b: Seq<Node>,
    key_map: Map<i32, usize>,
    hole_a: Option<usize>,
    hole_b: Option<usize>,
)
    requires
        keys_ok(a, key_map, hole_a),
        a.len() <= b.len(),
        forall|i: usize| i < a.len() && hole_a != Some(i) ==> #[trigger] same_key_at(a, b, i),
        hole_a is Some ==> hole_b == hole_a && a.len() == b.len(),
        hole_a is None && a.len() == b.len() ==> hole_b is None,
        hole_a is None && a.len() < b.len() ==> b.len() == a.len() + 1 && hole_b is Some
            && hole_b->0 == a.len(),
    ensures
        keys_ok(b, key_map, hole_b),
{
    assert forall|k: i32| #[trigger] key_map.contains_key(k) implies b[key_map[k] as int].key
        == k by {
        assert(same_key_at(a, b, key_map[k]));
    }
    assert forall|i: usize| i < b.len() && hole_b != Some(i) implies key_map.contains_key(
        (#[trigger] b[i as int]).key,
    ) && key_map[b[i as int].key] == i && b[i as int].freq >= 1 by {
        assert(same_key_at(a, b, i));
        assert(key_map[a[i as int].key] == i);
    }
}

/// The arena as triples of key, value and access count, slot by slot.
spec fn slots_of(nodes: Seq<Node>) -> Seq<Slot> {
    nodes.map_values(|n: Node| (n.key, n.val, n.freq))
}

/// Arenas that agree on everything but the links hold the same triples.
proof fn lemma_same_slots(a: Seq<Node>, b: Seq<Node>)
    requires
        same_payload(a, b),
    ensures
        slots_of(a) == slots_of(b),
{
    assert forall|i: int| 0 <= i < a.len() implies slots_of(a)[i] == slots_of(b)[i] by {
        assert(a[i].key == b[i].key);
    }
    assert(slots_of(a) =~= slots_of(b));
}

/// In an arena whose slots are all under their keys, the slot that holds a
/// stored key is the one that the key table names.
proof fn lemma_slot_of_key(nodes: Seq<Node>, key_map: Map<i32, usize>, k: i32)
    requires
        keys_ok(nodes, key_map, None),
        key_map.contains_key(k),
        nodes.len() <= usize::MAX,
    ensures
        slot_of(slots_of(nodes), k) == key_map[k],
{
    let slots = slots_of(nodes);
    let at = key_map[k] as int;
    assert(slots[at].0 == k);
    let i = slot_of(slots, k);
    assert(0 <= i < slots.len() && slots[i].0 == k);
    assert(nodes[i as usize as int].key == k);
}

/// The keys of the slots of `l`, in the order of `l`.
spec fn key_seq(nodes: Seq<Node>, l: Seq<usize>) -> Seq<i32> {
    l.map_values(|i: usize| nodes[i as int].key)
}

/// The stored keys with their value and access count.
spec fn entries_of(key_map: Map<i32, usize>, nodes: Seq<Node>) -> Map<i32, Entry> {
    Map::new(
        |k: i32| key_map.contains_key(k),
        |k: i32|
            Entry {
                value: nodes[key_map[k] as int].val,
                freq: nodes[key_map[k] as int].freq as nat,
            },
    )
}

/// The lists, as sequences of keys.
spec fn buckets_of(nodes: Seq<Node>, lists: Map<usize, Seq<usize>>) -> Map<nat, Seq<i32>> {
    Map::new(
        |f: nat| f <= usize::MAX && lists.contains_key(f as usize),
        |f: nat| key_seq(nodes, lists[f as usize]),
    )
}

/// The abstract state that the parts of a cache stand for.
spec fn model_of(
    capacity: usize,
    min_freq: usize,
    key_map: Map<i32, usize>,
    nodes: Seq<Node>,
    lists: Map<usize, Seq<usize>>,
) -> CacheModel {
    CacheModel {
        capacity: capacity as nat,
        min_freq: min_freq as nat,
        entries: entries_of(key_map, nodes),
        buckets: buckets_of(nodes, lists),
    }
}

/// Every member of every list is a slot of the arena other than `hole`.
spec fn members_in(lists: Map<usize, Seq<usize>>, len: nat, hole: Option<usize>) -> bool {
    forall|f: usize, j: int|
        lists.contains_key(f) && 0 <= j < lists[f].len() ==> (#[trigger] lists[f][j]) < len
            && hole != Some(lists[f][j])
}

proof fn lemma_members_in(
    nodes: Seq<Node>,
    lists: Map<usize, Seq<usize>>,
    heads: Map<usize, usize>,
    tails: Map<usize, usize>,
    hole: Option<usize>,
)
    requires
        links_ok(nodes, lists, heads, tails, hole),
    ensures
        members_in(lists, nodes.len(), hole),
{
    assert forall|f: usize, j: int| lists.contains_key(f) && 0 <= j < lists[f].len() implies (
    #[trigger] lists[f][j]) < nodes.len() && hole != Some(lists[f][j]) by {
        assert(link_at(nodes, lists[f], f, j));
        assert(lists[f].contains(lists[f][j]));
    }
}

/// The key sequences depend only on the keys of the listed slots.
proof fn lemma_buckets_frame(
    a: Seq<Node>,
    b: Seq<Node>,
    lists: Map<usize, Seq<usize>>,
    hole: Option<usize>,
)
    requires
        a.len() <= b.len(),
        members_in(lists, a.len(), hole),
        forall|i: int|
            0 <= i < a.len() && hole != Some(i as usize) ==> (#[trigger] a[i]).key == b[i].key,
    ensures
        buckets_of(a, lists) == buckets_of(b, lists),
{
    assert forall|f: nat| f <= usize::MAX && lists.contains_key(f as usize) implies key_seq(
        a,
        lists[f as usize],
    ) == #[trigger] key_seq(b, lists[f as usize]) by {
        let l = lists[f as usize];
        assert forall|j: int| 0 <= j < l.len() implies key_seq(a, l)[j] == key_seq(b, l)[j] by {
            assert(l[j] < a.len() && hole != Some(l[j]));
            assert(a[l[j] as int].key == b[l[j] as int].key);
        }
        assert(key_seq(a, l) =~= key_seq(b, l));
    }
    assert(buckets_of(a, lists) =~= buckets_of(b, lists));
}

/// In a well-linked list whose slots are under their keys, the keys are
/// distinct and each is found at the position of its slot.
proof fn lemma_key_seq_positions(
    nodes: Seq<Node>,
    key_map: Map<i32, usize>,
    hole: Option<usize>,
    l: Seq<usize>,
    f: usize,
)
    requires
        keys_ok(nodes, key_map, hole),
        chain_ok(nodes, l, f),
        hole is Some ==> !l.contains(hole->0),
    ensures
        key_seq(nodes, l).len() == l.len(),
        key_seq(nodes, l).no_duplicates(),
        forall|j: int|
            0 <= j < l.len() ==> key_map.contains_key(#[trigger] key_seq(nodes, l)[j])
                && key_map[key_seq(nodes, l)[j]] == l[j],
        forall|j: int|
            0 <= j < l.len() ==> key_seq(nodes, l).index_of(#[trigger] key_seq(nodes, l)[j]) == j,
{
    let ks = key_seq(nodes, l);
    assert forall|j: int| 0 <= j < l.len() implies key_map.contains_key(#[trigger] ks[j])
        && key_map[ks[j]] == l[j] by {
        assert(link_at(nodes, l, f, j));
        assert(l.contains(l[j]));
        assert(nodes[l[j] as int].key == ks[j]);
    }
    assert forall|a: int, b: int| 0 <= a < ks.len() && 0 <= b < ks.len() && a != b implies ks[a]
        != ks[b] by {
        assert(key_map[ks[a]] == l[a]);
        assert(key_map[ks[b]] == l[b]);
    }
    assert forall|j: int| 0 <= j < l.len() implies ks.index_of(#[trigger] ks[j]) == j by {
        let q = ks.index_of(ks[j]);
        assert(0 <= q < ks.len() && ks[q] == ks[j]);
    }
}

/// Taking the slot at position `p` out of the list of `f` takes its key out of
/// the bucket of `f`.
proof fn lemma_buckets_remove(
    nodes: Seq<Node>,
    key_map: Map<i32, usize>,
    lists: Map<usize, Seq<usize>>,
    f: usize,
    p: int,
)
    requires
        keys_ok(nodes, key_map, None),
        lists.contains_key(f),
        chain_ok(nodes, lists[f], f),
        0 <= p < lists[f].len(),
    ensures
        ({
            let l = lists[f];
            let rest = l.remove(p);
            let b = buckets_of(nodes, lists);
            let k = nodes[l[p] as int].key;
            &&& b.contains_key(f as nat)
            &&& b[f as nat][p] == k
            &&& without(b[f as nat], k) == key_seq(nodes, rest)
            &&& without(b[f as nat], k).len() == rest.len()
            &&& buckets_of(nodes, lists.remove(f)) == b.remove(f as nat)
            &&& buckets_of(nodes, lists.insert(f, rest)) == b.insert(
                f as nat,
                without(b[f as nat], k),
            )
        }),
{
    let l = lists[f];
    let rest = l.remove(p);
    let b = buckets_of(nodes, lists);
    let k = nodes[l[p] as int].key;
    let ks = key_seq(nodes, l);
    lemma_key_seq_positions(nodes, key_map, None, l, f);
    assert(ks[p] == k);
    assert(ks.index_of(k) == p);
    assert(ks.remove(p) =~= key_seq(nodes, rest));
    assert(buckets_of(nodes, lists.remove(f)) =~= b.remove(f as nat));
    assert(buckets_of(nodes, lists.insert(f, rest)) =~= b.insert(
        f as nat,
        without(b[f as nat], k),
    ));
}

/// Putting slot `idx` in front of the list of `f` puts its key in front of
/// the bucket of `f`.
proof fn lemma_buckets_cons(nodes: Seq<Node>, lists: Map<usize, Seq<usize>>, f: usize, idx: usize)
    ensures
        ({
            let tail = if lists.contains_key(f) {
                lists[f]
            } else {
                Seq::empty()
            };
            let b = buckets_of(nodes, lists);
            let old_bucket = if b.contains_key(f as nat) {
                b[f as nat]
            } else {
                Seq::empty()
            };
            buckets_of(nodes, lists.insert(f, seq![idx] + tail)) == b.insert(
                f as nat,
                seq![nodes[idx as int].key] + old_bucket,
            )
        }),
{
    let tail = if lists.contains_key(f) {
        lists[f]
    } else {
        Seq::empty()
    };
    let b = buckets_of(nodes, lists);
    let old_bucket = if b.contains_key(f as nat) {
        b[f as nat]
    } else {
        Seq::empty()
    };
    assert(key_seq(nodes, tail) =~= old_bucket);
    assert(key_seq(nodes, seq![idx] + tail) =~= seq![nodes[idx as int].key] + old_bucket);
    assert(buckets_of(nodes, lists.insert(f, seq![idx] + tail)) =~= b.insert(
        f as nat,
        seq![nodes[idx as int].key] + old_bucket,
    ));
}

impl LFUCache {
    spec fn links_wf(&self, hole: Option<usize>) -> bool {
        links_ok(self.nodes@, self.lists@, self.freq_heads@, self.freq_tails@, hole)
    }

    /// Consistency of a cache in which slot `hole`, if any, is in no list and
    /// under no key.
    spec fn wf_hole(&self, hole: Option<usize>) -> bool {
        &&& self.links_wf(hole)
        &&& keys_ok(self.nodes@, self.key_map@, hole)
        &&& self.nodes@.len() <= self.capacity
    }

    /// The cache is consistent: every operation needs and keeps this.
    pub closed spec fn wf(&self) -> bool {
        &&& self.wf_hole(None)
        &&& self.nodes@.len() == 0 ==> self.min_freq == 0
        &&& self.nodes@.len() > 0 ==> {
            &&& self.lists@.contains_key(self.min_freq)
            &&& forall|f: usize| #[trigger] self.lists@.contains_key(f) ==> self.min_freq <= f
        }
    }

    /// The abstract state of the cache.
    pub closed spec fn view(&self) -> CacheModel {
        model_of(self.capacity, self.min_freq, self.key_map@, self.nodes@, self.lists@)
    }

    /// The storage of the cache, slot by slot: each stored key with its
    /// value and access count, in the order of the slots. A key keeps its
    /// slot for as long as it is stored.
    pub closed spec fn slots(&self) -> Seq<Slot> {
        slots_of(self.nodes@)
    }

    /// A cache that stores nothing and will hold at most `capacity` keys.
    pub fn new(capacity: usize) -> (cache: Self)
        ensures
            cache.wf(),
            cache@ == CacheModel::empty(capacity as nat),
            cache@.inv(),
            cache.slots() == Seq::<Slot>::empty(),
    {
        let cache = LFUCache {
            capacity,
            min_freq: 0,
            key_map: HashMap::new(),
            freq_heads: HashMap::new(),
            freq_tails: HashMap::new(),
            nodes: Vec::new(),
            lists: Ghost(Map::empty()),
        };
        proof {
            assert(cache@.entries =~= Map::empty());
            assert(cache@.buckets =~= Map::empty());
            assert(cache.slots() =~= Seq::<Slot>::empty());
            cache.wf_implies_inv();
        }
        cache
    }

    /// Unlinks slot `node_idx` from the list of its access count.
    fn remove_from_freq_list(&mut self, node_idx: usize)
        requires
            old(self).links_wf(None),
            node_idx < old(self).nodes@.len(),
            old(self).nodes@[node_idx as int].freq == old(self).min_freq && old(
                self,
            ).lists@[old(self).min_freq].len() == 1 ==> old(self).min_freq < usize::MAX,
        ensures
            final(self).links_wf(Some(node_idx)),
            same_payload(old(self).nodes@, final(self).nodes@),
            final(self).capacity == old(self).capacity,
            final(self).key_map@ == old(self).key_map@,
            ({
                let f = old(self).nodes@[node_idx as int].freq;
                let l = old(self).lists@[f];
                let rest = l.remove(l.index_of(node_idx));
                &&& l.contains(node_idx)
                &&& final(self).lists@ == if rest.len() == 0 {
                    old(self).lists@.remove(f)
                } else {
                    old(self).lists@.insert(f, rest)
                }
                &&& final(self).min_freq == if rest.len() == 0 && f == old(self).min_freq {
                    old(self).min_freq + 1
                } else {
                    old(self).min_freq as int
                }
            }),
    {
        broadcast use vstd::std_specs::hash::group_hash_axioms;

        let freq = self.nodes[node_idx].freq;
        let prev_opt = self.nodes[node_idx].prev;
        let next_opt = self.nodes[node_idx].next;
        proof {
            assert(listed(self.lists@, self.nodes@, node_idx));
        }
        let ghost l = self.lists@[freq];
        let ghost p = l.index_of(node_idx);
        let ghost nodes0 = self.nodes@;
        proof {
            assert(0 <= p < l.len() && l[p] == node_idx);
            assert(link_at(nodes0, l, freq, p));
            if p > 0 {
                assert(link_at(nodes0, l, freq, p - 1));
            }
            if p < l.len() - 1 {
                assert(link_at(nodes0, l, freq, p + 1));
            }
        }

        if let Some(prev_idx) = prev_opt {
            self.nodes[prev_idx].next = next_opt;
        } else {
            if let Some(next_idx) = next_opt {
                self.freq_heads.insert(freq, next_idx);
            } else {
                self.freq_heads.remove(&freq);
            }
        }
        if let Some(next_idx) = next_opt {
            self.nodes[next_idx].prev = prev_opt;
        } else {
            if let Some(prev_idx) = prev_opt {
                self.freq_tails.insert(freq, prev_idx);
            } else {
                self.freq_tails.remove(&freq);
            }
        }
        if freq == self.min_freq && prev_opt.is_none() && next_opt.is_none() {
            self.min_freq += 1;
        }
        let ghost rest = l.remove(p);
        proof {
            self.lists@ = if rest.len() == 0 {
                self.lists@.remove(freq)
            } else {
                self.lists@.insert(freq, rest)
            };
            let nodes1 = self.nodes@;
            assert(same_payload(nodes0, nodes1));
            assert forall|j: int| 0 <= j < rest.len() implies #[trigger] link_at(
                nodes1,
                rest,
                freq,
                j,
            ) by {
                if j < p {
                    assert(rest[j] == l[j]);
                    assert(link_at(nodes0, l, freq, j));
                } else {
                    assert(rest[j] == l[j + 1]);
                    assert(link_at(nodes0, l, freq, j + 1));
                }
            }
            assert(rest.no_duplicates());
            assert(!rest.contains(node_idx));
            assert forall|g: usize| #[trigger] self.lists@.contains_key(g) && g != freq implies {
                &&& chain_ok(nodes1, self.lists@[g], g)
                &&& !self.lists@[g].contains(node_idx)
            } by {
                let lg = self.lists@[g];
                assert(old(self).lists@.contains_key(g));
                assert(chain_ok(nodes0, lg, g));
                assert forall|j: int| 0 <= j < lg.len() implies #[trigger] link_at(
                    nodes1,
                    lg,
                    g,
                    j,
                ) by {
                    assert(link_at(nodes0, lg, g, j));
                }
                assert forall|j: int| 0 <= j < lg.len() implies lg[j] != node_idx by {
                    assert(link_at(nodes0, lg, g, j));
                }
            }
            assert forall|i: usize|
                i < nodes1.len() && i != node_idx implies #[trigger] listed(
                self.lists@,
                nodes1,
                i,
            ) by {
                assert(listed(old(self).lists@, nodes0, i));
                let g = nodes0[i as int].freq;
                if g == freq {
                    assert(l.contains(i));
                    let q = choose|q: int| 0 <= q < l.len() && l[q] == i;
                    if q < p {
                        assert(rest[q] == i);
                    } else {
                        assert(rest[q - 1] == i);
                    }
                }
            }
        }
    }

    /// Links slot `node_idx` in as the head of the list of its access count.
    fn add_to_freq_list(&mut self, node_idx: usize)
        requires
            old(self).links_wf(Some(node_idx)),
            node_idx < old(self).nodes@.len(),
        ensures
            final(self).links_wf(None),
            same_payload(old(self).nodes@, final(self).nodes@),
            final(self).capacity == old(self).capacity,
            final(self).min_freq == old(self).min_freq,
            final(self).key_map@ == old(self).key_map@,
            ({
                let f = old(self).nodes@[node_idx as int].freq;
                let tail = if old(self).lists@.contains_key(f) {
                    old(self).lists@[f]
                } else {
                    Seq::empty()
                };
                final(self).lists@ == old(self).lists@.insert(f, seq![node_idx] + tail)
            }),
    {
        broadcast use vstd::std_specs::hash::group_hash_axioms;

        let freq = self.nodes[node_idx].freq;
        let ghost nodes0 = self.nodes@;
        let ghost tail = if self.lists@.contains_key(freq) {
            self.lists@[freq]
        } else {
            Seq::empty()
        };
        let ghost grown = seq![node_idx] + tail;
        let head_opt = self.freq_heads.get(&freq);
        if let Some(head_ref) = head_opt {
            let old_head_idx = *head_ref;
            proof {
                assert(self.lists@.contains_key(freq));
                assert(link_at(nodes0, tail, freq, 0));
            }
            self.nodes[node_idx].prev = None;
            self.nodes[node_idx].next = Some(old_head_idx);
            self.nodes[old_head_idx].prev = Some(node_idx);
            self.freq_heads.insert(freq, node_idx);
        } else {
            self.nodes[node_idx].prev = None;
            self.nodes[node_idx].next = None;
            self.freq_heads.insert(freq, node_idx);
            self.freq_tails.insert(freq, node_idx);
        }
        proof {
            self.lists@ = self.lists@.insert(freq, grown);
            let nodes1 = self.nodes@;
            assert(same_payload(nodes0, nodes1));
            assert(grown[0] == node_idx);
            assert forall|j: int| 0 <= j < grown.len() implies #[trigger] link_at(
                nodes1,
                grown,
                freq,
                j,
            ) by {
                if j > 0 {
                    assert(grown[j] == tail[j - 1]);
                    assert(link_at(nodes0, tail, freq, j - 1));
                    assert(tail.contains(tail[j - 1]));
                }
            }
            assert forall|a: int, b: int|
                0 <= a < grown.len() && 0 <= b < grown.len() && a != b implies grown[a]
                != grown[b] by {
                if a > 0 {
                    assert(tail.contains(tail[a - 1]));
                }
                if b > 0 {
                    assert(tail.contains(tail[b - 1]));
                }
            }
            assert forall|g: usize| #[trigger] self.lists@.contains_key(g) && g != freq implies {
                chain_ok(nodes1, self.lists@[g], g)
            } by {
                let lg = self.lists@[g];
                assert(old(self).lists@.contains_key(g));
                assert(chain_ok(nodes0, lg, g));
                assert forall|j: int| 0 <= j < lg.len() implies #[trigger] link_at(
                    nodes1,
                    lg,
                    g,
                    j,
                ) by {
                    assert(link_at(nodes0, lg, g, j));
                    assert(lg.contains(lg[j]));
                }
            }
            assert forall|i: usize| i < nodes1.len() implies #[trigger] listed(
                self.lists@,
                nodes1,
                i,
            ) by {
                if i == node_idx {
                    assert(grown[0] == i);
                } else {
                    assert(listed(old(self).lists@, nodes0, i));
                    if nodes0[i as int].freq == freq {
                        let q = choose|q: int| 0 <= q < tail.len() && tail[q] == i;
                        assert(grown[q + 1] == i);
                    }
                }
            }
        }
    }

    /// One access to the entry in slot `node_idx`.
    fn promote(&mut self, node_idx: usize)
        requires
            old(self).wf(),
            node_idx < old(self).nodes@.len(),
            old(self).nodes@[node_idx as int].freq < usize::MAX,
        ensures
            final(self).wf(),
            final(self)@ == old(self)@.promote(old(self).nodes@[node_idx as int].key),
            final(self).key_map@ == old(self).key_map@,
            final(self).slots() == old(self).slots().update(
                node_idx as int,
                (
                    old(self).nodes@[node_idx as int].key,
                    old(self).nodes@[node_idx as int].val,
                    (old(self).nodes@[node_idx as int].freq + 1) as usize,
                ),
            ),
    {
        let ghost nodes0 = self.nodes@;
        let ghost lists0 = self.lists@;
        let ghost km = self.key_map@;
        let ghost key = nodes0[node_idx as int].key;
        let ghost f = nodes0[node_idx as int].freq;
        proof {
            assert(listed(lists0, nodes0, node_idx));
        }
        let ghost l = lists0[f];
        let ghost p = l.index_of(node_idx);
        let ghost m0 = self@;

        self.remove_from_freq_list(node_idx);
        let ghost nodes1 = self.nodes@;
        let ghost lists1 = self.lists@;
        let ghost m1 = self@;
        proof {
            assert(0 <= p < l.len() && l[p] == node_idx);
            lemma_buckets_remove(nodes0, km, lists0, f, p);
            lemma_members_in(nodes0, lists0, old(self).freq_heads@, old(self).freq_tails@, None);
            lemma_members_in(nodes1, lists1, self.freq_heads@, self.freq_tails@, Some(node_idx));
            lemma_buckets_frame(nodes0, nodes1, lists1, Some(node_idx));
            assert(m1.entries =~= m0.entries);
            assert(m1 == m0.detach(key));
        }

        self.nodes[node_idx].freq += 1;
        let ghost nodes2 = self.nodes@;
        let ghost m2 = self@;
        proof {
            lemma_links_frame(
                nodes1,
                nodes2,
                lists1,
                self.freq_heads@,
                self.freq_tails@,
                Some(node_idx),
                Some(node_idx),
            );
            lemma_buckets_frame(nodes1, nodes2, lists1, Some(node_idx));
            assert(km.contains_key(key) && km[key] == node_idx);
            assert(m2.entries =~= m1.bump(key).entries) by {
                assert forall|k: i32| km.contains_key(k) && k != key implies km[k] != node_idx by {
                    assert(nodes0[km[k] as int].key == k);
                }
            }
            assert(m2 == m1.bump(key));
        }

        self.add_to_freq_list(node_idx);
        proof {
            let nodes3 = self.nodes@;
            let lists3 = self.lists@;
            let m3 = self@;
            lemma_buckets_cons(nodes2, lists1, (f + 1) as usize, node_idx);
            lemma_members_in(nodes3, lists3, self.freq_heads@, self.freq_tails@, None);
            lemma_buckets_frame(nodes2, nodes3, lists3, None);
            assert(m3.entries =~= m2.entries);
            assert(m3 == m2.attach(key));
            assert(same_payload(nodes0, nodes1) && same_payload(nodes2, nodes3));
            assert forall|i: usize| i < nodes0.len() implies #[trigger] same_key_at(
                nodes0,
                nodes3,
                i,
            ) by {
                assert(nodes0[i as int].key == nodes1[i as int].key);
                assert(nodes2[i as int].key == nodes3[i as int].key);
            }
            lemma_keys_frame(nodes0, nodes3, km, None, None);
            assert(lists3.contains_key((f + 1) as usize));
            assert(self.slots() =~= old(self).slots().update(
                node_idx as int,
                (key, nodes0[node_idx as int].val, (f + 1) as usize),
            )) by {
                assert forall|i: int| 0 <= i < nodes0.len() implies nodes3[i].key == nodes0[i].key
                    && nodes3[i].val == nodes0[i].val && nodes3[i].freq == (if i == node_idx {
                    (f + 1) as usize
                } else {
                    nodes0[i].freq
                }) by {
                    assert(nodes0[i].key == nodes1[i].key);
                    assert(nodes2[i].key == nodes3[i].key);
                }
            }
        }
    }

    /// Whether a lookup of `key` can be counted: access counts are machine
    /// integers, and a count that has reached the greatest of them cannot
    /// go up.
    pub fn can_get(&self, key: i32) -> (fits: bool)
        requires
            self.wf(),
        ensures
            fits == self@.get_fits(key, usize::MAX as nat),
    {
        broadcast use vstd::std_specs::hash::group_hash_axioms;

        match self.key_map.get(&key) {
            Some(idx_ref) => self.nodes[*idx_ref].freq < usize::MAX,
            None => true,
        }
    }

    /// Whether storing under `key` can be counted: see `can_get`.
    pub fn can_put(&self, key: i32) -> (fits: bool)
        requires
            self.wf(),
        ensures
            fits == self@.put_fits(key, usize::MAX as nat),
    {
        broadcast use vstd::std_specs::hash::group_hash_axioms;

        proof {
            assert(self@.entries.dom() =~= self.key_map@.dom());
        }
        match self.key_map.get(&key) {
            Some(idx_ref) => self.nodes[*idx_ref].freq < usize::MAX,
            None => {
                if self.capacity == 0 || self.nodes.len() < self.capacity || self.min_freq
                    < usize::MAX {
                    true
                } else {
                    // the smallest count cannot move up: the victim must not
                    // be alone in its bucket
                    proof {
                        let l = self.lists@[self.min_freq];
                        assert(self@.bucket(self.min_freq as nat).len() == l.len());
                        if l.len() > 1 {
                            assert(l[0] != l[l.len() - 1]);
                        }
                    }
                    let head = self.freq_heads.get(&self.min_freq);
                    let tail = self.freq_tails.get(&self.min_freq);
                    match (head, tail) {
                        (Some(head), Some(tail)) => *head != *tail,
                        _ => true,
                    }
                }
            },
        }
    }

    /// Looks `key` up. A hit counts as an access: the entry's count goes up by
    /// one and it becomes the most recently promoted of its new bucket. A miss
    /// changes nothing.
    pub fn get(&mut self, key: i32) -> (result: Option<i32>)
        requires
            old(self).wf(),
            old(self)@.get_fits(key, usize::MAX as nat),
        ensures
            final(self).wf(),
            result == old(self)@.lookup(key),
            final(self)@ == old(self)@.get(key),
            final(self)@.inv(),
            final(self).slots() == old(self)@.slots_after_get(old(self).slots(), key),
            final(self)@.stored_in(final(self).slots()),
    {
        broadcast use vstd::std_specs::hash::group_hash_axioms;

        let key_query_result = self.key_map.get(&key);
        if let Some(idx_ref) = key_query_result {
            let node_idx = *idx_ref;
            let val_res = self.nodes[node_idx].val;
            proof {
                lemma_slot_of_key(self.nodes@, self.key_map@, key);
            }
            self.promote(node_idx);
            proof {
                self.wf_implies_inv();
                self.wf_implies_slots();
            }
            return Some(val_res);
        } else {
            proof {
                self.wf_implies_inv();
                self.wf_implies_slots();
            }
            return None;
        }
    }

    /// Takes the least recently promoted entry of the smallest access count
    /// out of the cache and returns its slot, which is then free for reuse.
    fn evict_lfu_node(&mut self) -> (evict_idx: usize)
        requires
            old(self).wf(),
            old(self).nodes@.len() > 0,
            old(self).lists@[old(self).min_freq].len() == 1 ==> old(self).min_freq < usize::MAX,
        ensures
            final(self).wf_hole(Some(evict_idx)),
            evict_idx < final(self).nodes@.len(),
            evict_idx == old(self).freq_tails@[old(self).min_freq],
            old(self).nodes@[evict_idx as int].key == old(self)@.victim(),
            same_payload(old(self).nodes@, final(self).nodes@),
            final(self).key_map@ == old(self).key_map@.remove(old(self)@.victim()),
            final(self)@ == old(self)@.evict(),
            final(self).capacity == old(self).capacity,
    {
        broadcast use vstd::std_specs::hash::group_hash_axioms;

        let ghost nodes0 = self.nodes@;
        let ghost lists0 = self.lists@;
        let ghost km0 = self.key_map@;
        let ghost m0 = self@;
        let ghost f = self.min_freq;
        let ghost l = lists0[f];
        let ghost p = l.len() - 1;
        proof {
            assert(lists0.contains_key(f));
            assert(link_at(nodes0, l, f, p));
        }

        let evict_idx = *self.freq_tails.get(&self.min_freq).expect(
            "min_freq list should have a tail",
        );
        let evict_key = self.nodes[evict_idx].key;
        proof {
            assert(l.index_of(evict_idx) == p);
            assert(key_seq(nodes0, l)[p] == evict_key);
            assert(m0.victim() == evict_key);
        }
        self.key_map.remove(&evict_key);
        self.remove_from_freq_list(evict_idx);
        proof {
            let nodes1 = self.nodes@;
            let lists1 = self.lists@;
            let km1 = self.key_map@;
            let m1 = self@;
            lemma_buckets_remove(nodes0, km0, lists0, f, p);
            lemma_members_in(nodes1, lists1, self.freq_heads@, self.freq_tails@, Some(evict_idx));
            lemma_buckets_frame(nodes0, nodes1, lists1, Some(evict_idx));
            assert(km1 == km0.remove(evict_key));
            assert forall|k: i32| km1.contains_key(k) implies km1[k] != evict_idx by {
                assert(km0.contains_key(k));
                assert(nodes0[km0[k] as int].key == k);
            }
            assert(m1.entries =~= m0.entries.remove(evict_key));
            assert(m1 == m0.evict());
            assert(keys_ok(nodes1, km1, Some(evict_idx))) by {
                assert forall|k: i32| #[trigger] km1.contains_key(k) implies nodes1[km1[k] as int]
                    .key == k by {
                    assert(km0.contains_key(k));
                    assert(nodes0[km0[k] as int].key == nodes1[km0[k] as int].key);
                }
                assert forall|i: usize|
                    i < nodes1.len() && i != evict_idx implies km1.contains_key(
                    (#[trigger] nodes1[i as int]).key,
                ) && km1[nodes1[i as int].key] == i && nodes1[i as int].freq >= 1 by {
                    assert(nodes0[i as int].key == nodes1[i as int].key);
                }
            }
        }
        evict_idx
    }

    /// Stores a new entry in the free slot `node_idx`, with access count 1.
    fn insert_new_node_at(&mut self, node_idx: usize, key: i32, value: i32)
        requires
            old(self).wf_hole(Some(node_idx)),
            node_idx < old(self).nodes@.len(),
            !old(self).key_map@.contains_key(key),
        ensures
            final(self).wf(),
            final(self)@ == old(self)@.insert_fresh(key, value),
            final(self).key_map@ == old(self).key_map@.insert(key, node_idx),
            final(self).slots() == old(self).slots().update(node_idx as int, (key, value, 1usize)),
    {
        broadcast use vstd::std_specs::hash::group_hash_axioms;

        let ghost nodes0 = self.nodes@;
        let ghost lists0 = self.lists@;
        let ghost km0 = self.key_map@;
        let ghost m0 = self@;

        self.nodes[node_idx].key = key;
        self.nodes[node_idx].val = value;
        self.nodes[node_idx].freq = 1;
        self.nodes[node_idx].prev = None;
        self.nodes[node_idx].next = None;
        let ghost nodes1 = self.nodes@;
        proof {
            lemma_links_frame(
                nodes0,
                nodes1,
                lists0,
                self.freq_heads@,
                self.freq_tails@,
                Some(node_idx),
                Some(node_idx),
            );
            lemma_members_in(
                nodes0,
                lists0,
                self.freq_heads@,
                self.freq_tails@,
                Some(node_idx),
            );
            lemma_buckets_frame(nodes0, nodes1, lists0, Some(node_idx));
        }

        self.key_map.insert(key, node_idx);
        self.add_to_freq_list(node_idx);
        self.min_freq = 1;
        proof {
            let nodes2 = self.nodes@;
            let lists2 = self.lists@;
            let km2 = self.key_map@;
            let m2 = self@;
            lemma_buckets_cons(nodes1, lists0, 1, node_idx);
            lemma_members_in(nodes2, lists2, self.freq_heads@, self.freq_tails@, None);
            lemma_buckets_frame(nodes1, nodes2, lists2, None);
            assert(km2 == km0.insert(key, node_idx));
            assert(m2.entries =~= m0.entries.insert(key, Entry { value, freq: 1 })) by {
                assert forall|k: i32| km0.contains_key(k) implies nodes2[km0[k] as int].val
                    == nodes0[km0[k] as int].val && nodes2[km0[k] as int].freq
                    == nodes0[km0[k] as int].freq by {
                    assert(nodes1[km0[k] as int].val == nodes2[km0[k] as int].val);
                }
                assert(nodes1[node_idx as int].val == nodes2[node_idx as int].val);
            }
            assert(m2 == m0.insert_fresh(key, value));
            assert(keys_ok(nodes2, km2, None)) by {
                assert forall|k: i32| #[trigger] km2.contains_key(k) implies km2[k] < nodes2.len()
                    && nodes2[km2[k] as int].key == k by {
                    assert(nodes1[km2[k] as int].key == nodes2[km2[k] as int].key);
                    if k != key {
                        assert(km0.contains_key(k));
                    }
                }
                assert forall|i: usize| i < nodes2.len() implies km2.contains_key(
                    (#[trigger] nodes2[i as int]).key,
                ) && km2[nodes2[i as int].key] == i && nodes2[i as int].freq >= 1 by {
                    assert(nodes1[i as int].key == nodes2[i as int].key);
                    if i != node_idx {
                        assert(nodes0[i as int].key == nodes1[i as int].key);
                    }
                }
            }
            assert forall|g: usize| #[trigger] lists2.contains_key(g) implies 1 <= g by {
                assert(link_at(nodes2, lists2[g], g, 0));
                assert(nodes2[lists2[g][0] as int].freq >= 1);
            }
            assert(self.slots() =~= old(self).slots().update(
                node_idx as int,
                (key, value, 1usize),
            )) by {
                assert forall|i: int| 0 <= i < nodes0.len() implies nodes2[i].key == nodes1[i].key
                    && nodes2[i].val == nodes1[i].val && nodes2[i].freq == nodes1[i].freq by {
                    assert(nodes1[i].key == nodes2[i].key);
                }
            }
        }
    }

    /// Stores `value` under `key` and reports whether the key is now stored,
    /// which fails only when the capacity is 0. Storing under a key already
    /// present overwrites its value and counts as an access. A new key enters
    /// with access count 1; if the cache is full, the least recently promoted
    /// entry of the smallest access count leaves first.
    pub fn put(&mut self, key: i32, value: i32) -> (stored: bool)
        requires
            old(self).wf(),
            old(self)@.put_fits(key, usize::MAX as nat),
        ensures
            final(self).wf(),
            stored == (old(self)@.capacity != 0),
            final(self)@ == old(self)@.put(key, value),
            final(self)@.inv(),
            final(self)@.len() <= final(self)@.capacity,
            stored ==> final(self)@.lookup(key) == Some(value),
            old(self)@.evicts_for(key) ==> {
                &&& old(self)@.contains(old(self)@.victim())
                &&& !final(self)@.contains(old(self)@.victim())
                &&& forall|x: i32| #[trigger]
                    old(self)@.contains(x) ==> old(self)@.freq_of(old(self)@.victim()) <= old(
                        self,
                    )@.freq_of(x)
                &&& old(self)@.bucket(old(self)@.freq_of(old(self)@.victim())).last() == old(
                    self,
                )@.victim()
                &&& final(self)@.entries == old(self)@.entries.remove(old(self)@.victim()).insert(
                    key,
                    Entry { value, freq: 1 },
                )
            },
            final(self).slots() == old(self)@.slots_after_put(old(self).slots(), key, value),
            final(self)@.stored_in(final(self).slots()),
    {
        broadcast use vstd::std_specs::hash::group_hash_axioms;

        proof {
            self.wf_implies_inv();
            if self@.capacity > 0 {
                lemma_put_then_lookup(self@, key, value);
            }
            if self@.evicts_for(key) {
                lemma_put_evicts_victim(self@, key, value);
            }
        }
        if self.capacity == 0 {
            proof {
                self.wf_implies_slots();
            }
            return false;
        }
        let ghost m0 = self@;
        let ghost nodes0 = self.nodes@;
        let ghost km0 = self.key_map@;
        proof {
            assert(m0.entries.dom() =~= self.key_map@.dom());
        }
        let found = self.key_map.get(&key);
        if let Some(idx_ref) = found {
            let node_idx = *idx_ref;
            proof {
                lemma_slot_of_key(nodes0, km0, key);
            }
            self.nodes[node_idx].val = value;
            proof {
                let nodes1 = self.nodes@;
                assert(self.slots() =~= old(self).slots().update(
                    node_idx as int,
                    (key, value, nodes0[node_idx as int].freq),
                ));
                lemma_members_in(nodes0, self.lists@, self.freq_heads@, self.freq_tails@, None);
                lemma_buckets_frame(nodes0, nodes1, self.lists@, None);
                assert(self@.entries =~= m0.with_value(key, value).entries);
                assert(self@ == m0.with_value(key, value));
                lemma_links_frame(
                    nodes0,
                    nodes1,
                    self.lists@,
                    self.freq_heads@,
                    self.freq_tails@,
                    None,
                    None,
                );
                lemma_keys_frame(nodes0, nodes1, self.key_map@, None, None);
            }
            self.promote(node_idx);
            proof {
                self.wf_implies_inv();
                self.wf_implies_slots();
                assert(self.slots() =~= accessed(old(self).slots(), key, value));
            }
            return true;
        }
        if self.nodes.len() < self.capacity {
            let new_idx = self.nodes.len();
            self.nodes.push(Node { key: 0, val: 0, freq: 0, prev: None, next: None });
            proof {
                let nodes1 = self.nodes@;
                lemma_members_in(nodes0, self.lists@, self.freq_heads@, self.freq_tails@, None);
                lemma_buckets_frame(nodes0, nodes1, self.lists@, None);
                assert(self@.entries =~= m0.entries);
                assert(self@ == m0);
                lemma_links_frame(
                    nodes0,
                    nodes1,
                    self.lists@,
                    self.freq_heads@,
                    self.freq_tails@,
                    None,
                    Some(new_idx),
                );
                lemma_keys_frame(nodes0, nodes1, self.key_map@, None, Some(new_idx));
                assert(self.slots() =~= old(self).slots().push((0i32, 0i32, 0usize)));
            }
            self.insert_new_node_at(new_idx, key, value);
            proof {
                self.wf_implies_inv();
                self.wf_implies_slots();
                assert(self.slots() =~= old(self).slots().push((key, value, 1usize)));
            }
            return true;
        }
        proof {
            assert(m0.bucket(self.min_freq as nat).len() == self.lists@[self.min_freq].len());
        }
        let evict_idx = self.evict_lfu_node();
        proof {
            assert(!m0.evict().entries.contains_key(key));
            assert(self@.entries.contains_key(key) == self.key_map@.contains_key(key));
            lemma_same_slots(nodes0, self.nodes@);
            lemma_slot_of_key(nodes0, km0, m0.victim());
        }
        self.insert_new_node_at(evict_idx, key, value);
        proof {
            self.wf_implies_inv();
            self.wf_implies_slots();
        }
        true
    }

    /// Forgets every entry. The capacity stays.
    pub fn clear(&mut self)
        ensures
            final(self).wf(),
            final(self)@ == CacheModel::empty(old(self)@.capacity),
            final(self)@.inv(),
            final(self).slots() == Seq::<Slot>::empty(),
    {
        self.key_map.clear();
        self.freq_heads.clear();
        self.freq_tails.clear();
        self.nodes.clear();
        self.min_freq = 0;
        proof {
            self.lists@ = Map::empty();
            assert(self@.entries =~= Map::empty());
            assert(self@.buckets =~= Map::empty());
            assert(self.slots() =~= Seq::<Slot>::empty());
            self.wf_implies_inv();
        }
    }

    /// The stored entries as triples of key, value and access count, slot by
    /// slot: one triple for each stored key, in the order of the arena.
    pub fn inspect(&self) -> (snapshot: Vec<(i32, i32, usize)>)
        requires
            self.wf(),
        ensures
            snapshot@ == self.slots(),
            self@.stored_in(snapshot@),
    {
        let mut snapshot: Vec<(i32, i32, usize)> = Vec::new();
        let mut i: usize = 0;
        while i < self.nodes.len()
            invariant
                i <= self.nodes@.len(),
                snapshot@.len() == i,
                forall|j: int| 0 <= j < i ==> (#[trigger] snapshot@[j]) == slots_of(self.nodes@)[j],
            decreases self.nodes@.len() - i,
        {
            let node = &self.nodes[i];
            snapshot.push((node.key, node.val, node.freq));
            i += 1;
        }
        proof {
            assert(snapshot@ =~= self.slots());
            self.wf_implies_slots();
        }
        snapshot
    }

    /// The slots of a consistent cache hold what its abstract state stores:
    /// one slot for each stored key, with its value and access count.
    pub proof fn wf_implies_slots(&self)
        requires
            self.wf(),
        ensures
            self@.stored_in(self.slots()),
    {
        let km = self.key_map@;
        let nodes = self.nodes@;
        let slots = self.slots();
        let m = self@;
        assert(m.entries.dom() =~= km.dom());
        assert forall|j: int| 0 <= j < slots.len() implies m.contains((#[trigger] slots[j]).0)
            && m.entries[slots[j].0].value == slots[j].1 && m.entries[slots[j].0].freq
            == slots[j].2 by {
            assert(km[nodes[j as usize as int].key] == j);
        }
        assert forall|a: int, b: int| 0 <= a < b < slots.len() implies (#[trigger] slots[a]).0 != (
        #[trigger] slots[b]).0 by {
            assert(km[nodes[a as usize as int].key] == a);
            assert(km[nodes[b as usize as int].key] == b);
        }
        assert forall|k: i32| m.contains(k) implies 0 <= slot_of(slots, k) < slots.len()
            && slots[slot_of(slots, k)].0 == k by {
            assert(km.contains_key(k));
            assert(slots[km[k] as int].0 == k);
        }
    }

    /// A consistent cache stands for a consistent abstract state.
    pub proof fn wf_implies_inv(&self)
        requires
            self.wf(),
        ensures
            self@.inv(),
    {
        let m = self@;
        let km = self.key_map@;
        let nodes = self.nodes@;
        let lists = self.lists@;
        assert(m.entries.dom() =~= km.dom());
        assert forall|k: i32| #[trigger] m.entries.contains_key(k) implies {
            &&& m.entries[k].freq >= 1
            &&& m.buckets.contains_key(m.entries[k].freq)
            &&& m.buckets[m.entries[k].freq].contains(k)
        } by {
            let i = km[k];
            assert(nodes[i as int].key == k);
            assert(listed(lists, nodes, i));
            let l = lists[nodes[i as int].freq];
            let q = choose|q: int| 0 <= q < l.len() && l[q] == i;
            assert(key_seq(nodes, l)[q] == k);
        }
        assert forall|f: nat| #[trigger] m.buckets.contains_key(f) implies {
            &&& m.buckets[f].len() > 0
            &&& m.buckets[f].no_duplicates()
        } by {
            lemma_key_seq_positions(nodes, km, None, lists[f as usize], f as usize);
        }
        assert forall|f: nat, j: int|
            m.buckets.contains_key(f) && 0 <= j < m.buckets[f].len() implies {
            &&& m.entries.contains_key(#[trigger] m.buckets[f][j])
            &&& m.entries[m.buckets[f][j]].freq == f
        } by {
            let l = lists[f as usize];
            lemma_key_seq_positions(nodes, km, None, l, f as usize);
            assert(link_at(nodes, l, f as usize, j));
            assert(km[key_seq(nodes, l)[j]] == l[j]);
        }
        if m.len() > 0 {
            assert forall|f: nat| #[trigger] m.buckets.contains_key(f) implies m.min_freq <= f by {
                assert(lists.contains_key(f as usize));
            }
        }
    }
}

} // verus!
