//! Mathematical model of a least-frequently-used cache.
//!
//! The model records, for every stored key, its value and its access count,
//! and, for every access count in use, the keys that have it, ordered from the
//! most recently promoted (first) to the least recently promoted (last).
//! The executable cache is specified entirely in terms of this model.

use vstd::prelude::*;

verus! {

/// What the cache holds for one stored key.
pub struct Entry {
    pub value: i32,
    pub freq: nat,
}

/// Abstract state of the cache.
pub struct CacheModel {
    /// Largest number of keys that may be stored.
    pub capacity: nat,
    /// Smallest access count among the stored keys; 0 while nothing is stored.
    pub min_freq: nat,
    /// Stored keys with their value and access count.
    pub entries: Map<i32, Entry>,
    /// For each access count in use, the keys that have it, most recently
    /// promoted first.
    pub buckets: Map<nat, Seq<i32>>,
}

/// An operation of the cache's interface, for statements about runs.
pub enum Op {
    Get { key: i32 },
    Put { key: i32, value: i32 },
}

/// `s` with the element at the position of `k` taken out.
pub open spec fn without(s: Seq<i32>, k: i32) -> Seq<i32> {
    s.remove(s.index_of(k))
}

/// One slot of the cache's storage: a key with its value and access count.
pub type Slot = (i32, i32, usize);

/// The position of the slot that holds `k`.
pub open spec fn slot_of(slots: Seq<Slot>, k: i32) -> int {
    choose|i: int| 0 <= i < slots.len() && (#[trigger] slots[i]).0 == k
}

/// The slots after an access to `k` that leaves `v` as its value: the slot
/// of `k` holds `v` and a count that is one higher; no other slot changes.
pub open spec fn accessed(slots: Seq<Slot>, k: i32, v: i32) -> Seq<Slot> {
    let i = slot_of(slots, k);
    slots.update(i, (k, v, (slots[i].2 + 1) as usize))
}

impl CacheModel {
    /// The cache of the given capacity that stores nothing.
    pub open spec fn empty(capacity: nat) -> CacheModel {
        CacheModel { capacity, min_freq: 0, entries: Map::empty(), buckets: Map::empty() }
    }

    pub open spec fn contains(self, k: i32) -> bool {
        self.entries.contains_key(k)
    }

    pub open spec fn len(self) -> nat {
        self.entries.dom().len()
    }

    /// The value stored for `k`, if any.
    pub open spec fn lookup(self, k: i32) -> Option<i32> {
        if self.contains(k) {
            Some(self.entries[k].value)
        } else {
            None
        }
    }

    /// The access count of a stored key.
    pub open spec fn freq_of(self, k: i32) -> nat {
        self.entries[k].freq
    }

    /// The keys with access count `f`, most recently promoted first.
    pub open spec fn bucket(self, f: nat) -> Seq<i32> {
        if self.buckets.contains_key(f) {
            self.buckets[f]
        } else {
            Seq::empty()
        }
    }

    /// The key that the next eviction removes: the least recently promoted
    /// among those with the smallest access count.
    pub open spec fn victim(self) -> i32 {
        self.buckets[self.min_freq].last()
    }

    /// Takes `k` out of the bucket of its access count. A bucket left empty
    /// disappears, and if it was the bucket of the smallest count, the
    /// smallest count moves up by one.
    pub open spec fn detach(self, k: i32) -> CacheModel {
        let f = self.entries[k].freq;
        let rest = without(self.buckets[f], k);
        CacheModel {
            buckets: if rest.len() == 0 {
                self.buckets.remove(f)
            } else {
                self.buckets.insert(f, rest)
            },
            min_freq: if rest.len() == 0 && f == self.min_freq {
                f + 1
            } else {
                self.min_freq
            },
            ..self
        }
    }

    /// Puts `k` in front of the bucket of its access count.
    pub open spec fn attach(self, k: i32) -> CacheModel {
        let f = self.entries[k].freq;
        CacheModel { buckets: self.buckets.insert(f, seq![k] + self.bucket(f)), ..self }
    }

    /// Adds one to the access count recorded for `k`.
    pub open spec fn bump(self, k: i32) -> CacheModel {
        let e = self.entries[k];
        CacheModel {
            entries: self.entries.insert(k, Entry { value: e.value, freq: e.freq + 1 }),
            ..self
        }
    }

    /// Replaces the value recorded for `k`.
    pub open spec fn with_value(self, k: i32, v: i32) -> CacheModel {
        let e = self.entries[k];
        CacheModel { entries: self.entries.insert(k, Entry { value: v, freq: e.freq }), ..self }
    }

    /// One access to a stored key: its count goes up by one and it becomes
    /// the most recently promoted key of its new bucket.
    pub open spec fn promote(self, k: i32) -> CacheModel {
        self.detach(k).bump(k).attach(k)
    }

    /// Removes the victim.
    pub open spec fn evict(self) -> CacheModel {
        let k = self.victim();
        let d = self.detach(k);
        CacheModel { entries: d.entries.remove(k), ..d }
    }

    /// Stores a key that is not yet present, with access count 1.
    pub open spec fn insert_fresh(self, k: i32, v: i32) -> CacheModel {
        CacheModel {
            entries: self.entries.insert(k, Entry { value: v, freq: 1 }),
            min_freq: 1,
            ..self
        }.attach(k)
    }

    /// State after a lookup of `k`.
    pub open spec fn get(self, k: i32) -> CacheModel {
        if self.contains(k) {
            self.promote(k)
        } else {
            self
        }
    }

    /// State after storing `v` under `k`.
    pub open spec fn put(self, k: i32, v: i32) -> CacheModel {
        if self.capacity == 0 {
            self
        } else if self.contains(k) {
            self.with_value(k, v).promote(k)
        } else if self.len() < self.capacity {
            self.insert_fresh(k, v)
        } else {
            self.evict().insert_fresh(k, v)
        }
    }

    /// State after one operation.
    pub open spec fn step(self, op: Op) -> CacheModel {
        match op {
            Op::Get { key } => self.get(key),
            Op::Put { key, value } => self.put(key, value),
        }
    }

    /// State after a run of operations, first to last.
    pub open spec fn run(self, ops: Seq<Op>) -> CacheModel
        decreases ops.len(),
    {
        if ops.len() == 0 {
            self
        } else {
            self.run(ops.drop_last()).step(ops.last())
        }
    }

    /// Storing under `k` evicts: the capacity is not 0, `k` is not stored and
    /// there is no room.
    pub open spec fn evicts_for(self, k: i32) -> bool {
        self.capacity > 0 && !self.contains(k) && self.len() >= self.capacity
    }

    /// The slots after a lookup of `k`: a hit is an access to the slot of
    /// `k`; a miss changes no slot.
    pub open spec fn slots_after_get(self, slots: Seq<Slot>, k: i32) -> Seq<Slot> {
        if self.contains(k) {
            accessed(slots, k, self.entries[k].value)
        } else {
            slots
        }
    }

    /// The slots after storing `v` under `k`. With capacity 0 no slot
    /// changes. A key that is stored is accessed in its slot. A new key
    /// takes a new slot at the end while there is room, and the slot of the
    /// victim once the cache is full.
    pub open spec fn slots_after_put(self, slots: Seq<Slot>, k: i32, v: i32) -> Seq<Slot> {
        if self.capacity == 0 {
            slots
        } else if self.contains(k) {
            accessed(slots, k, v)
        } else if self.len() < self.capacity {
            slots.push((k, v, 1usize))
        } else {
            slots.update(slot_of(slots, self.victim()), (k, v, 1usize))
        }
    }

    /// The slots hold what the state stores: one slot for each stored key,
    /// with its value and access count, and no key in two slots.
    pub open spec fn stored_in(self, slots: Seq<Slot>) -> bool {
        &&& slots.len() == self.len()
        &&& forall|i: int|
            0 <= i < slots.len() ==> {
                &&& self.contains((#[trigger] slots[i]).0)
                &&& self.entries[slots[i].0].value == slots[i].1
                &&& self.entries[slots[i].0].freq == slots[i].2
            }
        &&& forall|i: int, j: int|
            0 <= i < j < slots.len() ==> (#[trigger] slots[i]).0 != (#[trigger] slots[j]).0
        &&& forall|k: i32|
            self.contains(k) ==> 0 <= slot_of(slots, k) < slots.len() && slots[slot_of(
                slots,
                k,
            )].0 == k
    }

    /// A lookup of `k` can be counted with access counts below `limit`: the
    /// key is not stored, or its count is below `limit`.
    pub open spec fn get_fits(self, k: i32, limit: nat) -> bool {
        self.contains(k) ==> self.freq_of(k) < limit
    }

    /// Storing under `k` can be counted with access counts below `limit`:
    /// the count of `k`, if it is stored, is below `limit`; and if storing
    /// `k` evicts the only key of the smallest count, so that the smallest
    /// count moves up, that count is below `limit`.
    pub open spec fn put_fits(self, k: i32, limit: nat) -> bool {
        if self.contains(k) {
            self.freq_of(k) < limit
        } else {
            self.capacity > 0 && self.len() >= self.capacity && self.bucket(self.min_freq).len()
                == 1 ==> self.min_freq < limit
        }
    }

    /// Entries and buckets describe each other: every stored key but `hole`
    /// has a positive access count and is in the bucket of that count, and
    /// every bucket is a non-empty sequence of distinct stored keys other than
    /// `hole`, each with the bucket's access count.
    pub open spec fn linked(self, hole: Option<i32>) -> bool {
        &&& self.entries.dom().finite()
        &&& forall|k: i32| #[trigger]
            self.entries.contains_key(k) && hole != Some(k) ==> {
                &&& self.entries[k].freq >= 1
                &&& self.buckets.contains_key(self.entries[k].freq)
                &&& self.buckets[self.entries[k].freq].contains(k)
            }
        &&& forall|f: nat| #[trigger]
            self.buckets.contains_key(f) ==> {
                &&& self.buckets[f].len() > 0
                &&& self.buckets[f].no_duplicates()
            }
        &&& forall|f: nat, j: int|
            self.buckets.contains_key(f) && 0 <= j < self.buckets[f].len() ==> {
                &&& self.entries.contains_key(#[trigger] self.buckets[f][j])
                &&& self.entries[self.buckets[f][j]].freq == f
                &&& hole != Some(self.buckets[f][j])
            }
    }

    /// The consistency that every reachable state has: entries and buckets
    /// describe each other, no more keys are stored than the capacity allows,
    /// and `min_freq` is the smallest access count in use.
    pub open spec fn inv(self) -> bool {
        &&& self.linked(None)
        &&& self.len() <= self.capacity
        &&& self.len() == 0 ==> self.min_freq == 0
        &&& self.len() > 0 ==> {
            &&& self.buckets.contains_key(self.min_freq)
            &&& forall|f: nat| #[trigger] self.buckets.contains_key(f) ==> self.min_freq <= f
        }
    }
}

/// Taking a member out of a sequence of distinct keys leaves the others,
/// distinct and in their order.
proof fn lemma_without(s: Seq<i32>, k: i32)
    requires
        s.no_duplicates(),
        s.contains(k),
    ensures
        without(s, k).len() == s.len() - 1,
        without(s, k).no_duplicates(),
        !without(s, k).contains(k),
        forall|x: i32| x != k && s.contains(x) ==> without(s, k).contains(x),
        forall|j: int|
            0 <= j < without(s, k).len() ==> s.contains(#[trigger] without(s, k)[j]) && without(
                s,
                k,
            )[j] != k,
        s.last() != k ==> without(s, k).len() > 0 && without(s, k).last() == s.last(),
{
    let p = s.index_of(k);
    let r = without(s, k);
    assert(0 <= p < s.len() && s[p] == k);
    assert forall|j: int| 0 <= j < r.len() implies s.contains(#[trigger] r[j]) && r[j] != k by {
        if j < p {
            assert(r[j] == s[j]);
        } else {
            assert(r[j] == s[j + 1]);
        }
    }
    assert forall|x: i32| x != k && s.contains(x) implies r.contains(x) by {
        let q = choose|q: int| 0 <= q < s.len() && s[q] == x;
        if q < p {
            assert(r[q] == x);
        } else {
            assert(r[q - 1] == x);
        }
    }
    if s.last() != k {
        assert(p < s.len() - 1);
        assert(r[r.len() - 1] == s[s.len() - 1]);
    }
}

/// Detaching a stored key leaves a state that is consistent but for that key.
proof fn lemma_detach(m: CacheModel, k: i32)
    requires
        m.linked(None),
        m.contains(k),
    ensures
        m.detach(k).linked(Some(k)),
        m.detach(k).entries == m.entries,
        m.detach(k).capacity == m.capacity,
        forall|f: nat| #[trigger]
            m.detach(k).buckets.contains_key(f) ==> m.buckets.contains_key(f),
        forall|f: nat|
            f != m.entries[k].freq && m.buckets.contains_key(f) ==> #[trigger] m.detach(
                k,
            ).buckets.contains_key(f) && m.detach(k).buckets[f] == m.buckets[f],
        m.detach(k).buckets.contains_key(m.entries[k].freq) ==> m.detach(
            k,
        ).buckets[m.entries[k].freq] == without(m.buckets[m.entries[k].freq], k),
        !m.detach(k).buckets.contains_key(m.entries[k].freq) ==> m.buckets[m.entries[k].freq]
            == seq![k],
{
    let f = m.entries[k].freq;
    let b = m.buckets[f];
    let rest = without(b, k);
    let d = m.detach(k);
    lemma_without(b, k);
    assert forall|x: i32| #[trigger] d.entries.contains_key(x) && x != k implies {
        &&& d.entries[x].freq >= 1
        &&& d.buckets.contains_key(d.entries[x].freq)
        &&& d.buckets[d.entries[x].freq].contains(x)
    } by {
        let g = m.entries[x].freq;
        assert(m.buckets[g].contains(x));
        if g == f {
            assert(rest.contains(x));
        }
    }
    assert forall|g: nat, j: int| d.buckets.contains_key(g) && 0 <= j < d.buckets[g].len() implies {
        &&& d.entries.contains_key(#[trigger] d.buckets[g][j])
        &&& d.entries[d.buckets[g][j]].freq == g
        &&& d.buckets[g][j] != k
    } by {
        if g == f {
            let q = choose|q: int| 0 <= q < b.len() && b[q] == rest[j];
            assert(m.entries.contains_key(m.buckets[f][q]));
        } else {
            assert(m.entries.contains_key(m.buckets[g][j]));
        }
    }
    if !d.buckets.contains_key(f) {
        assert(b.len() == 1);
        assert(b[b.index_of(k)] == k);
        assert(b =~= seq![k]);
    }
}

/// Attaching the one key that is in no bucket makes the state consistent.
proof fn lemma_attach(m: CacheModel, k: i32)
    requires
        m.linked(Some(k)),
        m.contains(k),
        m.entries[k].freq >= 1,
    ensures
        m.attach(k).linked(None),
        m.attach(k).entries == m.entries,
        m.attach(k).capacity == m.capacity,
        m.attach(k).min_freq == m.min_freq,
        m.attach(k).buckets.contains_key(m.entries[k].freq),
        forall|f: nat| #[trigger]
            m.attach(k).buckets.contains_key(f) ==> f == m.entries[k].freq
                || m.buckets.contains_key(f),
        forall|f: nat| #[trigger]
            m.buckets.contains_key(f) ==> m.attach(k).buckets.contains_key(f),
{
    let f = m.entries[k].freq;
    let old_bucket = m.bucket(f);
    let grown = seq![k] + old_bucket;
    let a = m.attach(k);
    assert(grown[0] == k);
    assert forall|x: i32| #[trigger] a.entries.contains_key(x) implies {
        &&& a.entries[x].freq >= 1
        &&& a.buckets.contains_key(a.entries[x].freq)
        &&& a.buckets[a.entries[x].freq].contains(x)
    } by {
        if x != k {
            let g = m.entries[x].freq;
            assert(m.buckets[g].contains(x));
            if g == f {
                let q = choose|q: int| 0 <= q < old_bucket.len() && old_bucket[q] == x;
                assert(grown[q + 1] == x);
            }
        }
    }
    assert forall|g: nat, j: int| a.buckets.contains_key(g) && 0 <= j < a.buckets[g].len() implies {
        &&& a.entries.contains_key(#[trigger] a.buckets[g][j])
        &&& a.entries[a.buckets[g][j]].freq == g
    } by {
        if g == f {
            if j > 0 {
                assert(grown[j] == old_bucket[j - 1]);
                assert(m.entries.contains_key(m.buckets[f][j - 1]));
            }
        } else {
            assert(m.entries.contains_key(m.buckets[g][j]));
        }
    }
    assert(grown.no_duplicates()) by {
        assert forall|i: int, j: int|
            0 <= i < grown.len() && 0 <= j < grown.len() && i != j implies grown[i]
            != grown[j] by {
            if i > 0 {
                assert(grown[i] == old_bucket[i - 1]);
                assert(m.buckets[f][i - 1] != k);
            }
            if j > 0 {
                assert(grown[j] == old_bucket[j - 1]);
                assert(m.buckets[f][j - 1] != k);
            }
        }
    }
}

/// Every access count in use is at least 1.
proof fn lemma_buckets_positive(m: CacheModel, hole: Option<i32>)
    requires
        m.linked(hole),
    ensures
        forall|f: nat| #[trigger] m.buckets.contains_key(f) ==> f >= 1,
{
    assert forall|f: nat| #[trigger] m.buckets.contains_key(f) implies f >= 1 by {
        assert(m.entries.contains_key(m.buckets[f][0]));
    }
}

/// A state that stores a key stores at least one.
proof fn lemma_len_positive(m: CacheModel, k: i32)
    requires
        m.entries.dom().finite(),
        m.contains(k),
    ensures
        m.len() > 0,
{
    if m.len() == 0 {
        assert(m.entries.dom() =~= Set::empty());
    }
}

/// An access to a stored key keeps the state consistent and the stored keys
/// the same.
pub proof fn lemma_promote_keeps_inv(m: CacheModel, k: i32)
    requires
        m.inv(),
        m.contains(k),
    ensures
        m.promote(k).inv(),
        m.promote(k).entries.dom() == m.entries.dom(),
        m.promote(k).capacity == m.capacity,
{
    let f = m.entries[k].freq;
    let d = m.detach(k);
    let b = d.bump(k);
    let a = b.attach(k);
    lemma_len_positive(m, k);
    lemma_detach(m, k);
    assert(b.linked(Some(k))) by {
        assert forall|g: nat, j: int|
            b.buckets.contains_key(g) && 0 <= j < b.buckets[g].len() implies {
            &&& b.entries.contains_key(#[trigger] b.buckets[g][j])
            &&& b.entries[b.buckets[g][j]].freq == g
            &&& b.buckets[g][j] != k
        } by {
            assert(d.entries.contains_key(d.buckets[g][j]));
        }
    }
    lemma_attach(b, k);
    assert(a.entries.dom() =~= m.entries.dom());
    assert forall|g: nat| #[trigger] a.buckets.contains_key(g) implies a.min_freq <= g by {
        if g != f + 1 {
            assert(b.buckets.contains_key(g));
            assert(m.buckets.contains_key(g));
        }
    }
    if !d.buckets.contains_key(f) {
    } else {
        assert(b.buckets.contains_key(f));
    }
    if f != m.min_freq {
        assert(d.buckets.contains_key(m.min_freq));
        assert(b.buckets.contains_key(m.min_freq));
    }
}

/// A lookup keeps the state consistent.
pub proof fn lemma_get_keeps_inv(m: CacheModel, k: i32)
    requires
        m.inv(),
    ensures
        m.get(k).inv(),
        m.get(k).capacity == m.capacity,
{
    if m.contains(k) {
        lemma_promote_keeps_inv(m, k);
    }
}

/// Storing a key that is not present, where there is room, keeps the state
/// consistent.
proof fn lemma_insert_fresh(m: CacheModel, k: i32, v: i32)
    requires
        m.linked(None),
        !m.contains(k),
        m.len() < m.capacity,
    ensures
        m.insert_fresh(k, v).inv(),
        m.insert_fresh(k, v).capacity == m.capacity,
        m.insert_fresh(k, v).entries == m.entries.insert(k, Entry { value: v, freq: 1 }),
        m.insert_fresh(k, v).len() == m.len() + 1,
{
    let e = CacheModel {
        entries: m.entries.insert(k, Entry { value: v, freq: 1 }),
        min_freq: 1,
        ..m
    };
    assert(e.linked(Some(k))) by {
        assert forall|g: nat, j: int|
            e.buckets.contains_key(g) && 0 <= j < e.buckets[g].len() implies {
            &&& e.entries.contains_key(#[trigger] e.buckets[g][j])
            &&& e.entries[e.buckets[g][j]].freq == g
            &&& e.buckets[g][j] != k
        } by {
            assert(m.entries.contains_key(m.buckets[g][j]));
        }
    }
    lemma_attach(e, k);
    lemma_buckets_positive(e.attach(k), None);
    lemma_len_positive(e.attach(k), k);
}

/// Removing the victim of a state that stores something leaves a state whose
/// entries and buckets describe each other, with one key fewer.
proof fn lemma_evict(m: CacheModel)
    requires
        m.inv(),
        m.len() > 0,
    ensures
        m.contains(m.victim()),
        m.freq_of(m.victim()) == m.min_freq,
        m.evict().linked(None),
        m.evict().capacity == m.capacity,
        m.evict().entries == m.entries.remove(m.victim()),
        m.evict().len() == m.len() - 1,
{
    let k = m.victim();
    let b = m.buckets[m.min_freq];
    assert(m.entries.contains_key(m.buckets[m.min_freq][b.len() - 1]));
    lemma_detach(m, k);
    let d = m.detach(k);
    let e = m.evict();
    assert(e.linked(None)) by {
        assert forall|g: nat, j: int|
            e.buckets.contains_key(g) && 0 <= j < e.buckets[g].len() implies {
            &&& e.entries.contains_key(#[trigger] e.buckets[g][j])
            &&& e.entries[e.buckets[g][j]].freq == g
        } by {
            assert(d.entries.contains_key(d.buckets[g][j]));
        }
    }
}

/// Storing keeps the state consistent; in particular it never stores more
/// keys than the capacity allows.
pub proof fn lemma_put_keeps_inv(m: CacheModel, k: i32, v: i32)
    requires
        m.inv(),
    ensures
        m.put(k, v).inv(),
        m.put(k, v).capacity == m.capacity,
        m.put(k, v).len() <= m.capacity,
{
    if m.capacity == 0 {
    } else if m.contains(k) {
        let w = m.with_value(k, v);
        assert(w.entries.dom() =~= m.entries.dom());
        assert(w.inv()) by {
            assert forall|g: nat, j: int|
                w.buckets.contains_key(g) && 0 <= j < w.buckets[g].len() implies {
                &&& w.entries.contains_key(#[trigger] w.buckets[g][j])
                &&& w.entries[w.buckets[g][j]].freq == g
            } by {
                assert(m.entries.contains_key(m.buckets[g][j]));
            }
        }
        lemma_promote_keeps_inv(w, k);
    } else if m.len() < m.capacity {
        lemma_insert_fresh(m, k, v);
    } else {
        lemma_evict(m);
        lemma_insert_fresh(m.evict(), k, v);
    }
}

/// Every operation keeps the state consistent.
pub proof fn lemma_step_keeps_inv(m: CacheModel, op: Op)
    requires
        m.inv(),
    ensures
        m.step(op).inv(),
        m.step(op).capacity == m.capacity,
{
    match op {
        Op::Get { key } => lemma_get_keeps_inv(m, key),
        Op::Put { key, value } => lemma_put_keeps_inv(m, key, value),
    }
}

/// After any run of operations from a consistent state, the state is
/// consistent, and the number of stored keys is within the capacity.
pub proof fn lemma_run_keeps_inv(m: CacheModel, ops: Seq<Op>)
    requires
        m.inv(),
    ensures
        m.run(ops).inv(),
        m.run(ops).capacity == m.capacity,
        m.run(ops).len() <= m.capacity,
    decreases ops.len(),
{
    if ops.len() > 0 {
        lemma_run_keeps_inv(m, ops.drop_last());
        lemma_step_keeps_inv(m.run(ops.drop_last()), ops.last());
    }
}

/// The empty cache is consistent, whatever its capacity.
pub proof fn lemma_empty_inv(capacity: nat)
    ensures
        CacheModel::empty(capacity).inv(),
        CacheModel::empty(capacity).len() == 0,
{
}

/// Whatever is done to a cache from the time it is made, in whatever order,
/// it never stores more keys than its capacity allows.
pub proof fn lemma_capacity_bound(capacity: nat, ops: Seq<Op>)
    ensures
        CacheModel::empty(capacity).run(ops).len() <= capacity,
        CacheModel::empty(capacity).run(ops).inv(),
{
    lemma_empty_inv(capacity);
    lemma_run_keeps_inv(CacheModel::empty(capacity), ops);
}

/// An access adds exactly one to the access count of the key accessed, keeps
/// its value, and leaves every other entry as it was.
pub proof fn lemma_promote_counts(m: CacheModel, k: i32)
    requires
        m.inv(),
        m.contains(k),
    ensures
        m.promote(k).contains(k),
        m.promote(k).freq_of(k) == m.freq_of(k) + 1,
        m.promote(k).lookup(k) == m.lookup(k),
        forall|x: i32|
            x != k ==> m.promote(k).contains(x) == #[trigger] m.contains(x) && (m.contains(x)
                ==> m.promote(k).entries[x] == m.entries[x]),
{
}

/// An access puts the key in front of the bucket of its new access count,
/// takes it out of the bucket of its old one, and leaves the order of all
/// other keys as it was. So the last key of a bucket is the one that was
/// promoted to it the longest ago.
pub proof fn lemma_promote_order(m: CacheModel, k: i32)
    requires
        m.inv(),
        m.contains(k),
    ensures
        m.promote(k).bucket(m.freq_of(k) + 1) == seq![k] + m.bucket(m.freq_of(k) + 1),
        m.promote(k).bucket(m.freq_of(k)) == without(m.bucket(m.freq_of(k)), k),
        forall|f: nat|
            f != m.freq_of(k) && f != m.freq_of(k) + 1 ==> #[trigger] m.promote(k).bucket(f)
                == m.bucket(f),
{
    let f = m.freq_of(k);
    lemma_detach(m, k);
    let d = m.detach(k);
    if !d.buckets.contains_key(f) {
        lemma_without(m.buckets[f], k);
        assert(without(m.buckets[f], k) =~= Seq::empty());
    }
}

/// A hit adds exactly one to the access count of the key looked up and
/// changes no other entry.
pub proof fn lemma_get_counts(m: CacheModel, k: i32)
    requires
        m.inv(),
        m.contains(k),
    ensures
        m.get(k).contains(k),
        m.get(k).freq_of(k) == m.freq_of(k) + 1,
        m.get(k).lookup(k) == m.lookup(k),
        forall|x: i32|
            x != k ==> m.get(k).contains(x) == #[trigger] m.contains(x) && (m.contains(x) ==> m.get(
                k,
            ).entries[x] == m.entries[x]),
{
    lemma_promote_counts(m, k);
}

/// Storing under a key already present adds exactly one to its access count
/// and changes no other entry.
pub proof fn lemma_put_update_counts(m: CacheModel, k: i32, v: i32)
    requires
        m.inv(),
        m.contains(k),
    ensures
        m.put(k, v).contains(k),
        m.put(k, v).freq_of(k) == m.freq_of(k) + 1,
        m.put(k, v).lookup(k) == Some(v),
        forall|x: i32|
            x != k ==> m.put(k, v).contains(x) == #[trigger] m.contains(x) && (m.contains(x)
                ==> m.put(k, v).entries[x] == m.entries[x]),
{
    lemma_len_positive(m, k);
}

/// Storing a key that is not present, in a cache with room, adds the key with
/// access count 1 and changes no other entry.
pub proof fn lemma_put_new_with_room(m: CacheModel, k: i32, v: i32)
    requires
        m.inv(),
        !m.contains(k),
        m.len() < m.capacity,
    ensures
        m.put(k, v).entries == m.entries.insert(k, Entry { value: v, freq: 1 }),
        m.put(k, v).len() == m.len() + 1,
        m.put(k, v).bucket(1) == seq![k] + m.bucket(1),
{
    lemma_insert_fresh(m, k, v);
}

/// Storing a key that is not present, in a full cache, removes exactly one
/// key: the victim. The victim has the smallest access count of all stored
/// keys and is the last, so the least recently promoted, of the bucket of
/// that count. Every other entry stays as it was, and the new key enters
/// with access count 1.
pub proof fn lemma_put_evicts_victim(m: CacheModel, k: i32, v: i32)
    requires
        m.inv(),
        m.capacity > 0,
        !m.contains(k),
        m.len() >= m.capacity,
    ensures
        m.contains(m.victim()),
        forall|x: i32| #[trigger] m.contains(x) ==> m.freq_of(m.victim()) <= m.freq_of(x),
        m.bucket(m.freq_of(m.victim())).last() == m.victim(),
        !m.put(k, v).contains(m.victim()),
        m.put(k, v).lookup(m.victim()) == None::<i32>,
        m.put(k, v).entries == m.entries.remove(m.victim()).insert(
            k,
            Entry { value: v, freq: 1 },
        ),
        m.put(k, v).len() == m.len(),
{
    lemma_evict(m);
    lemma_insert_fresh(m.evict(), k, v);
    assert forall|x: i32| #[trigger] m.contains(x) implies m.freq_of(m.victim()) <= m.freq_of(
        x,
    ) by {
        assert(m.buckets.contains_key(m.entries[x].freq));
    }
}

/// Over one operation, the access count of a key that is stored before and
/// after does not go down.
pub proof fn lemma_step_count_monotone(m: CacheModel, op: Op, k: i32)
    requires
        m.inv(),
        m.contains(k),
        m.step(op).contains(k),
    ensures
        m.step(op).freq_of(k) >= m.freq_of(k),
{
    lemma_len_positive(m, k);
    match op {
        Op::Get { key } => {
            if m.contains(key) {
                lemma_promote_counts(m, key);
            }
        },
        Op::Put { key, value } => {
            if m.contains(key) {
                lemma_put_update_counts(m, key, value);
            } else if m.len() < m.capacity {
                lemma_put_new_with_room(m, key, value);
            } else {
                lemma_put_evicts_victim(m, key, value);
            }
        },
    }
}

/// `k` is stored at every point of the run `ops` from `m`.
pub open spec fn stored_throughout(m: CacheModel, ops: Seq<Op>, k: i32) -> bool {
    forall|i: int| 0 <= i <= ops.len() ==> (#[trigger] m.run(ops.take(i))).contains(k)
}

/// Over a run during which a key stays stored, its access count does not go
/// down.
pub proof fn lemma_run_count_monotone(m: CacheModel, ops: Seq<Op>, k: i32)
    requires
        m.inv(),
        stored_throughout(m, ops, k),
    ensures
        m.run(ops).contains(k),
        m.run(ops).freq_of(k) >= m.freq_of(k),
    decreases ops.len(),
{
    assert(ops.take(ops.len() as int) =~= ops);
    assert(m.run(ops.take(ops.len() as int)).contains(k));
    if ops.len() == 0 {
    } else {
        let init = ops.drop_last();
        assert forall|i: int| 0 <= i <= init.len() implies (#[trigger] m.run(
            init.take(i),
        )).contains(k) by {
            assert(init.take(i) =~= ops.take(i));
            assert(m.run(ops.take(i)).contains(k));
        }
        lemma_run_count_monotone(m, init, k);
        lemma_run_keeps_inv(m, init);
        lemma_step_count_monotone(m.run(init), ops.last(), k);
    }
}

/// In a cache of capacity at least 1, a key that has just been stored is
/// found with the value stored.
pub proof fn lemma_put_then_lookup(m: CacheModel, k: i32, v: i32)
    requires
        m.inv(),
        m.capacity > 0,
    ensures
        m.put(k, v).lookup(k) == Some(v),
{
    if m.contains(k) {
        lemma_put_update_counts(m, k, v);
    } else if m.len() < m.capacity {
        lemma_put_new_with_room(m, k, v);
    } else {
        lemma_put_evicts_victim(m, k, v);
    }
}

/// Looking up a key that is not stored finds nothing and changes nothing, so
/// it finds nothing again however often it is repeated.
pub proof fn lemma_miss_changes_nothing(m: CacheModel, k: i32)
    requires
        !m.contains(k),
    ensures
        m.lookup(k) == None::<i32>,
        m.get(k) == m,
        m.get(k).lookup(k) == None::<i32>,
{
}

/// A cache of capacity 0 never stores anything.
pub proof fn lemma_zero_capacity(m: CacheModel, k: i32, v: i32)
    requires
        m.capacity == 0,
    ensures
        m.put(k, v) == m,
{
}

/// Whether the operation is on the key `k`.
pub open spec fn is_on(op: Op, k: i32) -> bool {
    match op {
        Op::Get { key } => key == k,
        Op::Put { key, value } => key == k,
    }
}

/// The time of the last operation on `k` in a run whose operations are
/// numbered from 1; 0 if the run has no operation on `k`. For a key that is
/// stored after the run this is the time of its last promotion: the last
/// hit on it, or the last time it was stored.
pub open spec fn last_time(ops: Seq<Op>, k: i32) -> nat
    decreases ops.len(),
{
    if ops.len() == 0 {
        0
    } else if is_on(ops.last(), k) {
        ops.len()
    } else {
        last_time(ops.drop_last(), k)
    }
}

/// In every bucket the keys stand in the order of their times, latest
/// first.
pub open spec fn latest_first(m: CacheModel, time: spec_fn(i32) -> nat) -> bool {
    forall|f: nat, i: int, j: int|
        m.buckets.contains_key(f) && 0 <= i < j < m.buckets[f].len() ==> time(
            #[trigger] m.buckets[f][i],
        ) > time(#[trigger] m.buckets[f][j])
}

/// No operation of a run has a time after the end of the run.
proof fn lemma_last_time_bound(ops: Seq<Op>, k: i32)
    ensures
        last_time(ops, k) <= ops.len(),
    decreases ops.len(),
{
    if ops.len() > 0 {
        lemma_last_time_bound(ops.drop_last(), k);
    }
}

/// Taking a key out of its bucket leaves every bucket in the order of the
/// times.
proof fn lemma_detach_latest_first(m: CacheModel, k: i32, time: spec_fn(i32) -> nat)
    requires
        m.linked(None),
        m.contains(k),
        latest_first(m, time),
    ensures
        latest_first(m.detach(k), time),
{
    let f = m.entries[k].freq;
    let b = m.buckets[f];
    let p = b.index_of(k);
    let d = m.detach(k);
    assert(0 <= p < b.len() && b[p] == k);
    assert forall|g: nat, i: int, j: int|
        d.buckets.contains_key(g) && 0 <= i < j < d.buckets[g].len() implies time(
        #[trigger] d.buckets[g][i],
    ) > time(#[trigger] d.buckets[g][j]) by {
        if g == f {
            let i0 = if i < p {
                i
            } else {
                i + 1
            };
            let j0 = if j < p {
                j
            } else {
                j + 1
            };
            assert(d.buckets[g][i] == m.buckets[f][i0]);
            assert(d.buckets[g][j] == m.buckets[f][j0]);
        } else {
            assert(d.buckets[g][i] == m.buckets[g][i]);
            assert(d.buckets[g][j] == m.buckets[g][j]);
        }
    }
}

/// Putting in front of its bucket a key whose time is later than that of
/// every key in a bucket keeps every bucket in the order of the times.
proof fn lemma_attach_latest_first(m: CacheModel, k: i32, time: spec_fn(i32) -> nat)
    requires
        latest_first(m, time),
        forall|f: nat, j: int|
            m.buckets.contains_key(f) && 0 <= j < m.buckets[f].len() ==> time(k) > time(
                #[trigger] m.buckets[f][j],
            ),
    ensures
        latest_first(m.attach(k), time),
{
    let f = m.entries[k].freq;
    let a = m.attach(k);
    let old_bucket = m.bucket(f);
    assert forall|g: nat, i: int, j: int|
        a.buckets.contains_key(g) && 0 <= i < j < a.buckets[g].len() implies time(
        #[trigger] a.buckets[g][i],
    ) > time(#[trigger] a.buckets[g][j]) by {
        if g == f {
            assert(a.buckets[g][j] == old_bucket[j - 1]);
            assert(m.buckets[f][j - 1] == old_bucket[j - 1]);
            if i > 0 {
                assert(a.buckets[g][i] == old_bucket[i - 1]);
                assert(m.buckets[f][i - 1] == old_bucket[i - 1]);
            }
        } else {
            assert(a.buckets[g][i] == m.buckets[g][i]);
            assert(a.buckets[g][j] == m.buckets[g][j]);
        }
    }
}

/// An operation on `k` in a state in which `k` is in no bucket: with the
/// times after the operation, every bucket is still in the order of the
/// times, and the time of `k` is later than that of every key in a bucket.
proof fn lemma_new_times(m: CacheModel, ops: Seq<Op>, op: Op, k: i32)
    requires
        is_on(op, k),
        latest_first(m, |x: i32| last_time(ops, x)),
        forall|f: nat, j: int|
            m.buckets.contains_key(f) && 0 <= j < m.buckets[f].len() ==> (
            #[trigger] m.buckets[f][j]) != k,
    ensures
        latest_first(m, |x: i32| last_time(ops.push(op), x)),
        forall|f: nat, j: int|
            m.buckets.contains_key(f) && 0 <= j < m.buckets[f].len() ==> last_time(
                ops.push(op),
                k,
            ) > last_time(ops.push(op), #[trigger] m.buckets[f][j]),
{
    let after = ops.push(op);
    assert(after.drop_last() =~= ops);
    assert(after.last() == op);
    assert forall|x: i32| x != k implies last_time(after, x) == last_time(ops, x) by {}
    assert forall|f: nat, j: int|
        m.buckets.contains_key(f) && 0 <= j < m.buckets[f].len() implies last_time(after, k)
        > last_time(after, #[trigger] m.buckets[f][j]) by {
        lemma_last_time_bound(ops, m.buckets[f][j]);
    }
    let t0 = |x: i32| last_time(ops, x);
    let t1 = |x: i32| last_time(after, x);
    assert forall|f: nat, i: int, j: int|
        m.buckets.contains_key(f) && 0 <= i < j < m.buckets[f].len() implies t1(
        #[trigger] m.buckets[f][i],
    ) > t1(#[trigger] m.buckets[f][j]) by {
        assert(t0(m.buckets[f][i]) > t0(m.buckets[f][j]));
    }
}

/// One more operation keeps every bucket in the order of the times of the
/// run.
pub proof fn lemma_step_latest_first(m: CacheModel, ops: Seq<Op>, op: Op)
    requires
        m.inv(),
        latest_first(m, |x: i32| last_time(ops, x)),
    ensures
        latest_first(m.step(op), |x: i32| last_time(ops.push(op), x)),
{
    let k = match op {
        Op::Get { key } => key,
        Op::Put { key, value } => key,
    };
    let t0 = |x: i32| last_time(ops, x);
    let t1 = |x: i32| last_time(ops.push(op), x);
    let hit = m.contains(k) && (op is Get || m.capacity > 0);
    if hit {
        // an access to a stored key
        let start = match op {
            Op::Get { key } => m,
            Op::Put { key, value } => m.with_value(k, value),
        };
        assert(start.buckets == m.buckets);
        assert(start.linked(None)) by {
            assert forall|g: nat, j: int|
                start.buckets.contains_key(g) && 0 <= j < start.buckets[g].len() implies {
                &&& start.entries.contains_key(#[trigger] start.buckets[g][j])
                &&& start.entries[start.buckets[g][j]].freq == g
            } by {
                assert(m.entries.contains_key(m.buckets[g][j]));
            }
        }
        assert(latest_first(start, t0));
        lemma_detach(start, k);
        lemma_detach_latest_first(start, k, t0);
        let d = start.detach(k);
        lemma_new_times(d, ops, op, k);
        let b = d.bump(k);
        assert(b.buckets == d.buckets);
        lemma_attach_latest_first(b, k, t1);
        assert(m.step(op) == b.attach(k));
    } else if op is Get || m.capacity == 0 {
        // nothing changes, and the key is in no bucket
        assert(m.step(op) == m);
        if m.capacity == 0 {
            assert forall|g: nat| !m.buckets.contains_key(g) by {
                if m.buckets.contains_key(g) {
                    assert(m.entries.contains_key(m.buckets[g][0]));
                    lemma_len_positive(m, m.buckets[g][0]);
                }
            }
        } else {
            assert forall|g: nat, j: int|
                m.buckets.contains_key(g) && 0 <= j < m.buckets[g].len() implies (
            #[trigger] m.buckets[g][j]) != k by {
                assert(m.entries.contains_key(m.buckets[g][j]));
            }
        }
        lemma_new_times(m, ops, op, k);
    } else {
        // a new key is stored, after an eviction if there is no room
        let value = op->Put_value;
        let room = if m.len() < m.capacity {
            m
        } else {
            m.evict()
        };
        if m.len() < m.capacity {
        } else {
            lemma_evict(m);
            lemma_detach(m, m.victim());
            lemma_detach_latest_first(m, m.victim(), t0);
            assert(m.evict().buckets == m.detach(m.victim()).buckets);
        }
        assert(latest_first(room, t0));
        assert(room.linked(None));
        assert(!room.contains(k));
        assert forall|g: nat, j: int|
            room.buckets.contains_key(g) && 0 <= j < room.buckets[g].len() implies (
        #[trigger] room.buckets[g][j]) != k by {
            assert(room.entries.contains_key(room.buckets[g][j]));
        }
        lemma_new_times(room, ops, op, k);
        let e = CacheModel {
            entries: room.entries.insert(k, Entry { value, freq: 1 }),
            min_freq: 1,
            ..room
        };
        assert(e.buckets == room.buckets);
        lemma_attach_latest_first(e, k, t1);
        assert(m.step(op) == e.attach(k));
    }
}

/// After any run from the empty cache, every bucket holds its keys in the
/// order of their last promotion, latest first.
pub proof fn lemma_run_latest_first(capacity: nat, ops: Seq<Op>)
    ensures
        latest_first(CacheModel::empty(capacity).run(ops), |x: i32| last_time(ops, x)),
    decreases ops.len(),
{
    let start = CacheModel::empty(capacity);
    if ops.len() > 0 {
        let init = ops.drop_last();
        lemma_run_latest_first(capacity, init);
        lemma_empty_inv(capacity);
        lemma_run_keeps_inv(start, init);
        lemma_step_latest_first(start.run(init), init, ops.last());
        assert(init.push(ops.last()) =~= ops);
    }
}

/// After any run from the empty cache that leaves something stored, the
/// victim has the smallest access count of all stored keys, and among the
/// stored keys with that count it is the one whose last promotion lies
/// furthest back.
pub proof fn lemma_victim_is_oldest_of_least_used(capacity: nat, ops: Seq<Op>)
    requires
        CacheModel::empty(capacity).run(ops).len() > 0,
    ensures
        ({
            let m = CacheModel::empty(capacity).run(ops);
            &&& m.contains(m.victim())
            &&& forall|x: i32| #[trigger] m.contains(x) ==> m.freq_of(m.victim()) <= m.freq_of(x)
            &&& forall|x: i32|
                #[trigger] m.contains(x) && x != m.victim() && m.freq_of(x) == m.freq_of(
                    m.victim(),
                ) ==> last_time(ops, m.victim()) < last_time(ops, x)
        }),
{
    let m = CacheModel::empty(capacity).run(ops);
    lemma_capacity_bound(capacity, ops);
    lemma_run_latest_first(capacity, ops);
    lemma_evict(m);
    let b = m.buckets[m.min_freq];
    assert forall|x: i32| #[trigger] m.contains(x) implies m.freq_of(m.victim()) <= m.freq_of(
        x,
    ) by {
        assert(m.buckets.contains_key(m.entries[x].freq));
    }
    assert forall|x: i32|
        #[trigger] m.contains(x) && x != m.victim() && m.freq_of(x) == m.freq_of(
            m.victim(),
        ) implies last_time(ops, m.victim()) < last_time(ops, x) by {
        assert(b.contains(x));
        let i = choose|i: int| 0 <= i < b.len() && b[i] == x;
        let t = |y: i32| last_time(ops, y);
        assert(t(m.buckets[m.min_freq][i]) > t(m.buckets[m.min_freq][b.len() - 1]));
    }
}

} // verus!
