//! A small map keyed by strings, kept as a list of entries with distinct
//! keys. Two keys are the same if they hold the same characters.

use vstd::prelude::*;

verus! {

pub struct StringMap<V> {
    keys: Vec<String>,
    vals: Vec<V>,
}

/// No two of the keys hold the same characters.
pub open spec fn distinct_keys(keys: Seq<String>) -> bool {
    forall|i: int, j: int|
        0 <= i < keys.len() && 0 <= j < keys.len() && i != j ==> (#[trigger] keys[i])@
            != (#[trigger] keys[j])@
}

/// Some key holds the characters `k`.
pub open spec fn has_key(keys: Seq<String>, k: Seq<char>) -> bool {
    exists|i: int| 0 <= i < keys.len() && (#[trigger] keys[i])@ == k
}

/// The position of a key that holds the characters `k`.
pub open spec fn key_position(keys: Seq<String>, k: Seq<char>) -> int {
    choose|i: int| 0 <= i < keys.len() && (#[trigger] keys[i])@ == k
}

impl<V> StringMap<V> {
    /// The entries are well formed: one value for each key, no key twice.
    pub closed spec fn wf(&self) -> bool {
        &&& self.keys@.len() == self.vals@.len()
        &&& distinct_keys(self.keys@)
    }

    /// The map from the characters of each key to its value.
    pub closed spec fn view(&self) -> Map<Seq<char>, V> {
        Map::new(
            |k: Seq<char>| has_key(self.keys@, k),
            |k: Seq<char>| self.vals@[key_position(self.keys@, k)],
        )
    }

    /// With distinct keys, the entry at position `i` is what the map holds
    /// for the key at `i`.
    proof fn lemma_entry(&self, i: int)
        requires
            self.wf(),
            0 <= i < self.keys@.len(),
        ensures
            self@.contains_key(self.keys@[i]@),
            key_position(self.keys@, self.keys@[i]@) == i,
            self@[self.keys@[i]@] == self.vals@[i],
    {
        let k = self.keys@[i]@;
        assert(has_key(self.keys@, k));
        let p = key_position(self.keys@, k);
        assert(0 <= p < self.keys@.len() && self.keys@[p]@ == k);
    }

    /// The empty map.
    pub fn new() -> (m: Self)
        ensures
            m.wf(),
            m@ == Map::<Seq<char>, V>::empty(),
    {
        let m = StringMap { keys: Vec::new(), vals: Vec::new() };
        proof {
            assert(m@ =~= Map::<Seq<char>, V>::empty());
        }
        m
    }

    /// Where the key `key` is, if it is present.
    fn position(&self, key: &String) -> (found: Option<usize>)
        requires
            self.wf(),
        ensures
            match found {
                Some(i) => i < self.keys@.len() && self.keys@[i as int]@ == key@,
                None => !has_key(self.keys@, key@),
            },
    {
        let mut i: usize = 0;
        while i < self.keys.len()
            invariant
                i <= self.keys@.len(),
                forall|j: int| 0 <= j < i ==> (#[trigger] self.keys@[j])@ != key@,
            decreases self.keys@.len() - i,
        {
            if self.keys[i] == *key {
                return Some(i);
            }
            i += 1;
        }
        None
    }

    /// The value for `key`, if the map holds one.
    pub fn get(&self, key: &str) -> (found: Option<&V>)
        requires
            self.wf(),
        ensures
            match found {
                Some(v) => self@.contains_key(key@) && *v == self@[key@],
                None => !self@.contains_key(key@),
            },
    {
        let owned = key.to_owned();
        match self.position(&owned) {
            Some(i) => {
                proof {
                    self.lemma_entry(i as int);
                }
                Some(&self.vals[i])
            },
            None => None,
        }
    }

    /// Sets the value for `key` and returns the value that the map held for
    /// it before, if any.
    pub fn insert(&mut self, key: String, value: V) -> (previous: Option<V>)
        requires
            old(self).wf(),
        ensures
            final(self).wf(),
            final(self)@ == old(self)@.insert(key@, value),
            match previous {
                Some(v) => old(self)@.contains_key(key@) && v == old(self)@[key@],
                None => !old(self)@.contains_key(key@),
            },
    {
        let ghost keys0 = self.keys@;
        let ghost vals0 = self.vals@;
        match self.position(&key) {
            Some(i) => {
                proof {
                    self.lemma_entry(i as int);
                }
                let mut value = value;
                core::mem::swap(&mut self.vals[i], &mut value);
                proof {
                    assert(self.vals@ == vals0.update(i as int, self.vals@[i as int]));
                    assert forall|k: Seq<char>| has_key(keys0, k) implies #[trigger] self@[k] == (
                    if k == key@ {
                        self.vals@[i as int]
                    } else {
                        old(self)@[k]
                    }) by {
                        let p = key_position(keys0, k);
                        assert(0 <= p < keys0.len() && keys0[p]@ == k);
                    }
                    assert(self@ =~= old(self)@.insert(key@, self.vals@[i as int]));
                }
                Some(value)
            },
            None => {
                self.keys.push(key);
                self.vals.push(value);
                proof {
                    let n = keys0.len() as int;
                    assert(self.keys@[n]@ == key@);
                    assert forall|k: Seq<char>| has_key(self.keys@, k) <==> (has_key(keys0, k) || k
                        == key@) by {
                        if has_key(self.keys@, k) {
                            let p = key_position(self.keys@, k);
                            assert(0 <= p < self.keys@.len() && self.keys@[p]@ == k);
                            if p < n {
                                assert(keys0[p]@ == k);
                            }
                        }
                        if has_key(keys0, k) {
                            let p = key_position(keys0, k);
                            assert(0 <= p < keys0.len() && keys0[p]@ == k);
                            assert(self.keys@[p]@ == k);
                        }
                    }
                    assert forall|k: Seq<char>| has_key(self.keys@, k) implies #[trigger] self@[k]
                        == old(self)@.insert(key@, value)[k] by {
                        let p = key_position(self.keys@, k);
                        assert(0 <= p < self.keys@.len() && self.keys@[p]@ == k);
                        if p < n {
                            assert(keys0[p]@ == k);
                            let p0 = key_position(keys0, k);
                            assert(0 <= p0 < keys0.len() && keys0[p0]@ == k);
                            assert(self.keys@[p0]@ == k);
                        }
                    }
                    assert(self@ =~= old(self)@.insert(key@, value));
                }
                None
            },
        }
    }

    /// Takes the entry for `key` out of the map and returns its value, if
    /// the map held one.
    pub fn remove(&mut self, key: &str) -> (previous: Option<V>)
        requires
            old(self).wf(),
        ensures
            final(self).wf(),
            final(self)@ == old(self)@.remove(key@),
            match previous {
                Some(v) => old(self)@.contains_key(key@) && v == old(self)@[key@],
                None => !old(self)@.contains_key(key@),
            },
    {
        let ghost keys0 = self.keys@;
        let ghost vals0 = self.vals@;
        let owned = key.to_owned();
        match self.position(&owned) {
            Some(i) => {
                proof {
                    self.lemma_entry(i as int);
                }
                self.keys.remove(i);
                let value = self.vals.remove(i);
                proof {
                    let at = i as int;
                    assert forall|a: int, b: int|
                        0 <= a < self.keys@.len() && 0 <= b < self.keys@.len() && a
                            != b implies (#[trigger] self.keys@[a])@ != (
                    #[trigger] self.keys@[b])@ by {
                        let a0 = if a < at { a } else { a + 1 };
                        let b0 = if b < at { b } else { b + 1 };
                        assert(self.keys@[a] == keys0[a0]);
                        assert(self.keys@[b] == keys0[b0]);
                    }
                    assert forall|k: Seq<char>| has_key(self.keys@, k) <==> (has_key(keys0, k) && k
                        != key@) by {
                        if has_key(self.keys@, k) {
                            let p = key_position(self.keys@, k);
                            assert(0 <= p < self.keys@.len() && self.keys@[p]@ == k);
                            let p0 = if p < at { p } else { p + 1 };
                            assert(keys0[p0]@ == k);
                        }
                        if has_key(keys0, k) && k != key@ {
                            let p0 = key_position(keys0, k);
                            assert(0 <= p0 < keys0.len() && keys0[p0]@ == k);
                            let p = if p0 < at { p0 } else { p0 - 1 };
                            assert(self.keys@[p]@ == k);
                        }
                    }
                    assert forall|k: Seq<char>| has_key(self.keys@, k) implies #[trigger] self@[k]
                        == old(self)@[k] by {
                        let p = key_position(self.keys@, k);
                        assert(0 <= p < self.keys@.len() && self.keys@[p]@ == k);
                        let p0 = if p < at { p } else { p + 1 };
                        assert(keys0[p0]@ == k);
                        let q = key_position(keys0, k);
                        assert(0 <= q < keys0.len() && keys0[q]@ == k);
                        assert(self.vals@[p] == vals0[p0]);
                    }
                    assert(self@ =~= old(self)@.remove(key@));
                }
                Some(value)
            },
            None => {
                proof {
                    assert(self@ =~= old(self)@.remove(key@));
                }
                None
            },
        }
    }
}

} // verus!
