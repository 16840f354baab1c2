//! A map between keys and values that can be asked in both directions.

use crate::string_map::StringMap;
use vstd::prelude::*;

verus! {

pub struct BiMap {
    forward: StringMap<String>,
    reverse: StringMap<String>,
}

/// The characters of the values of a map of strings.
pub open spec fn chars_of(m: Map<Seq<char>, String>) -> Map<Seq<char>, Seq<char>> {
    Map::new(|k: Seq<char>| m.contains_key(k), |k: Seq<char>| m[k]@)
}

impl BiMap {
    /// Both directions are well formed.
    pub closed spec fn wf(&self) -> bool {
        self.forward.wf() && self.reverse.wf()
    }

    /// The value recorded for each key.
    pub closed spec fn by_key(&self) -> Map<Seq<char>, Seq<char>> {
        chars_of(self.forward@)
    }

    /// The key recorded for each value.
    pub closed spec fn by_value(&self) -> Map<Seq<char>, Seq<char>> {
        chars_of(self.reverse@)
    }

    /// The map that records nothing.
    pub fn new() -> (m: Self)
        ensures
            m.wf(),
            m.by_key() == Map::<Seq<char>, Seq<char>>::empty(),
            m.by_value() == Map::<Seq<char>, Seq<char>>::empty(),
    {
        let m = BiMap { forward: StringMap::new(), reverse: StringMap::new() };
        proof {
            assert(m.by_key() =~= Map::<Seq<char>, Seq<char>>::empty());
            assert(m.by_value() =~= Map::<Seq<char>, Seq<char>>::empty());
        }
        m
    }

    /// Records `value` for `key` and `key` for `value`. If `key` had a value
    /// before, what was recorded for that value is forgotten first.
    pub fn put(&mut self, key: String, value: String)
        requires
            old(self).wf(),
        ensures
            final(self).wf(),
            final(self).by_key() == old(self).by_key().insert(key@, value@),
            final(self).by_value() == (if old(self).by_key().contains_key(key@) {
                old(self).by_value().remove(old(self).by_key()[key@])
            } else {
                old(self).by_value()
            }).insert(value@, key@),
    {
        let ghost by_value0 = self.by_value();
        let previous = self.forward.insert(key.clone(), value.clone());
        proof {
            assert(self.by_key() =~= old(self).by_key().insert(key@, value@));
        }
        if let Some(old_value) = previous {
            self.reverse.remove(old_value.as_str());
            proof {
                assert(self.by_value() =~= by_value0.remove(old_value@));
            }
        }
        let ghost by_value1 = self.by_value();
        self.reverse.insert(value, key);
        proof {
            assert(self.by_value() =~= by_value1.insert(value@, key@));
        }
    }

    /// The value recorded for `key`, or the words `Key not found`.
    pub fn get_by_key(&self, key: &str) -> (value: String)
        requires
            self.wf(),
        ensures
            value@ == if self.by_key().contains_key(key@) {
                self.by_key()[key@]
            } else {
                "Key not found"@
            },
    {
        match self.forward.get(key) {
            Some(value) => value.clone(),
            None => "Key not found".to_owned(),
        }
    }

    /// The key recorded for `value`, or the words `Value not found`.
    pub fn get_by_value(&self, value: &str) -> (key: String)
        requires
            self.wf(),
        ensures
            key@ == if self.by_value().contains_key(value@) {
                self.by_value()[value@]
            } else {
                "Value not found"@
            },
    {
        match self.reverse.get(value) {
            Some(key) => key.clone(),
            None => "Value not found".to_owned(),
        }
    }
}

} // verus!
