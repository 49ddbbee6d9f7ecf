//! A map from keys to values, kept as a list of entries in ascending order of their keys.

use crate::order::{
    ascending, lemma_insert_keeps_ascending, lemma_precedes_irreflexive, lists, search,
};
use vstd::prelude::*;

verus! {

/// The map that pairs each string of `keys` with the string of `values` at the same index.
pub open spec fn pairing(keys: Seq<Seq<char>>, values: Seq<Seq<char>>) -> Map<
    Seq<char>,
    Seq<char>,
> {
    Map::new(|k: Seq<char>| keys.contains(k), |k: Seq<char>| values[keys.index_of(k)])
}

/// In an ascending list of keys every key stands at one index only, so the pairing
/// maps the key at an index to the value at that index.
pub proof fn lemma_pairing_at(keys: Seq<Seq<char>>, values: Seq<Seq<char>>, i: int)
    requires
        ascending(keys),
        0 <= i < keys.len(),
    ensures
        pairing(keys, values).dom().contains(keys[i]),
        pairing(keys, values)[keys[i]] == values[i],
{
    lemma_precedes_irreflexive(keys[i]);
}

/// The mutable map from keys to values that a parsed file holds.
#[derive(Debug)]
pub struct EnvMap {
    keys: Vec<String>,
    values: Vec<String>,
}

impl View for EnvMap {
    type V = Map<Seq<char>, Seq<char>>;

    closed spec fn view(&self) -> Map<Seq<char>, Seq<char>> {
        pairing(self.keys.deep_view(), self.values.deep_view())
    }
}

impl Clone for EnvMap {
    fn clone(&self) -> (m: EnvMap)
        ensures
            m@ == self@,
    {
        proof {
            use_type_invariant(self);
        }
        let keys = self.keys.clone();
        let values = self.values.clone();
        EnvMap { keys, values }
    }
}

impl EnvMap {
    #[verifier::type_invariant]
    spec fn well_formed(&self) -> bool {
        &&& self.keys.len() == self.values.len()
        &&& ascending(self.keys.deep_view())
    }

    /// The empty map.
    pub fn new() -> (m: EnvMap)
        ensures
            m@ == Map::<Seq<char>, Seq<char>>::empty(),
    {
        EnvMap { keys: Vec::new(), values: Vec::new() }
    }

    /// Whether the map has an entry for `key`.
    pub fn contains_key(&self, key: &str) -> (b: bool)
        ensures
            b == self@.dom().contains(key@),
    {
        proof {
            use_type_invariant(self);
        }
        search(self.keys.as_slice(), key).is_ok()
    }

    /// The value that the map holds for `key`, if any.
    pub fn get(&self, key: &str) -> (v: Option<&String>)
        ensures
            match v {
                Some(s) => self@.dom().contains(key@) && s@ == self@[key@],
                None => !self@.dom().contains(key@),
            },
    {
        proof {
            use_type_invariant(self);
        }
        match search(self.keys.as_slice(), key) {
            Ok(i) => {
                proof {
                    lemma_pairing_at(self.keys.deep_view(), self.values.deep_view(), i as int);
                }
                Some(&self.values[i])
            },
            Err(_) => None,
        }
    }

    /// Sets the value for `key`, replacing the value that the map held for it, if any.
    pub fn insert(&mut self, key: String, value: String)
        ensures
            final(self)@ == old(self)@.insert(key@, value@),
    {
        proof {
            use_type_invariant(&*self);
        }
        let mut entries = EnvMap::new();
        std::mem::swap(self, &mut entries);
        let EnvMap { keys: mut key_list, values: mut value_list } = entries;
        let ghost keys = key_list.deep_view();
        let ghost values = value_list.deep_view();
        match search(key_list.as_slice(), key.as_str()) {
            Ok(i) => {
                value_list.set(i, value);
                proof {
                    let updated = value_list.deep_view();
                    assert forall|k: Seq<char>| keys.contains(k) implies #[trigger] pairing(
                        keys,
                        updated,
                    )[k] == pairing(keys, values).insert(key@, value@)[k] by {
                        lemma_pairing_at(keys, updated, i as int);
                    }
                }
            },
            Err(at) => {
                key_list.insert(at, key);
                value_list.insert(at, value);
                proof {
                    let grown = key_list.deep_view();
                    let updated = value_list.deep_view();
                    assert(grown =~= keys.insert(at as int, key@));
                    lemma_insert_keeps_ascending(keys, at as int, key@);
                    assert forall|k: Seq<char>| grown.contains(k) implies #[trigger] pairing(
                        grown,
                        updated,
                    )[k] == pairing(keys, values).insert(key@, value@)[k] by {
                        let j = grown.index_of(k);
                        if j < at {
                            lemma_pairing_at(keys, values, j);
                        } else if j > at {
                            lemma_pairing_at(keys, values, j - 1);
                        }
                    }
                }
            },
        }
        *self = EnvMap { keys: key_list, values: value_list };
    }

    /// The keys of the map, in ascending order.
    pub fn keys(&self) -> (list: Vec<String>)
        ensures
            lists(list.deep_view(), self@.dom()),
    {
        proof {
            use_type_invariant(self);
        }
        self.keys.clone()
    }
}

} // verus!
