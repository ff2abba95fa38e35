//! Values grouped under keys, each group in the order its values came.

use vstd::prelude::*;
use vstd::std_specs::hash::{
    axiom_spec_hash_map_iter, axiom_spec_values_iter, builds_valid_hashers, obeys_key_model,
};
use vstd::std_specs::iter::IteratorSpec;
use std::collections::hash_map::{Iter, RandomState, Values};
use std::collections::HashMap;
use std::hash::Hash;

verus! {

/// The groups that `pairs` make: each value under its key, behind the values
/// that came under that key before it.
pub open spec fn grouped<K, V>(pairs: Seq<(K, V)>) -> Map<K, Seq<V>>
    decreases pairs.len(),
{
    if pairs.len() == 0 {
        Map::empty()
    } else {
        let before = grouped(pairs.drop_last());
        let (key, value) = pairs.last();
        let group = if before.contains_key(key) {
            before[key]
        } else {
            Seq::empty()
        };
        before.insert(key, group.push(value))
    }
}

/// A table from keys to the values put under them.
pub struct Lookup<K, V> {
    pub hash_map: HashMap<K, Vec<V>>,
}

impl<K: Hash + Eq, V> Lookup<K, V> {
    /// The group of each key that has one.
    pub open spec fn groups(&self) -> Map<K, Seq<V>> {
        self.hash_map@.map_values(|list: Vec<V>| list@)
    }

    /// The group of `key`: empty where nothing was put under it.
    pub open spec fn group(&self, key: K) -> Seq<V> {
        if self.groups().contains_key(key) {
            self.groups()[key]
        } else {
            Seq::empty()
        }
    }

    /// A table without keys.
    pub fn new() -> (lookup: Self)
        ensures
            lookup.groups() == Map::<K, Seq<V>>::empty(),
    {
        let lookup = Lookup { hash_map: HashMap::new() };
        assert(lookup.groups() =~= Map::<K, Seq<V>>::empty());
        lookup
    }

    /// The table of `pairs`: every value under its key, each group in the
    /// order in which its values stand in `pairs`.
    pub fn from_pairs(pairs: Vec<(K, V)>) -> (lookup: Self)
        ensures
            obeys_key_model::<K>() && builds_valid_hashers::<RandomState>() ==> lookup.groups()
                == grouped(pairs@),
    {
        let mut lookup = Lookup::new();
        for pair in all: pairs
            invariant
                obeys_key_model::<K>() && builds_valid_hashers::<RandomState>() ==> lookup.groups()
                    == grouped(pairs@.take(all.index())),
        {
            let ghost done = all.index();
            let (key, value) = pair;
            lookup.insert(key, value);
            proof {
                assert(pairs@.take(done + 1).drop_last() =~= pairs@.take(done));
                assert(pairs@.take(done + 1).last() == (key, value));
            }
        }
        proof {
            assert(pairs@.take(pairs@.len() as int) =~= pairs@);
        }
        lookup
    }

    /// The groups, each once, in an order of the map's choosing.
    pub fn values(&self) -> (values: Values<'_, K, Vec<V>>)
        ensures
            obeys_key_model::<K>() && builds_valid_hashers::<RandomState>() ==> {
                &&& values.remaining().len() == self.hash_map@.dom().len()
                &&& values.remaining().unref().to_set() == self.hash_map@.values()
            },
    {
        broadcast use axiom_spec_values_iter;

        self.hash_map.values()
    }

    /// The keys, each once and with its group, in an order of the map's
    /// choosing.
    pub fn iter(&self) -> (pairs: Iter<'_, K, Vec<V>>)
        ensures
            obeys_key_model::<K>() && builds_valid_hashers::<RandomState>() ==> {
                &&& pairs.remaining().len() == self.hash_map@.dom().len()
                &&& pairs.remaining().no_duplicates()
                &&& pairs.remaining().unref().to_set() == self.hash_map@.kv_pairs()
            },
    {
        broadcast use axiom_spec_hash_map_iter;

        self.hash_map.iter()
    }

    /// The number of keys.
    pub fn len(&self) -> (n: usize)
        ensures
            obeys_key_model::<K>() && builds_valid_hashers::<RandomState>() ==> n
                == self.groups().len(),
    {
        proof {
            if obeys_key_model::<K>() && builds_valid_hashers::<RandomState>() {
                assert(self.groups().dom() =~= self.hash_map@.dom());
            }
        }
        self.hash_map.len()
    }

    /// Puts `val` at the end of the group of `key`, which is begun where the
    /// key has none.
    pub fn insert(&mut self, key: K, val: V)
        ensures
            obeys_key_model::<K>() && builds_valid_hashers::<RandomState>() ==> final(self).groups()
                == old(self).groups().insert(key, old(self).group(key).push(val)),
    {
        let ghost before = self.hash_map@;
        let list = self.hash_map.entry(key).or_insert(Vec::new());
        list.push(val);
        proof {
            if obeys_key_model::<K>() && builds_valid_hashers::<RandomState>() {
                assert(self.groups() =~= old(self).groups().insert(
                    key,
                    old(self).group(key).push(val),
                ));
            }
        }
    }
}

} // verus!
