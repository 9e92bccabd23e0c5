//! Maps from a key to a list, and shared pointers.

use vstd::prelude::*;
use vstd::std_specs::hash::obeys_key_model;
use std::collections::HashMap;
use std::hash::Hash;
use std::rc::Rc;

verus! {

/// `Rc::clone` of std: a second pointer to the same allocation, so to the
/// same value.
#[verifier::external_body]
pub(crate) fn share<A: ?Sized>(data: &Rc<A>) -> (shared: Rc<A>)
    ensures
        shared == *data,
{
    Rc::clone(data)
}

/// What `push_or_insert` makes of a map of lists: the list under `key`
/// grows by `val` at its end, and a key that had no list gets the list
/// `[val]`.
pub open spec fn pushed<K, V>(lists: Map<K, Seq<V>>, key: K, val: V) -> Map<K, Seq<V>> {
    if lists.contains_key(key) {
        lists.insert(key, lists[key].push(val))
    } else {
        lists.insert(key, seq![val])
    }
}

/// A map from keys to lists that can append under a key whether or not the
/// key is there yet.
pub trait HashMapExt<K, V> {
    /// The lists that the map holds, by key.
    spec fn lists(&self) -> Map<K, Seq<V>>;

    /// Appends `val` to the list under `key`, starting a new list when
    /// there is none.
    fn push_or_insert(&mut self, key: K, val: V)
        ensures
            obeys_key_model::<K>() ==> final(self).lists() == pushed(old(self).lists(), key, val),
    ;
}

impl<K: Hash + Eq, V> HashMapExt<K, V> for HashMap<K, Vec<V>> {
    open spec fn lists(&self) -> Map<K, Seq<V>> {
        self@.map_values(|list: Vec<V>| list@)
    }

    fn push_or_insert(&mut self, key: K, val: V) {
        broadcast use vstd::std_specs::hash::group_hash_axioms;

        let mut list = match self.remove(&key) {
            Some(list) => list,
            None => Vec::new(),
        };
        list.push(val);
        self.insert(key, list);
        proof {
            if obeys_key_model::<K>() {
                assert(self.lists() =~= pushed(old(self).lists(), key, val));
            }
        }
    }
}

} // verus!
