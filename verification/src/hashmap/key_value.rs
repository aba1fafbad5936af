//! A stored entry of the hash map.
use std::hash::{BuildHasher, Hash};
use vstd::laws_eq::obeys_concrete_eq;
use vstd::prelude::*;

verus! {

/// A key, its value, and the hash of the key computed when it was inserted.
pub struct KeyValue<K, V> {
    pub hash: u64,
    pub key: K,
    pub value: V,
}

impl<K: Hash, V> KeyValue<K, V> {
    /// An entry for `key` and `value`, with the hash of `key` under `build_hasher`.
    pub fn new_with_hasher<S: BuildHasher>(build_hasher: &S, key: K, value: V) -> (r: Self)
        ensures
            r.key == key,
            r.value == value,
    {
        KeyValue { hash: super::hash_key(build_hasher, &key), key, value }
    }
}

impl<K: PartialEq, V> KeyValue<K, V> {
    /// Two entries stand for the same map entry when their hashes and their keys are equal.
    pub fn same_key(&self, other: &Self) -> (r: bool)
        ensures
            obeys_concrete_eq::<K>() ==> (r <==> (self.hash == other.hash && self.key == other.key)),
    {
        proof {
            reveal(obeys_concrete_eq);
        }
        self.hash == other.hash && self.key == other.key
    }
}

impl<K: Clone, V: Clone> Clone for KeyValue<K, V> {
    /// The same hash, a clone of the key and a clone of the value.
    fn clone(&self) -> (r: Self)
        ensures
            r.hash == self.hash,
            cloned::<K>(self.key, r.key),
            cloned::<V>(self.value, r.value),
    {
        KeyValue { hash: self.hash, key: self.key.clone(), value: self.value.clone() }
    }
}

} // verus!
