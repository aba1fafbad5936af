//! A `Hasher` that always returns the same value.
use std::hash::{BuildHasher, Hasher};
use vstd::prelude::*;

verus! {

/// Struct for hasher that always returns the same value
#[derive(Default)]
pub struct FixedHasher {
    /// Hash value to always return
    pub hash: u64,
}

impl Hasher for FixedHasher {
    fn finish(&self) -> (r: u64)
        ensures
            r == self.hash,
    {
        self.hash
    }

    fn write(&mut self, _bytes: &[u8])
        ensures
            *final(self) == *old(self),
    {
    }

    fn write_u64(&mut self, _i: u64)
        ensures
            *final(self) == *old(self),
    {
    }
}

/// Struct for building a fixed hasher that always returns the same value
#[derive(Default)]
pub struct BuildFixedHasher {
    /// Hash value to always return
    pub hash: u64,
}

impl BuildHasher for BuildFixedHasher {
    type Hasher = FixedHasher;

    fn build_hasher(&self) -> (r: FixedHasher)
        ensures
            r.hash == self.hash,
    {
        FixedHasher { hash: self.hash }
    }
}

} // verus!
