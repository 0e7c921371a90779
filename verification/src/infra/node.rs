//! A single key-value entry.
//!
//! `Node` pairs one key with one value. It is a building block for callers
//! that want to keep an owned key-value pair outside a cache; the stores
//! themselves keep plain pairs internally.

use vstd::prelude::*;

verus! {

/// An owned key-value pair.
#[derive(Debug)]
pub struct Node<K, V> {
    key: K,
    value: V,
}

impl<K, V> Node<K, V> {
    /// The key of this entry.
    pub closed spec fn spec_key(&self) -> K {
        self.key
    }

    /// The value of this entry.
    pub closed spec fn spec_value(&self) -> V {
        self.value
    }

    /// Pair `key` with `value`.
    pub fn new(key: K, value: V) -> (n: Self)
        ensures
            n.spec_key() == key,
            n.spec_value() == value,
    {
        Self { key, value }
    }

    /// Borrow the key.
    pub fn key(&self) -> (r: &K)
        ensures
            *r == self.spec_key(),
    {
        &self.key
    }

    /// Borrow the value.
    pub fn value(&self) -> (r: &V)
        ensures
            *r == self.spec_value(),
    {
        &self.value
    }

    /// Borrow the value mutably; the key is left as it was.
    pub fn value_mut(&mut self) -> (r: &mut V)
        ensures
            *r == old(self).spec_value(),
            final(self).spec_key() == old(self).spec_key(),
            final(self).spec_value() == *final(r),
    {
        &mut self.value
    }
}

} // verus!
