//! The `LruCache` trait: the operations every LRU cache offers, with the
//! contracts that pin down the eviction policy.
//!
//! A cache is abstracted by two spec functions: `spec_capacity`, the maximum
//! number of entries, and `model`, the sequence of `(key view, value)` pairs
//! ordered from least- to most-recently used. The contracts of `get` and
//! `set` say exactly how each operation transforms that sequence, in terms
//! of the model functions of `crate::infra::recency`.

use vstd::prelude::*;

use crate::infra::keys::CacheKey;
use crate::infra::recency::{has_key, refreshed, set_step, store_inv, value_of};

verus! {

/// A fixed-capacity key-value store with least-recently-used eviction.
pub trait LruCache<K: CacheKey, V>: Sized {
    /// The maximum number of entries the cache may hold.
    spec fn spec_capacity(&self) -> nat;

    /// The entries of the cache as `(key view, value)` pairs, ordered from
    /// least-recently-used (front) to most-recently-used (back).
    spec fn model(&self) -> Seq<(<K as View>::V, V)>;

    /// An empty cache with the given capacity.
    fn new(capacity: usize) -> (c: Self)
        ensures
            c.spec_capacity() == capacity as nat,
            c.model() == Seq::<(<K as View>::V, V)>::empty(),
            store_inv(c.spec_capacity(), c.model()),
    ;

    /// Look `key` up. An absent key leaves the cache untouched. A present
    /// key is promoted to most-recently-used, its value unchanged and
    /// returned; no other entry moves relative to another.
    fn get(&mut self, key: &K) -> (r: Option<&V>)
        requires
            store_inv(old(self).spec_capacity(), old(self).model()),
        ensures
            final(self).spec_capacity() == old(self).spec_capacity(),
            store_inv(final(self).spec_capacity(), final(self).model()),
            !has_key(old(self).model(), key@) ==> r is None && final(self).model() == old(
                self,
            ).model(),
            has_key(old(self).model(), key@) ==> {
                &&& r matches Some(v) && *v == value_of(old(self).model(), key@)
                &&& final(self).model() == refreshed(
                    old(self).model(),
                    key@,
                    value_of(old(self).model(), key@),
                )
                &&& final(self).model().last().0 == key@
            },
    ;

    /// Bind `key` to `value` and make it most-recently-used. A present key
    /// is updated in place with no eviction; an absent key is appended,
    /// after evicting the least-recently-used entry if the cache is full.
    fn set(&mut self, key: K, value: V)
        requires
            store_inv(old(self).spec_capacity(), old(self).model()),
        ensures
            final(self).spec_capacity() == old(self).spec_capacity(),
            store_inv(final(self).spec_capacity(), final(self).model()),
            final(self).model() == set_step(
                old(self).spec_capacity(),
                old(self).model(),
                key@,
                value,
            ),
    ;
}

} // verus!
