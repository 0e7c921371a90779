//! The in-memory LRU cache.
//!
//! `MemoryCache` keeps its entries in a single vector ordered from
//! least-recently-used (front) to most-recently-used (back), so the entry
//! mapping and the recency order cannot drift apart. `get` promotes the
//! entry it finds; `set` updates a present key in place, and admits an
//! absent key after evicting the front entry when the cache is full.
//!
//! A cache of capacity zero holds nothing: `set` drops the entry at once
//! and `get` never finds a key. (The alternative would have been to refuse
//! such a capacity at construction; accepting it keeps every operation
//! total.)

use vstd::prelude::*;

use crate::infra::keys::CacheKey;
use crate::infra::recency::{
    has_key, key_index, keys_of, lemma_appended, lemma_evicted, lemma_key_index,
    lemma_map_values_push, lemma_map_values_remove, lemma_refreshed, value_of,
    view_keys, view_pairs,
};
use crate::infra::traits::LruCache;

verus! {

/// A fixed-capacity in-memory key-value store with LRU eviction.
pub struct MemoryCache<K, V> {
    capacity: usize,
    entries: Vec<(K, V)>,
}

impl<K: CacheKey, V> MemoryCache<K, V> {
    /// The position of `key` in the recency order, if it is present.
    fn find_index(&self, key: &K) -> (r: Option<usize>)
        ensures
            r matches Some(i) ==> i < self.model().len() && self.model()[i as int].0 == key@,
            r is None ==> !has_key(self.model(), key@),
    {
        let mut i: usize = 0;
        while i < self.entries.len()
            invariant
                i <= self.entries.len(),
                forall|j: int| 0 <= j < i ==> (#[trigger] self.model()[j]).0 != key@,
            decreases self.entries.len() - i,
        {
            if self.entries[i].0.key_eq(key) {
                return Some(i);
            }
            i = i + 1;
        }
        proof {
            assert forall|j: int| 0 <= j < keys_of(self.model()).len() implies keys_of(
                self.model(),
            )[j] != key@ by {
                assert(keys_of(self.model())[j] == self.model()[j].0);
            }
        }
        None
    }
}

impl<K: CacheKey, V> MemoryCache<K, V> {
    /// The fixed capacity of the cache.
    pub fn capacity(&self) -> (c: usize)
        ensures
            c as nat == self.spec_capacity(),
    {
        self.capacity
    }

    /// The number of entries currently held.
    pub fn len(&self) -> (n: usize)
        ensures
            n as nat == self.model().len(),
    {
        self.entries.len()
    }

    /// The keys in recency order, least-recently-used first — exactly the
    /// live recency sequence, for a persistence layer to snapshot.
    pub fn ordered_keys(&self) -> (r: Vec<K>)
        ensures
            view_keys(r@) == keys_of(self.model()),
    {
        let mut r: Vec<K> = Vec::new();
        let mut i: usize = 0;
        while i < self.entries.len()
            invariant
                i <= self.entries.len(),
                r@.len() == i,
                forall|j: int| 0 <= j < i ==> #[trigger] view_keys(r@)[j] == keys_of(
                    self.model(),
                )[j],
            decreases self.entries.len() - i,
        {
            let k = self.entries[i].0.key_dup();
            let ghost r0 = r@;
            r.push(k);
            proof {
                assert forall|j: int| 0 <= j < i + 1 implies #[trigger] view_keys(r@)[j]
                    == keys_of(self.model())[j] by {
                    if j < i {
                        assert(r@[j] == r0[j]);
                        assert(view_keys(r0)[j] == r0[j]@);
                        assert(view_keys(r0)[j] == keys_of(self.model())[j]);
                    } else {
                        assert(r@[j] == k);
                        assert(keys_of(self.model())[j] == self.model()[j].0);
                    }
                    assert(view_keys(r@)[j] == r@[j]@);
                }
            }
            i = i + 1;
        }
        proof {
            assert(view_keys(r@) =~= keys_of(self.model()));
        }
        r
    }

    /// Every entry in recency order — a full enumeration for snapshots.
    pub fn all_entries(&self) -> (r: &Vec<(K, V)>)
        ensures
            view_pairs(r@) == self.model(),
    {
        &self.entries
    }
}

impl<K: CacheKey, V> LruCache<K, V> for MemoryCache<K, V> {
    closed spec fn spec_capacity(&self) -> nat {
        self.capacity as nat
    }

    closed spec fn model(&self) -> Seq<(<K as View>::V, V)> {
        view_pairs(self.entries@)
    }

    fn new(capacity: usize) -> (c: Self) {
        let c = Self { capacity, entries: Vec::new() };
        proof {
            assert(c.model() =~= Seq::<(<K as View>::V, V)>::empty());
        }
        c
    }

    fn get(&mut self, key: &K) -> (r: Option<&V>) {
        match self.find_index(key) {
            None => None,
            Some(i) => {
                let pair = self.entries.remove(i);
                self.entries.push(pair);
                proof {
                    let om = old(self).model();
                    let f = (|p: (K, V)| (p.0@, p.1));
                    assert(keys_of(om)[i as int] == om[i as int].0);
                    assert(has_key(om, key@));
                    lemma_key_index(om, key@);
                    assert(key_index(om, key@) == i as int);
                    lemma_map_values_remove(old(self).entries@, f, i as int);
                    lemma_map_values_push(
                        old(self).entries@.remove(i as int),
                        f,
                        old(self).entries@[i as int],
                    );
                    assert(f(old(self).entries@[i as int]) == om[i as int]);
                    assert(om[i as int] == (key@, value_of(om, key@)));
                    lemma_refreshed(om, key@, value_of(om, key@));
                }
                let n: usize = self.entries.len();
                Some(&self.entries[n - 1].1)
            }
        }
    }

    fn set(&mut self, key: K, value: V) {
        match self.find_index(&key) {
            Some(i) => {
                let _ = self.entries.remove(i);
                self.entries.push((key, value));
                proof {
                    let om = old(self).model();
                    let f = (|p: (K, V)| (p.0@, p.1));
                    assert(keys_of(om)[i as int] == om[i as int].0);
                    assert(has_key(om, key@));
                    lemma_key_index(om, key@);
                    assert(key_index(om, key@) == i as int);
                    lemma_map_values_remove(old(self).entries@, f, i as int);
                    lemma_map_values_push(
                        old(self).entries@.remove(i as int),
                        f,
                        (key, value),
                    );
                    lemma_refreshed(om, key@, value);
                }
            }
            None => {
                if self.capacity > 0 {
                    if self.entries.len() == self.capacity {
                        let _ = self.entries.remove(0);
                        proof {
                            let om = old(self).model();
                            let f = (|p: (K, V)| (p.0@, p.1));
                            lemma_map_values_remove(old(self).entries@, f, 0);
                            assert(om.remove(0) =~= om.subrange(1, om.len() as int));
                        }
                    }
                    self.entries.push((key, value));
                    proof {
                        let om = old(self).model();
                        let f = (|p: (K, V)| (p.0@, p.1));
                        if om.len() < old(self).spec_capacity() {
                            lemma_map_values_push(old(self).entries@, f, (key, value));
                            lemma_appended(om, key@, value);
                        } else {
                            lemma_map_values_push(
                                old(self).entries@.remove(0),
                                f,
                                (key, value),
                            );
                            lemma_evicted(om, key@, value);
                        }
                    }
                }
            }
        }
    }
}

} // verus!
