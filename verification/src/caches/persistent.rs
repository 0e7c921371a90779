//! The snapshot-restorable LRU cache.
//!
//! `PersistentCache` has exactly the eviction behaviour of
//! `MemoryCache`, and in addition a restore path: `new_persistent` rebuilds
//! a store from the three pieces a persistence layer snapshots — the
//! capacity, the keys in recency order, and the key-value pairs. The cache
//! itself knows nothing of files or encodings; a caller snapshots through
//! `capacity`, `ordered_keys` and `all_entries`, keeps the result wherever
//! it likes, and hands the pieces back to `new_persistent`. The round-trip
//! law `lemma_snapshot_round_trip` states that this reproduces the store
//! exactly.

use vstd::prelude::*;

use crate::caches::memory::MemoryCache;
use crate::infra::keys::CacheKey;
use crate::infra::recency::{
    distinct_keys, has_key, key_index, keys_of, lemma_key_index, lemma_map_values_remove,
    lemma_remove_entry, set_step, store_inv, value_of, view_keys, view_pairs,
};
use crate::infra::traits::LruCache;

verus! {

/// The store a snapshot rebuilds: each key of `usage` in turn (least-
/// recently-used first) is inserted with the value that `pairs` holds for
/// it, by an ordinary `set`; a key without a pair is skipped, and a pair is
/// used at most once.
pub open spec fn rebuild<KV, V>(
    cap: nat,
    s: Seq<(KV, V)>,
    usage: Seq<KV>,
    pairs: Seq<(KV, V)>,
) -> Seq<(KV, V)>
    decreases usage.len(),
{
    if usage.len() == 0 {
        s
    } else if has_key(pairs, usage[0]) {
        rebuild(
            cap,
            set_step(cap, s, usage[0], value_of(pairs, usage[0])),
            usage.drop_first(),
            pairs.remove(key_index(pairs, usage[0])),
        )
    } else {
        rebuild(cap, s, usage.drop_first(), pairs)
    }
}

/// A fixed-capacity key-value store with LRU eviction and a
/// snapshot/restore interface.
pub struct PersistentCache<K, V> {
    core: MemoryCache<K, V>,
}

fn position_of_key<K: CacheKey, V>(pairs: &Vec<(K, V)>, key: &K) -> (r: Option<usize>)
    ensures
        r matches Some(i) ==> i < view_pairs(pairs@).len() && view_pairs(pairs@)[i as int].0
            == key@,
        r is None ==> !has_key(view_pairs(pairs@), key@),
{
    let mut i: usize = 0;
    while i < pairs.len()
        invariant
            i <= pairs.len(),
            forall|j: int| 0 <= j < i ==> (#[trigger] view_pairs(pairs@)[j]).0 != key@,
        decreases pairs.len() - i,
    {
        if pairs[i].0.key_eq(key) {
            return Some(i);
        }
        i = i + 1;
    }
    proof {
        assert forall|j: int| 0 <= j < keys_of(view_pairs(pairs@)).len() implies keys_of(
            view_pairs(pairs@),
        )[j] != key@ by {
            assert(keys_of(view_pairs(pairs@))[j] == view_pairs(pairs@)[j].0);
        }
    }
    None
}

impl<K: CacheKey, V> PersistentCache<K, V> {
    /// Rebuild a store from a snapshot: the capacity, the keys in recency
    /// order (least-recently-used first), and the key-value pairs. The
    /// pairs must hold each key at most once, as the entry mapping of a
    /// store always does. Keys of `usage` without a pair are skipped, so
    /// the result is well formed whatever `usage` holds.
    pub fn new_persistent(capacity: usize, usage: Vec<K>, pairs: Vec<(K, V)>) -> (c: Self)
        requires
            distinct_keys(view_pairs(pairs@)),
        ensures
            c.spec_capacity() == capacity as nat,
            store_inv(c.spec_capacity(), c.model()),
            c.model() == rebuild(
                capacity as nat,
                Seq::<(<K as View>::V, V)>::empty(),
                view_keys(usage@),
                view_pairs(pairs@),
            ),
    {
        let ghost u0 = view_keys(usage@);
        let ghost p0 = view_pairs(pairs@);
        let mut c = Self { core: MemoryCache::new(capacity) };
        let mut pairs = pairs;
        let ulen: usize = usage.len();
        let mut i: usize = 0;
        proof {
            assert(view_keys(usage@).subrange(0, ulen as int) =~= u0);
        }
        while i < ulen
            invariant
                i <= ulen,
                ulen == usage.len(),
                c.spec_capacity() == capacity as nat,
                store_inv(c.spec_capacity(), c.model()),
                distinct_keys(view_pairs(pairs@)),
                rebuild(
                    capacity as nat,
                    c.model(),
                    view_keys(usage@).subrange(i as int, ulen as int),
                    view_pairs(pairs@),
                ) == rebuild(capacity as nat, Seq::<(<K as View>::V, V)>::empty(), u0, p0),
            decreases ulen - i,
        {
            let ghost us = view_keys(usage@).subrange(i as int, ulen as int);
            let ghost ps = view_pairs(pairs@);
            let ghost m = c.model();
            proof {
                assert(us[0] == usage@[i as int]@);
                assert(us.drop_first() =~= view_keys(usage@).subrange(i as int + 1, ulen as int));
            }
            let ghost pv = pairs@;
            match position_of_key(&pairs, &usage[i]) {
                Some(j) => {
                    let pair = pairs.remove(j);
                    proof {
                        assert(keys_of(ps)[j as int] == ps[j as int].0);
                        assert(has_key(ps, us[0]));
                        lemma_key_index(ps, us[0]);
                        assert(key_index(ps, us[0]) == j as int);
                        assert(value_of(ps, us[0]) == ps[j as int].1);
                        lemma_map_values_remove(pv, (|p: (K, V)| (p.0@, p.1)), j as int);
                        lemma_remove_entry(ps, j as int);
                        assert(view_pairs(pairs@) == ps.remove(j as int));
                    }
                    c.set(pair.0, pair.1);
                    proof {
                        assert(pair.0@ == us[0] && pair.1 == value_of(ps, us[0]));
                        assert(c.model() == set_step(
                            capacity as nat,
                            m,
                            us[0],
                            value_of(ps, us[0]),
                        ));
                        assert(rebuild(capacity as nat, m, us, ps) == rebuild(
                            capacity as nat,
                            c.model(),
                            us.drop_first(),
                            ps.remove(key_index(ps, us[0])),
                        ));
                    }
                }
                None => {
                    proof {
                        assert(!has_key(ps, us[0]));
                        assert(rebuild(capacity as nat, m, us, ps) == rebuild(
                            capacity as nat,
                            m,
                            us.drop_first(),
                            ps,
                        ));
                    }
                }
            }
            i = i + 1;
        }
        proof {
            assert(view_keys(usage@).subrange(ulen as int, ulen as int) =~= Seq::<
                <K as View>::V,
            >::empty());
        }
        c
    }

    /// The fixed capacity of the cache.
    pub fn capacity(&self) -> (c: usize)
        ensures
            c as nat == self.spec_capacity(),
    {
        self.core.capacity()
    }

    /// The number of entries currently held.
    pub fn len(&self) -> (n: usize)
        ensures
            n as nat == self.model().len(),
    {
        self.core.len()
    }

    /// The keys in recency order, least-recently-used first.
    pub fn ordered_keys(&self) -> (r: Vec<K>)
        ensures
            view_keys(r@) == keys_of(self.model()),
    {
        self.core.ordered_keys()
    }

    /// Every entry in recency order — a full enumeration for snapshots.
    pub fn all_entries(&self) -> (r: &Vec<(K, V)>)
        ensures
            view_pairs(r@) == self.model(),
    {
        self.core.all_entries()
    }
}

impl<K: CacheKey, V> LruCache<K, V> for PersistentCache<K, V> {
    closed spec fn spec_capacity(&self) -> nat {
        self.core.spec_capacity()
    }

    closed spec fn model(&self) -> Seq<(<K as View>::V, V)> {
        self.core.model()
    }

    fn new(capacity: usize) -> (c: Self) {
        Self { core: MemoryCache::new(capacity) }
    }

    fn get(&mut self, key: &K) -> (r: Option<&V>) {
        self.core.get(key)
    }

    fn set(&mut self, key: K, value: V) {
        self.core.set(key, value)
    }
}

/// Rebuilding from the snapshot of a well-formed store reproduces its
/// remainder: with the first `i` entries already in place, replaying the
/// rest of the keys against the rest of the pairs completes `m`.
proof fn lemma_rebuild_prefix<KV, V>(cap: nat, m: Seq<(KV, V)>, i: int)
    requires
        store_inv(cap, m),
        0 <= i <= m.len(),
    ensures
        rebuild(
            cap,
            m.subrange(0, i),
            keys_of(m).subrange(i, m.len() as int),
            m.subrange(i, m.len() as int),
        ) == m,
    decreases m.len() - i,
{
    let n = m.len() as int;
    let us = keys_of(m).subrange(i, n);
    let ps = m.subrange(i, n);
    if i == n {
        assert(m.subrange(0, n) =~= m);
    } else {
        let k = us[0];
        assert(k == m[i].0);
        assert(keys_of(ps)[0] == ps[0].0);
        assert(has_key(ps, k));
        assert(distinct_keys(ps)) by {
            assert forall|a: int, b: int|
                0 <= a < keys_of(ps).len() && 0 <= b < keys_of(ps).len() && a != b implies keys_of(
                ps,
            )[a] != keys_of(ps)[b] by {
                assert(keys_of(ps)[a] == m[a + i].0 && keys_of(ps)[b] == m[b + i].0);
                assert(keys_of(m)[a + i] != keys_of(m)[b + i]);
            }
        }
        lemma_key_index(ps, k);
        assert(key_index(ps, k) == 0);
        assert(value_of(ps, k) == m[i].1);
        assert(!has_key(m.subrange(0, i), k)) by {
            assert forall|a: int| 0 <= a < keys_of(m.subrange(0, i)).len() implies keys_of(
                m.subrange(0, i),
            )[a] != k by {
                assert(keys_of(m.subrange(0, i))[a] == m[a].0);
                assert(keys_of(m)[a] != keys_of(m)[i]);
            }
        }
        assert(set_step(cap, m.subrange(0, i), k, m[i].1) == m.subrange(0, i + 1)) by {
            assert(m.subrange(0, i).len() < cap);
            assert(m.subrange(0, i).push((k, m[i].1)) =~= m.subrange(0, i + 1));
        }
        assert(us.drop_first() =~= keys_of(m).subrange(i + 1, n));
        assert(ps.remove(0) =~= m.subrange(i + 1, n));
        lemma_rebuild_prefix(cap, m, i + 1);
    }
}

/// Law of the round trip: snapshotting a well-formed store (its capacity,
/// recency order and entries) and rebuilding from that snapshot reproduces
/// the store exactly.
pub proof fn lemma_snapshot_round_trip<KV, V>(cap: nat, m: Seq<(KV, V)>)
    requires
        store_inv(cap, m),
    ensures
        rebuild(cap, Seq::<(KV, V)>::empty(), keys_of(m), m) == m,
{
    lemma_rebuild_prefix(cap, m, 0);
    assert(m.subrange(0, 0) =~= Seq::<(KV, V)>::empty());
    assert(keys_of(m).subrange(0, m.len() as int) =~= keys_of(m));
    assert(m.subrange(0, m.len() as int) =~= m);
}

} // verus!
