//! The mathematical model of an LRU store.
//!
//! A store is modelled as one sequence of `(key, value)` pairs, ordered from
//! least-recently-used (front) to most-recently-used (back), with pairwise
//! distinct keys. The key set of that sequence is the `entries` mapping and
//! the sequence of its keys is the `recency` order; keeping both in a single
//! sequence makes their agreement structural. The functions here say, at the
//! specification level, what `get` and `set` do to that sequence; the lemmas
//! state the laws of the policy: agreement of entry map and recency order,
//! the capacity bound, promotion on reads, unique eviction, and that
//! re-inserting a present key never changes the entry count.

use vstd::prelude::*;
use vstd::seq_lib::*;

verus! {

/// The recency order of `s`: its keys, least-recently-used first.
pub open spec fn keys_of<KV, V>(s: Seq<(KV, V)>) -> Seq<KV> {
    s.map_values(|p: (KV, V)| p.0)
}

/// Does `s` hold an entry for key `k`?
pub open spec fn has_key<KV, V>(s: Seq<(KV, V)>, k: KV) -> bool {
    keys_of(s).contains(k)
}

/// A store is well formed when its keys are pairwise distinct and it holds
/// no more entries than its capacity.
pub open spec fn store_inv<KV, V>(cap: nat, s: Seq<(KV, V)>) -> bool {
    distinct_keys(s) && s.len() <= cap
}

/// The pairs of `s` with each key replaced by its view.
pub open spec fn view_pairs<K: View, V>(s: Seq<(K, V)>) -> Seq<(<K as View>::V, V)> {
    s.map_values(|p: (K, V)| (p.0@, p.1))
}

/// The keys of `s` replaced by their views.
pub open spec fn view_keys<K: View>(ks: Seq<K>) -> Seq<<K as View>::V> {
    ks.map_values(|k: K| k@)
}

/// The position of key `k` in `s` (unique when keys are distinct).
pub open spec fn key_index<KV, V>(s: Seq<(KV, V)>, k: KV) -> int {
    keys_of(s).index_of(k)
}

/// The value held for key `k`.
pub open spec fn value_of<KV, V>(s: Seq<(KV, V)>, k: KV) -> V {
    s[key_index(s, k)].1
}

/// Are the keys of `s` pairwise distinct?
pub open spec fn distinct_keys<KV, V>(s: Seq<(KV, V)>) -> bool {
    keys_of(s).no_duplicates()
}

/// The entry mapping of `s`: each key to its value.
pub open spec fn entry_map<KV, V>(s: Seq<(KV, V)>) -> Map<KV, V> {
    Map::new(|k: KV| has_key(s, k), |k: KV| value_of(s, k))
}

/// `s` after the present key `k` is moved to the most-recently-used end,
/// now bound to `v`; every other entry keeps its value and relative order.
pub open spec fn refreshed<KV, V>(s: Seq<(KV, V)>, k: KV, v: V) -> Seq<(KV, V)> {
    s.remove(key_index(s, k)).push((k, v))
}

/// What `set(k, v)` does to a store of capacity `cap` holding `s`: refresh a
/// present key; append an absent key, evicting the least-recently-used entry
/// first when the store is full. A store of capacity zero holds nothing.
pub open spec fn set_step<KV, V>(cap: nat, s: Seq<(KV, V)>, k: KV, v: V) -> Seq<(KV, V)> {
    if has_key(s, k) {
        refreshed(s, k, v)
    } else if s.len() < cap {
        s.push((k, v))
    } else if s.len() == 0 {
        s
    } else {
        s.subrange(1, s.len() as int).push((k, v))
    }
}

/// The position returned by `key_index` is in range, holds `k`, and, when
/// keys are distinct, is the only position holding `k`.
pub proof fn lemma_key_index<KV, V>(s: Seq<(KV, V)>, k: KV)
    requires
        has_key(s, k),
    ensures
        0 <= key_index(s, k) < s.len(),
        s[key_index(s, k)].0 == k,
        distinct_keys(s) ==> forall|i: int|
            0 <= i < s.len() && s[i].0 == k ==> i == key_index(s, k),
{
    let ks = keys_of::<KV, V>(s);
    let idx = key_index(s, k);
    assert(ks.contains(k));
    assert(ks[idx] == k);
    if distinct_keys(s) {
        assert forall|i: int| 0 <= i < s.len() && s[i].0 == k implies i == idx by {
            assert(ks[i] == s[i].0);
            if i != idx {
                assert(ks[i] != ks[idx]);
            }
        }
    }
}

/// A key absent from `s` appears at no position of `s`.
pub proof fn lemma_absent_key<KV, V>(s: Seq<(KV, V)>, k: KV)
    requires
        !has_key(s, k),
    ensures
        forall|i: int| 0 <= i < s.len() ==> (#[trigger] s[i]).0 != k,
{
    assert forall|i: int| 0 <= i < s.len() implies (#[trigger] s[i]).0 != k by {
        if s[i].0 == k {
            assert(keys_of(s)[i] == k);
            assert(keys_of(s).contains(k));
        }
    }
}

/// Removing one entry keeps the remaining keys distinct, keeps every other
/// entry, and drops the removed key.
pub proof fn lemma_remove_entry<KV, V>(s: Seq<(KV, V)>, i: int)
    requires
        distinct_keys(s),
        0 <= i < s.len(),
    ensures
        distinct_keys(s.remove(i)),
        !has_key(s.remove(i), s[i].0),
        forall|k2: KV|
            #![trigger has_key(s.remove(i), k2)]
            #![trigger has_key(s, k2)]
            has_key(s.remove(i), k2) <==> (has_key(s, k2) && k2 != s[i].0),
        forall|k2: KV|
            has_key(s, k2) && k2 != s[i].0 ==> #[trigger] value_of(s.remove(i), k2) == value_of(
                s,
                k2,
            ),
{
    s.remove_ensures(i);
    let m = s.remove(i);
    let n = s.len() as int;
    assert forall|a: int| 0 <= a < n - 1 implies #[trigger] m[a] == s[
        if a < i {
            a
        } else {
            a + 1
        }
    ] by {
    }
    assert(keys_of(s)[i] == s[i].0);
    assert(has_key(s, s[i].0));
    lemma_key_index(s, s[i].0);
    assert(key_index(s, s[i].0) == i);
    assert(distinct_keys(m)) by {
        assert forall|a: int, b: int|
            0 <= a < keys_of(m).len() && 0 <= b < keys_of(m).len() && a != b implies keys_of(m)[a]
            != keys_of(m)[b] by {
            let p = if a < i {
                a
            } else {
                a + 1
            };
            let q = if b < i {
                b
            } else {
                b + 1
            };
            assert(m[a] == s[p] && m[b] == s[q]);
            assert(keys_of(s)[p] != keys_of(s)[q]);
        }
    }
    assert(!has_key(m, s[i].0)) by {
        assert forall|a: int| 0 <= a < keys_of(m).len() implies keys_of(m)[a] != s[i].0 by {
            let p = if a < i {
                a
            } else {
                a + 1
            };
            assert(m[a] == s[p]);
            assert(p != i);
        }
    }
    assert forall|k2: KV|
        has_key(m, k2) <==> (has_key(s, k2) && k2 != s[i].0) by {
        if has_key(m, k2) {
            let a = choose|a: int| 0 <= a < keys_of(m).len() && keys_of(m)[a] == k2;
            let p = if a < i {
                a
            } else {
                a + 1
            };
            assert(m[a] == s[p]);
            assert(keys_of(s)[p] == k2);
            assert(keys_of(s).contains(k2));
        }
        if has_key(s, k2) && k2 != s[i].0 {
            let j = choose|j: int| 0 <= j < keys_of(s).len() && keys_of(s)[j] == k2;
            assert(s[j].0 == k2);
            assert(j != i);
            let a = if j < i {
                j
            } else {
                j - 1
            };
            assert(m[a] == s[j]);
            assert(keys_of(m)[a] == k2);
            assert(keys_of(m).contains(k2));
        }
    }
    assert forall|k2: KV| has_key(s, k2) && k2 != s[i].0 implies #[trigger] value_of(m, k2)
        == value_of(s, k2) by {
        lemma_key_index(s, k2);
        let j = key_index(s, k2);
        assert(j != i);
        let a = if j < i {
            j
        } else {
            j - 1
        };
        assert(m[a] == s[j]);
        assert(has_key(m, k2));
        lemma_key_index(m, k2);
        assert(key_index(m, k2) == a);
        assert(value_of(m, k2) == s[j].1);
    }
}

/// Law of promotion: refreshing a present key `k` with value `v` keeps the
/// entry count and the key set; `k` ends up at the most-recently-used end
/// bound to `v`; every other entry keeps its value; keys stay distinct.
pub proof fn lemma_refreshed<KV, V>(s: Seq<(KV, V)>, k: KV, v: V)
    requires
        distinct_keys(s),
        has_key(s, k),
    ensures
        refreshed(s, k, v).len() == s.len(),
        distinct_keys(refreshed(s, k, v)),
        forall|k2: KV|
            #![trigger has_key(refreshed(s, k, v), k2)]
            #![trigger has_key(s, k2)]
            has_key(refreshed(s, k, v), k2) <==> has_key(s, k2),
        refreshed(s, k, v).last() == (k, v),
        value_of(refreshed(s, k, v), k) == v,
        forall|k2: KV|
            has_key(s, k2) && k2 != k ==> #[trigger] value_of(refreshed(s, k, v), k2)
                == value_of(s, k2),
{
    let idx = key_index(s, k);
    lemma_key_index(s, k);
    s.remove_ensures(idx);
    let m = s.remove(idx);
    let r = refreshed(s, k, v);
    let n = s.len() as int;
    assert(r == m.push((k, v)));
    assert(r.len() == n);
    assert(r[n - 1] == (k, v));

    assert forall|i: int| 0 <= i < n - 1 implies #[trigger] r[i] == s[
        if i < idx {
            i
        } else {
            i + 1
        }
    ] by {
        if i < idx {
            assert(m[i] == s[i]);
        } else {
            assert(m[i] == s[i + 1]);
        }
        assert(r[i] == m[i]);
    }
    assert forall|i: int| 0 <= i < n - 1 implies (#[trigger] r[i]).0 != k by {
        let p = if i < idx {
            i
        } else {
            i + 1
        };
        assert(r[i] == s[p]);
        assert(p != idx);
    }
    assert forall|i: int, j: int| 0 <= i < n && 0 <= j < n && i != j implies (#[trigger] r[i]).0
        != (#[trigger] r[j]).0 by {
        if i != n - 1 && j != n - 1 {
            let p = if i < idx {
                i
            } else {
                i + 1
            };
            let q = if j < idx {
                j
            } else {
                j + 1
            };
            assert(r[i] == s[p] && r[j] == s[q]);
            assert(p != q);
            assert(keys_of(s)[p] != keys_of(s)[q]);
        }
    }
    assert(distinct_keys(r)) by {
        assert forall|i: int, j: int|
            0 <= i < keys_of(r).len() && 0 <= j < keys_of(r).len() && i != j implies keys_of(r)[i]
            != keys_of(r)[j] by {
            assert(keys_of(r)[i] == r[i].0 && keys_of(r)[j] == r[j].0);
            assert(r[i].0 != r[j].0);
        }
    }

    assert forall|k2: KV|
        has_key(r, k2) <==> has_key(s, k2) by {
        if has_key(r, k2) {
            let i = choose|i: int| 0 <= i < keys_of(r).len() && keys_of(r)[i] == k2;
            assert(r[i].0 == k2);
            if i == n - 1 {
                assert(k2 == k);
            } else {
                let p = if i < idx {
                    i
                } else {
                    i + 1
                };
                assert(r[i] == s[p]);
                assert(keys_of(s)[p] == k2);
                assert(keys_of(s).contains(k2));
            }
        }
        if has_key(s, k2) {
            if k2 == k {
                assert(keys_of(r)[n - 1] == k2);
                assert(keys_of(r).contains(k2));
            } else {
                let j = choose|j: int| 0 <= j < keys_of(s).len() && keys_of(s)[j] == k2;
                assert(s[j].0 == k2);
                assert(j != idx);
                let i = if j < idx {
                    j
                } else {
                    j - 1
                };
                assert(r[i] == s[j]);
                assert(keys_of(r)[i] == k2);
                assert(keys_of(r).contains(k2));
            }
        }
    }

    assert(value_of(r, k) == v) by {
        lemma_key_index(r, k);
        assert(r[n - 1].0 == k);
        assert(key_index(r, k) == n - 1);
    }

    assert forall|k2: KV| has_key(s, k2) && k2 != k implies #[trigger] value_of(r, k2)
        == value_of(s, k2) by {
        lemma_key_index(s, k2);
        let j = key_index(s, k2);
        assert(j != idx);
        let i = if j < idx {
            j
        } else {
            j - 1
        };
        assert(r[i] == s[j]);
        assert(has_key(r, k2));
        lemma_key_index(r, k2);
        assert(key_index(r, k2) == i);
        assert(value_of(r, k2) == s[j].1);
    }
}

/// Law of insertion below capacity: appending an absent key adds exactly
/// that entry at the most-recently-used end and touches nothing else.
pub proof fn lemma_appended<KV, V>(s: Seq<(KV, V)>, k: KV, v: V)
    requires
        distinct_keys(s),
        !has_key(s, k),
    ensures
        s.push((k, v)).len() == s.len() + 1,
        distinct_keys(s.push((k, v))),
        forall|k2: KV|
            #![trigger has_key(s.push((k, v)), k2)]
            #![trigger has_key(s, k2)]
            has_key(s.push((k, v)), k2) <==> (has_key(s, k2) || k2 == k),
        value_of(s.push((k, v)), k) == v,
        forall|k2: KV|
            has_key(s, k2) ==> #[trigger] value_of(s.push((k, v)), k2) == value_of(s, k2),
{
    let t = s.push((k, v));
    let n = s.len() as int;
    lemma_absent_key(s, k);
    assert(t[n] == (k, v));
    assert(distinct_keys(t)) by {
        assert forall|i: int, j: int|
            0 <= i < keys_of(t).len() && 0 <= j < keys_of(t).len() && i != j implies keys_of(t)[i]
            != keys_of(t)[j] by {
            assert(keys_of(t)[i] == t[i].0 && keys_of(t)[j] == t[j].0);
            if i < n && j < n {
                assert(t[i] == s[i] && t[j] == s[j]);
                assert(keys_of(s)[i] != keys_of(s)[j]);
            } else if i == n {
                assert(t[j] == s[j] && s[j].0 != k);
            } else {
                assert(t[i] == s[i] && s[i].0 != k);
            }
        }
    }
    assert forall|k2: KV|
        has_key(t, k2) <==> (has_key(s, k2) || k2 == k) by {
        if has_key(t, k2) {
            let i = choose|i: int| 0 <= i < keys_of(t).len() && keys_of(t)[i] == k2;
            assert(t[i].0 == k2);
            if i < n {
                assert(t[i] == s[i]);
                assert(keys_of(s)[i] == k2);
                assert(keys_of(s).contains(k2));
            }
        }
        if has_key(s, k2) {
            let j = choose|j: int| 0 <= j < keys_of(s).len() && keys_of(s)[j] == k2;
            assert(t[j] == s[j]);
            assert(keys_of(t)[j] == k2);
            assert(keys_of(t).contains(k2));
        }
        if k2 == k {
            assert(keys_of(t)[n] == k2);
            assert(keys_of(t).contains(k2));
        }
    }
    assert(value_of(t, k) == v) by {
        lemma_key_index(t, k);
        assert(t[n].0 == k);
        assert(key_index(t, k) == n);
    }
    assert forall|k2: KV| has_key(s, k2) implies #[trigger] value_of(t, k2) == value_of(s, k2) by {
        lemma_key_index(s, k2);
        let j = key_index(s, k2);
        assert(t[j] == s[j]);
        assert(has_key(t, k2));
        lemma_key_index(t, k2);
        assert(key_index(t, k2) == j);
    }
}

/// Law of eviction: when a full store admits an absent key, exactly the
/// least-recently-used entry `s[0]` disappears; every other entry keeps its
/// value and relative order, and the new key enters at the
/// most-recently-used end.
pub proof fn lemma_evicted<KV, V>(s: Seq<(KV, V)>, k: KV, v: V)
    requires
        distinct_keys(s),
        !has_key(s, k),
        s.len() > 0,
    ensures
        s.subrange(1, s.len() as int).push((k, v)).len() == s.len(),
        distinct_keys(s.subrange(1, s.len() as int).push((k, v))),
        !has_key(s.subrange(1, s.len() as int).push((k, v)), s[0].0),
        forall|k2: KV|
            #![trigger has_key(s.subrange(1, s.len() as int).push((k, v)), k2)]
            #![trigger has_key(s, k2)]
            has_key(s.subrange(1, s.len() as int).push((k, v)), k2) <==> ((has_key(s, k2) && k2
                != s[0].0) || k2 == k),
        value_of(s.subrange(1, s.len() as int).push((k, v)), k) == v,
        forall|k2: KV|
            has_key(s, k2) && k2 != s[0].0 ==> #[trigger] value_of(
                s.subrange(1, s.len() as int).push((k, v)),
                k2,
            ) == value_of(s, k2),
{
    let n = s.len() as int;
    let t = s.subrange(1, n).push((k, v));
    lemma_absent_key(s, k);
    assert(t.len() == n);
    assert(t[n - 1] == (k, v));
    assert forall|i: int| 0 <= i < n - 1 implies #[trigger] t[i] == s[i + 1] by {
        assert(s.subrange(1, n)[i] == s[i + 1]);
    }
    assert(distinct_keys(t)) by {
        assert forall|i: int, j: int|
            0 <= i < keys_of(t).len() && 0 <= j < keys_of(t).len() && i != j implies keys_of(t)[i]
            != keys_of(t)[j] by {
            assert(keys_of(t)[i] == t[i].0 && keys_of(t)[j] == t[j].0);
            if i < n - 1 && j < n - 1 {
                assert(t[i] == s[i + 1] && t[j] == s[j + 1]);
                assert(keys_of(s)[i + 1] != keys_of(s)[j + 1]);
            } else if i == n - 1 {
                assert(t[j] == s[j + 1] && s[j + 1].0 != k);
            } else {
                assert(t[i] == s[i + 1] && s[i + 1].0 != k);
            }
        }
    }
    assert(keys_of(s)[0] == s[0].0);
    assert(has_key(s, s[0].0));
    assert(s[0].0 != k);
    assert(!has_key(t, s[0].0)) by {
        assert forall|i: int| 0 <= i < keys_of(t).len() implies keys_of(t)[i] != s[0].0 by {
            assert(keys_of(t)[i] == t[i].0);
            if i < n - 1 {
                assert(t[i] == s[i + 1]);
                assert(keys_of(s)[i + 1] != keys_of(s)[0]);
            }
        }
    }
    assert forall|k2: KV|
        has_key(t, k2) <==> ((has_key(s, k2) && k2 != s[0].0) || k2 == k) by {
        if has_key(t, k2) {
            let i = choose|i: int| 0 <= i < keys_of(t).len() && keys_of(t)[i] == k2;
            assert(t[i].0 == k2);
            if i < n - 1 {
                assert(t[i] == s[i + 1]);
                assert(keys_of(s)[i + 1] == k2);
                assert(keys_of(s).contains(k2));
                assert(keys_of(s)[i + 1] != keys_of(s)[0]);
            }
        }
        if has_key(s, k2) && k2 != s[0].0 {
            let j = choose|j: int| 0 <= j < keys_of(s).len() && keys_of(s)[j] == k2;
            assert(s[j].0 == k2);
            assert(j != 0);
            assert(t[j - 1] == s[j]);
            assert(keys_of(t)[j - 1] == k2);
            assert(keys_of(t).contains(k2));
        }
        if k2 == k {
            assert(keys_of(t)[n - 1] == k2);
            assert(keys_of(t).contains(k2));
        }
    }
    assert(value_of(t, k) == v) by {
        lemma_key_index(t, k);
        assert(t[n - 1].0 == k);
        assert(key_index(t, k) == n - 1);
    }
    assert forall|k2: KV| has_key(s, k2) && k2 != s[0].0 implies #[trigger] value_of(t, k2)
        == value_of(s, k2) by {
        lemma_key_index(s, k2);
        let j = key_index(s, k2);
        assert(j != 0);
        assert(t[j - 1] == s[j]);
        assert(has_key(t, k2));
        lemma_key_index(t, k2);
        assert(key_index(t, k2) == j - 1);
        assert(value_of(t, k2) == s[j].1);
    }
}

/// Mapping a function over a sequence commutes with removing a position.
pub proof fn lemma_map_values_remove<A, B>(s: Seq<A>, f: spec_fn(A) -> B, i: int)
    requires
        0 <= i < s.len(),
    ensures
        s.remove(i).map_values(f) == s.map_values(f).remove(i),
{
    s.remove_ensures(i);
    s.map_values(f).remove_ensures(i);
    assert(s.remove(i).map_values(f) =~= s.map_values(f).remove(i));
}

/// Mapping a function over a sequence commutes with appending an element.
pub proof fn lemma_map_values_push<A, B>(s: Seq<A>, f: spec_fn(A) -> B, a: A)
    ensures
        s.push(a).map_values(f) == s.map_values(f).push(f(a)),
{
    assert(s.push(a).map_values(f) =~= s.map_values(f).push(f(a)));
}

/// Law: the entry mapping and the recency order always agree — they hold
/// exactly the same keys, and there are as many entries as positions in the
/// recency order.
pub proof fn lemma_entries_match_recency<KV, V>(s: Seq<(KV, V)>)
    requires
        distinct_keys(s),
    ensures
        entry_map(s).dom() == keys_of(s).to_set(),
        entry_map(s).len() == keys_of(s).len(),
{
    assert(entry_map(s).dom() =~= keys_of(s).to_set());
    keys_of(s).unique_seq_to_set();
}

/// Law: `set` keeps a store within its capacity and keeps keys distinct,
/// whichever of its branches applies.
pub proof fn lemma_set_step_capacity<KV, V>(cap: nat, s: Seq<(KV, V)>, k: KV, v: V)
    requires
        distinct_keys(s),
        s.len() <= cap,
    ensures
        set_step(cap, s, k, v).len() <= cap,
        distinct_keys(set_step(cap, s, k, v)),
{
    if has_key(s, k) {
        lemma_refreshed(s, k, v);
    } else if s.len() < cap {
        lemma_appended(s, k, v);
    } else if s.len() > 0 {
        lemma_evicted(s, k, v);
    }
}

/// Law: re-inserting a key that is already present never changes the entry
/// count and never evicts — the store keeps exactly the keys it had.
pub proof fn lemma_reinsert_no_eviction<KV, V>(cap: nat, s: Seq<(KV, V)>, k: KV, v: V)
    requires
        distinct_keys(s),
        has_key(s, k),
    ensures
        set_step(cap, s, k, v).len() == s.len(),
        forall|k2: KV|
            #![trigger has_key(set_step(cap, s, k, v), k2)]
            #![trigger has_key(s, k2)]
            has_key(set_step(cap, s, k, v), k2) <==> has_key(s, k2),
{
    lemma_refreshed(s, k, v);
}

/// Law: when `set` admits an absent key into a full store, the evicted key
/// is exactly the least-recently-used one — that key, and no other, is gone
/// afterwards, while the new key is present.
pub proof fn lemma_set_step_evicts<KV, V>(cap: nat, s: Seq<(KV, V)>, k: KV, v: V)
    requires
        distinct_keys(s),
        !has_key(s, k),
        s.len() == cap,
        cap > 0,
    ensures
        set_step(cap, s, k, v).len() == cap,
        !has_key(set_step(cap, s, k, v), s[0].0),
        has_key(set_step(cap, s, k, v), k),
        value_of(set_step(cap, s, k, v), k) == v,
        forall|k2: KV|
            #![trigger has_key(set_step(cap, s, k, v), k2)]
            #![trigger has_key(s, k2)]
            has_key(set_step(cap, s, k, v), k2) <==> ((has_key(s, k2) && k2 != s[0].0) || k2
                == k),
{
    lemma_evicted(s, k, v);
}

/// Law: refreshing the key that is already most recently used, with the
/// value it already holds, changes nothing — so a second `get` of the same
/// key returns the same value and leaves the whole order as it was.
pub proof fn lemma_refresh_idempotent<KV, V>(s: Seq<(KV, V)>, k: KV)
    requires
        distinct_keys(s),
        has_key(s, k),
        s.len() > 0,
        s.last().0 == k,
    ensures
        refreshed(s, k, value_of(s, k)) == s,
{
    let n = s.len() as int;
    lemma_key_index(s, k);
    assert(s[n - 1].0 == k);
    assert(key_index(s, k) == n - 1);
    s.remove_ensures(n - 1);
    assert(refreshed(s, k, value_of(s, k)) =~= s);
}

} // verus!

