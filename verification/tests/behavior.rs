use lru_cache::caches::memory::MemoryCache;
use lru_cache::caches::persistent::PersistentCache;
use lru_cache::infra::node::Node;
use lru_cache::infra::traits::LruCache;

#[test]
fn evicts_oldest_on_overflow() {
    let mut cache: MemoryCache<String, i32> = MemoryCache::new(3);
    cache.set("A".to_string(), 1);
    cache.set("B".to_string(), 2);
    cache.set("C".to_string(), 3);
    cache.set("D".to_string(), 4);
    assert_eq!(cache.get(&"A".to_string()), None);
    assert_eq!(cache.get(&"D".to_string()), Some(&4));
}

#[test]
fn updating_existing_key_keeps_one_entry() {
    let mut cache: MemoryCache<String, i32> = MemoryCache::new(2);
    cache.set("k".to_string(), 1);
    cache.set("k".to_string(), 2);
    assert_eq!(cache.get(&"k".to_string()), Some(&2));
    assert_eq!(cache.len(), 1);
}

#[test]
fn entry_count_stays_within_capacity() {
    let mut cache: MemoryCache<String, i32> = MemoryCache::new(2);
    let keys = ["a", "b", "c", "d", "a", "b"];
    for (i, k) in keys.iter().enumerate() {
        cache.set(k.to_string(), i as i32);
        assert!(cache.len() <= cache.capacity());
        assert_eq!(cache.ordered_keys().len(), cache.len());
    }
}

#[test]
fn entries_and_recency_hold_the_same_keys() {
    let mut cache: MemoryCache<String, i32> = MemoryCache::new(2);
    cache.set("a".to_string(), 1);
    cache.set("b".to_string(), 2);
    cache.set("c".to_string(), 3);
    let _ = cache.get(&"b".to_string());
    let entry_keys: Vec<String> = cache.all_entries().iter().map(|p| p.0.clone()).collect();
    assert_eq!(entry_keys, cache.ordered_keys());
    assert_eq!(cache.all_entries().len(), cache.len());
}

#[test]
fn get_promotes_key_to_most_recent() {
    let mut cache: MemoryCache<String, i32> = MemoryCache::new(3);
    cache.set("a".to_string(), 1);
    cache.set("b".to_string(), 2);
    cache.set("c".to_string(), 3);
    assert_eq!(cache.get(&"a".to_string()), Some(&1));
    assert_eq!(
        cache.ordered_keys(),
        vec!["b".to_string(), "c".to_string(), "a".to_string()]
    );
    // A second read of the same key returns the same value and moves nothing.
    assert_eq!(cache.get(&"a".to_string()), Some(&1));
    assert_eq!(
        cache.ordered_keys(),
        vec!["b".to_string(), "c".to_string(), "a".to_string()]
    );
}

#[test]
fn eviction_removes_exactly_least_recent() {
    let mut cache: MemoryCache<String, i32> = MemoryCache::new(2);
    cache.set("a".to_string(), 1);
    cache.set("b".to_string(), 2);
    assert_eq!(cache.get(&"a".to_string()), Some(&1));
    cache.set("c".to_string(), 3);
    assert_eq!(cache.ordered_keys(), vec!["a".to_string(), "c".to_string()]);
    assert_eq!(cache.get(&"b".to_string()), None);
    assert_eq!(cache.get(&"a".to_string()), Some(&1));
    assert_eq!(cache.get(&"c".to_string()), Some(&3));
}

#[test]
fn capacity_zero_holds_nothing() {
    let mut cache: MemoryCache<String, i32> = MemoryCache::new(0);
    cache.set("a".to_string(), 1);
    assert_eq!(cache.len(), 0);
    assert_eq!(cache.get(&"a".to_string()), None);
}

#[test]
fn absent_key_leaves_order_unchanged() {
    let mut cache: MemoryCache<String, i32> = MemoryCache::new(2);
    cache.set("a".to_string(), 1);
    cache.set("b".to_string(), 2);
    assert_eq!(cache.get(&"zzz".to_string()), None);
    assert_eq!(cache.ordered_keys(), vec!["a".to_string(), "b".to_string()]);
}

#[test]
fn snapshot_round_trip_reproduces_store() {
    let mut cache: PersistentCache<String, i32> = PersistentCache::new(3);
    cache.set("A".to_string(), 1);
    cache.set("B".to_string(), 2);
    cache.set("C".to_string(), 3);
    assert_eq!(cache.get(&"A".to_string()), Some(&1));
    // Order is now [B, C, A].
    let capacity = cache.capacity();
    let usage = cache.ordered_keys();
    let pairs = cache.all_entries().clone();
    let mut restored: PersistentCache<String, i32> =
        PersistentCache::new_persistent(capacity, usage, pairs);
    assert_eq!(restored.capacity(), cache.capacity());
    assert_eq!(restored.ordered_keys(), cache.ordered_keys());
    assert_eq!(restored.len(), cache.len());
    assert_eq!(restored.get(&"B".to_string()), Some(&2));
    assert_eq!(restored.get(&"C".to_string()), Some(&3));
    assert_eq!(restored.get(&"A".to_string()), Some(&1));
    // Both stores now behave identically on a further overflow.
    restored.set("D".to_string(), 4);
    cache.set("D".to_string(), 4);
    assert_eq!(restored.ordered_keys(), cache.ordered_keys());
    assert_eq!(restored.get(&"B".to_string()), None);
    assert_eq!(cache.get(&"B".to_string()), None);
}

#[test]
fn restore_skips_keys_without_pairs() {
    let usage = vec!["A".to_string(), "B".to_string()];
    let pairs = vec![("B".to_string(), 5)];
    let mut cache: PersistentCache<String, i32> = PersistentCache::new_persistent(2, usage, pairs);
    assert_eq!(cache.len(), 1);
    assert_eq!(cache.get(&"A".to_string()), None);
    assert_eq!(cache.get(&"B".to_string()), Some(&5));
}

#[test]
fn restore_evicts_when_snapshot_exceeds_capacity() {
    let usage = vec!["A".to_string(), "B".to_string(), "C".to_string()];
    let pairs = vec![
        ("A".to_string(), 1),
        ("B".to_string(), 2),
        ("C".to_string(), 3),
    ];
    let mut cache: PersistentCache<String, i32> = PersistentCache::new_persistent(2, usage, pairs);
    assert_eq!(cache.len(), 2);
    assert_eq!(cache.ordered_keys(), vec!["B".to_string(), "C".to_string()]);
    assert_eq!(cache.get(&"A".to_string()), None);
    assert_eq!(cache.get(&"B".to_string()), Some(&2));
    assert_eq!(cache.get(&"C".to_string()), Some(&3));
}

#[test]
fn persistent_cache_evicts_like_memory_cache() {
    let mut cache: PersistentCache<String, String> = PersistentCache::new(2);
    cache.set("h".to_string(), "one".to_string());
    cache.set("w".to_string(), "two".to_string());
    assert_eq!(cache.get(&"h".to_string()), Some(&"one".to_string()));
    cache.set("f".to_string(), "three".to_string());
    assert_eq!(cache.get(&"w".to_string()), None);
    assert_eq!(cache.get(&"h".to_string()), Some(&"one".to_string()));
    assert_eq!(cache.get(&"f".to_string()), Some(&"three".to_string()));
}

#[test]
fn node_holds_key_and_value() {
    let mut node = Node::new("k".to_string(), 7);
    assert_eq!(node.key(), &"k".to_string());
    assert_eq!(node.value(), &7);
    *node.value_mut() = 9;
    assert_eq!(node.value(), &9);
    assert_eq!(node.key(), &"k".to_string());
}

#[test]
fn integer_keys_follow_the_same_policy() {
    let mut cache: MemoryCache<u64, u64> = MemoryCache::new(2);
    cache.set(1, 10);
    cache.set(2, 20);
    assert_eq!(cache.get(&1), Some(&10));
    cache.set(3, 30);
    assert_eq!(cache.get(&2), None);
    assert_eq!(cache.get(&1), Some(&10));
    assert_eq!(cache.get(&3), Some(&30));
}
