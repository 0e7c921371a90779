//! A fixed-capacity least-recently-used (LRU) key-value store.
//!
//! The crate offers two stores with identical eviction behaviour:
//! `caches::memory::MemoryCache`, a plain in-memory store, and
//! `caches::persistent::PersistentCache`, the same store extended with a
//! snapshot/restore interface so that a caller may persist its state.
//! Both implement the `infra::traits::LruCache` trait, whose contracts pin
//! down the recency order maintained by `get` and `set` and the eviction of
//! the least-recently-used entry when capacity is exceeded.

pub mod caches;
pub mod infra;
