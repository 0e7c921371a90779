//! Foundations shared by the cache implementations: the key trait, the
//! mathematical model of a recency-ordered store, the entry node type, and
//! the `LruCache` trait itself.

pub mod keys;
pub mod node;
pub mod recency;
pub mod traits;

