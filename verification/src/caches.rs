//! The concrete cache implementations: the in-memory store and the
//! snapshot-restorable store used by a persistence layer.

pub mod memory;
pub mod persistent;
