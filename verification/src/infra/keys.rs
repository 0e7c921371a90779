//! The key interface of the caches.
//!
//! A cache key must support an equality test whose outcome is fully
//! characterised at the specification level, and a duplication operation, so
//! that verified code can reason about lookups and about the key sequences
//! handed out for snapshots. Equality is stated over the key's view (`k@`):
//! two keys are the same key exactly when their views agree. The stores
//! keep the views of their keys pairwise distinct, so the view is the
//! mathematical identity of a key.

use vstd::prelude::*;

verus! {

/// A type usable as a cache key: equality and duplication, both specified
/// over the key's view.
pub trait CacheKey: View + Sized {
    /// Does `self` denote the same key as `other`?
    fn key_eq(&self, other: &Self) -> (r: bool)
        ensures
            r == (self@ == other@),
    ;

    /// A duplicate of `self` denoting the same key.
    fn key_dup(&self) -> (r: Self)
        ensures
            r@ == self@,
    ;
}

impl CacheKey for String {
    fn key_eq(&self, other: &Self) -> (r: bool)
        ensures
            r == (self@ == other@),
    {
        *self == *other
    }

    fn key_dup(&self) -> (r: Self)
        ensures
            r@ == self@,
    {
        self.clone()
    }
}

impl CacheKey for u64 {
    fn key_eq(&self, other: &Self) -> (r: bool)
        ensures
            r == (self@ == other@),
    {
        *self == *other
    }

    fn key_dup(&self) -> (r: Self)
        ensures
            r@ == self@,
    {
        *self
    }
}

impl CacheKey for i32 {
    fn key_eq(&self, other: &Self) -> (r: bool)
        ensures
            r == (self@ == other@),
    {
        *self == *other
    }

    fn key_dup(&self) -> (r: Self)
        ensures
            r@ == self@,
    {
        *self
    }
}

impl CacheKey for usize {
    fn key_eq(&self, other: &Self) -> (r: bool)
        ensures
            r == (self@ == other@),
    {
        *self == *other
    }

    fn key_dup(&self) -> (r: Self)
        ensures
            r@ == self@,
    {
        *self
    }
}

} // verus!
