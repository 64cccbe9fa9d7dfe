//! How stored keys and the queries that callers pass relate.

use crate::metric::Metric;
use crate::Dist;
use vstd::prelude::*;

verus! {

/// A key that can be looked at as a query without allocating.
pub trait AsQuery<Q: View + ?Sized>: View<V = Q::V> {
    /// The query that stands for the same point as `self`.
    fn as_query(&self) -> (q: &Q)
        ensures
            q@ == self@,
    ;
}

impl AsQuery<u64> for u64 {
    #[inline]
    fn as_query(&self) -> (q: &u64) {
        self
    }
}

impl AsQuery<str> for String {
    #[inline]
    fn as_query(&self) -> (q: &str) {
        self.as_str()
    }
}

/// Binds the type of the keys that a tree stores to the type of the queries
/// that callers pass.  Both stand for points of one space: the view of a key
/// and the view of a query have the same type, and a key and a query are the
/// same point where their views are equal.
pub trait KeyQuery {
    /// What a tree stores.
    type Key: View + core::fmt::Debug;

    /// What callers search for and insert.
    type Query: View<V = <Self::Key as View>::V> + ?Sized;

    /// The distance between a stored key and a query.
    fn distance<M: Metric<Self::Query>>(
        &self,
        metric: &M,
        key: &Self::Key,
        query: &Self::Query,
    ) -> (d: Dist)
        ensures
            d == M::dist(key@, query@),
    ;

    /// The distance between a stored key and a query, without a value of
    /// `Self`.
    fn distance_static<M: Metric<Self::Query>>(
        metric: &M,
        key: &Self::Key,
        query: &Self::Query,
    ) -> (d: Dist)
        ensures
            d == M::dist(key@, query@),
    ;

    /// The key to store for `query`.
    fn to_key(&self, query: &Self::Query) -> (key: Self::Key)
        ensures
            key@ == query@,
    ;

    /// The key to store for `query`, without a value of `Self`.
    fn to_key_static(query: &Self::Query) -> (key: Self::Key)
        ensures
            key@ == query@,
    ;

    /// A stored key seen as a query.
    fn to_query_static(key: &Self::Key) -> (query: &Self::Query)
        ensures
            query@ == key@,
    ;

    /// Whether `key` and `query` are the same point.
    fn eq(&self, key: &Self::Key, query: &Self::Query) -> (same: bool)
        ensures
            same == (key@ == query@),
    ;

    /// Whether `key` and `query` are the same point, without a value of
    /// `Self`.
    fn eq_static(key: &Self::Key, query: &Self::Query) -> (same: bool)
        ensures
            same == (key@ == query@),
    ;
}

} // verus!
