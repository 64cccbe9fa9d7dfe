//! The two bindings of keys to queries that come with the crate.

use crate::keyquery::KeyQuery;
use crate::metric::Metric;
use crate::Dist;
use vstd::prelude::*;

verus! {

/// Keys and queries are both `u64`.
#[derive(Debug, Clone, Copy, Default)]
pub struct U64Key;

impl KeyQuery for U64Key {
    type Key = u64;

    type Query = u64;

    #[inline]
    fn distance<M: Metric<u64>>(&self, metric: &M, key: &u64, query: &u64) -> (d: Dist) {
        metric.distance(key, query)
    }

    #[inline]
    fn distance_static<M: Metric<u64>>(metric: &M, key: &u64, query: &u64) -> (d: Dist) {
        metric.distance(key, query)
    }

    #[inline]
    fn to_key(&self, query: &u64) -> (key: u64) {
        *query
    }

    #[inline]
    fn to_key_static(query: &u64) -> (key: u64) {
        *query
    }

    #[inline]
    fn to_query_static(key: &u64) -> (query: &u64) {
        key
    }

    #[inline]
    fn eq(&self, key: &u64, query: &u64) -> (same: bool) {
        *key == *query
    }

    #[inline]
    fn eq_static(key: &u64, query: &u64) -> (same: bool) {
        *key == *query
    }
}

/// Compares two string slices with `==` of std, which holds when they have
/// the same characters.
#[verifier::external_body]
fn str_equal(a: &str, b: &str) -> (same: bool)
    ensures
        same == (a@ == b@),
{
    a == b
}

/// Keys are `String`, queries are `str`.
#[derive(Debug, Clone, Copy, Default)]
pub struct StringKey;

impl KeyQuery for StringKey {
    type Key = String;

    type Query = str;

    #[inline]
    fn distance<M: Metric<str>>(&self, metric: &M, key: &String, query: &str) -> (d: Dist) {
        metric.distance(key.as_str(), query)
    }

    #[inline]
    fn distance_static<M: Metric<str>>(metric: &M, key: &String, query: &str) -> (d: Dist) {
        metric.distance(key.as_str(), query)
    }

    #[inline]
    fn to_key(&self, query: &str) -> (key: String) {
        query.to_owned()
    }

    #[inline]
    fn to_key_static(query: &str) -> (key: String) {
        query.to_owned()
    }

    #[inline]
    fn to_query_static(key: &String) -> (query: &str) {
        key.as_str()
    }

    #[inline]
    fn eq(&self, key: &String, query: &str) -> (same: bool) {
        str_equal(key.as_str(), query)
    }

    #[inline]
    fn eq_static(key: &String, query: &str) -> (same: bool) {
        str_equal(key.as_str(), query)
    }
}

} // verus!
