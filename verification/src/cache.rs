//! The TTL snapshot cache: a small cache capability set that the
//! coordinator consumes, and its production instance backed by moka's
//! sync cache with a uniform 24-hour time-to-live.

use vstd::prelude::*;
use vstd::string::StringExecFns;

use moka::sync::Cache as MokaSyncCache;

use crate::robots_data::RobotsData;

verus! {

/// Why a cache operation failed.
#[derive(Debug)]
pub enum CacheError {
    Unavailable,
    WriteFailed(String),
}

/// The description of a cache error.
pub open spec fn spec_cache_message(e: CacheError) -> Seq<char> {
    match e {
        CacheError::Unavailable => "Cache backend unavailable"@,
        CacheError::WriteFailed(m) => "Cache write failed: "@ + m@,
    }
}

impl CacheError {
    /// Renders the error as text.
    pub fn message(&self) -> (r: String)
        ensures
            r@ == spec_cache_message(*self),
    {
        match self {
            CacheError::Unavailable => String::from_str("Cache backend unavailable"),
            CacheError::WriteFailed(m0) => {
                let mut m = String::from_str("Cache write failed: ");
                m.append(m0.as_str());
                m
            },
        }
    }
}

pub type CacheResult<T> = Result<T, CacheError>;

/// The capability set the coordinator needs of a cache — get, set,
/// delete — specified against an abstract map of the stored entries.
/// A `get` may miss even for a stored key, since entries may be evicted
/// at any time after their TTL, but a hit returns exactly the value most
/// recently stored under the key.
pub trait Cache<K: View, V>: Sized {
    /// The entries stored, as an abstract map.
    spec fn contents(&self) -> Map<K::V, V>;

    /// Reads the value stored under `key`, if it is still held.
    fn get(&self, key: &K) -> (r: CacheResult<Option<V>>)
        ensures
            match r {
                Ok(Some(v)) => self.contents().contains_key(key@) && v == self.contents()[key@],
                _ => true,
            },
    ;

    /// Stores `value` under `key`, replacing what the key held.
    fn set(&mut self, key: &K, value: &V) -> (r: CacheResult<()>)
        ensures
            r is Ok ==> final(self).contents() == old(self).contents().insert(key@, *value),
            r is Err ==> final(self).contents() == old(self).contents(),
    ;

    /// Removes the entry under `key`; the result says whether a live
    /// entry was removed.
    fn delete(&mut self, key: &K) -> (r: CacheResult<bool>)
        ensures
            r is Ok ==> final(self).contents() == old(self).contents().remove(key@),
            r is Err ==> final(self).contents() == old(self).contents(),
            r == Ok::<bool, CacheError>(true) ==> old(self).contents().contains_key(key@),
    ;
}

#[verifier::external_type_specification]
#[verifier::external_body]
#[verifier::reject_recursive_types(K)]
#[verifier::reject_recursive_types(V)]
#[verifier::reject_recursive_types(S)]
pub struct ExMokaSyncCache<K, V, S>(MokaSyncCache<K, V, S>);

/// The empty cache contents.
pub open spec fn empty_contents() -> Map<Seq<char>, RobotsData> {
    Map::empty()
}

/// What a moka cache holds: the entries inserted and not yet removed or
/// evicted, keyed by the key's characters.
pub uninterp spec fn moka_contents(c: MokaSyncCache<String, RobotsData>) -> Map<
    Seq<char>,
    RobotsData,
>;

/// Relies on moka::sync::CacheBuilder with time_to_live: a fresh cache
/// holds nothing; every entry lives at most `ttl_secs` seconds. The
/// builder panics for a time-to-live beyond 1000 years, so those values
/// are excluded.
#[verifier::external_body]
fn moka_new(ttl_secs: u64) -> (c: MokaSyncCache<String, RobotsData>)
    requires
        ttl_secs <= 31_536_000_000,
    ensures
        moka_contents(c) == empty_contents(),
{
    MokaSyncCache::builder().time_to_live(std::time::Duration::from_secs(ttl_secs)).build()
}

/// Relies on moka::sync::Cache::get: a hit hands back a clone of the
/// value last inserted under the key; an expired or evicted entry misses.
#[verifier::external_body]
fn moka_get(c: &MokaSyncCache<String, RobotsData>, key: &String) -> (r: Option<RobotsData>)
    ensures
        match r {
            Some(v) => moka_contents(*c).contains_key(key@) && v == moka_contents(*c)[key@],
            None => true,
        },
{
    c.get(key)
}

/// Relies on moka::sync::Cache::insert: the entry replaces whatever the
/// key held.
#[verifier::external_body]
fn moka_insert(c: &mut MokaSyncCache<String, RobotsData>, key: &String, value: &RobotsData)
    ensures
        moka_contents(*final(c)) == moka_contents(*old(c)).insert(key@, *value),
{
    c.insert(key.clone(), value.clone());
}

/// Relies on moka::sync::Cache::remove: the key holds nothing after; the
/// result says whether a live entry was removed.
#[verifier::external_body]
fn moka_remove(c: &mut MokaSyncCache<String, RobotsData>, key: &String) -> (r: bool)
    ensures
        moka_contents(*final(c)) == moka_contents(*old(c)).remove(key@),
        r ==> moka_contents(*old(c)).contains_key(key@),
{
    c.remove(key).is_some()
}

/// The uniform snapshot TTL: 24 hours.
pub const CACHE_TTL_SECONDS: u64 = 24 * 60 * 60;

/// The production cache: moka's sync cache under the uniform TTL.
pub struct MokaCache {
    cache: MokaSyncCache<String, RobotsData>,
}

impl MokaCache {
    /// A fresh, empty cache with the uniform 24-hour TTL.
    pub fn new() -> (r: MokaCache)
        ensures
            r.contents() == empty_contents(),
    {
        MokaCache { cache: moka_new(CACHE_TTL_SECONDS) }
    }
}

impl Cache<String, RobotsData> for MokaCache {
    closed spec fn contents(&self) -> Map<Seq<char>, RobotsData> {
        moka_contents(self.cache)
    }

    /// The production cache never fails a read.
    fn get(&self, key: &String) -> (r: CacheResult<Option<RobotsData>>)
        ensures
            r is Ok,
    {
        Ok(moka_get(&self.cache, key))
    }

    /// The production cache never fails a write.
    fn set(&mut self, key: &String, value: &RobotsData) -> (r: CacheResult<()>)
        ensures
            r is Ok,
    {
        moka_insert(&mut self.cache, key, value);
        Ok(())
    }

    /// The production cache never fails a removal.
    fn delete(&mut self, key: &String) -> (r: CacheResult<bool>)
        ensures
            r is Ok,
    {
        Ok(moka_remove(&mut self.cache, key))
    }
}

} // verus!
