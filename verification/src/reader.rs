//! The cache of parsed definition files: each file is kept once, under its
//! path, for as long as the run lasts.

use crate::target::set::TargetSet;
use dashmap::DashMap;
use std::sync::Arc;
use vstd::prelude::*;
use vstd::string::*;

verus! {

/// The map behind the cache: from the path of a definition file to what it
/// declares.
pub type Cache = DashMap<String, Arc<TargetSet>>;

/// What a cache holds: for each path that was kept, the set kept under it.
/// This library changes a cache through `&mut` only, so what a cache holds
/// goes with its value.
pub uninterp spec fn cache_entries(cache: Cache) -> Map<Seq<char>, Arc<TargetSet>>;

/// Calls `DashMap::new`. Trusted: the new map holds nothing.
#[verifier::external_body]
fn cache_new() -> (r: Cache)
    ensures
        cache_entries(r) =~= Map::empty(),
{
    DashMap::new()
}

/// Calls `DashMap::get` and shares the value found. Trusted: the result is
/// the set kept under `path`, and `None` where the map has no such key.
#[verifier::external_body]
fn cache_get(cache: &Cache, path: &String) -> (r: Option<Arc<TargetSet>>)
    ensures
        r is Some == cache_entries(*cache).contains_key(path@),
        r matches Some(set) ==> set == cache_entries(*cache)[path@],
{
    cache.get(path).map(|entry| Arc::clone(entry.value()))
}

/// Calls `DashMap::entry` and `Entry::or_insert` on what it returns, and
/// shares the value that the entry then holds. Trusted: where `path` was a
/// key, the map is unchanged and the result is the set kept under it; where
/// it was none, `set` is kept under it and is the result.
#[verifier::external_body]
fn cache_or_insert(cache: &mut Cache, path: String, set: Arc<TargetSet>) -> (r: Arc<TargetSet>)
    ensures
        cache_entries(*old(cache)).contains_key(path@) ==> r == cache_entries(*old(cache))[path@]
            && cache_entries(*final(cache)) == cache_entries(*old(cache)),
        !cache_entries(*old(cache)).contains_key(path@) ==> r == set && cache_entries(
            *final(cache),
        ) == cache_entries(*old(cache)).insert(path@, set),
{
    Arc::clone(cache.entry(path).or_insert(set).value())
}

/// The definition files read so far. What is kept under a path is never
/// replaced.
pub struct Reader {
    cache: Cache,
}

impl View for Reader {
    type V = Map<Seq<char>, Arc<TargetSet>>;

    closed spec fn view(&self) -> Map<Seq<char>, Arc<TargetSet>> {
        cache_entries(self.cache)
    }
}

impl Reader {
    /// A reader that has read nothing.
    pub fn new() -> (r: Reader)
        ensures
            r@ =~= Map::empty(),
    {
        Reader { cache: cache_new() }
    }

    /// What was kept for the definition file at `path`, if it was read
    /// before.
    pub fn cached(&self, path: &str) -> (r: Option<Arc<TargetSet>>)
        ensures
            r is Some == self@.contains_key(path@),
            r matches Some(set) ==> set == self@[path@],
    {
        let key = String::from_str(path);
        cache_get(&self.cache, &key)
    }

    /// Keeps `set` as what the definition file at `path` declares, unless
    /// something is kept for that path already: then that stays, and `set`
    /// is dropped. Returns what is kept.
    pub fn remember(&mut self, path: &str, set: TargetSet) -> (r: Arc<TargetSet>)
        ensures
            old(self)@.contains_key(path@) ==> *r == *old(self)@[path@] && final(self)@ == old(
                self,
            )@,
            !old(self)@.contains_key(path@) ==> *r == set && final(self)@ == old(self)@.insert(
                path@,
                r,
            ),
            final(self)@.contains_key(path@),
            final(self)@[path@] == r,
    {
        let key = String::from_str(path);
        cache_or_insert(&mut self.cache, key, Arc::new(set))
    }
}

} // verus!
