//! The cache of generated node contents: the least recently used entry leaves first.
use std::num::NonZeroUsize;
use std::sync::Arc;

use lru::LruCache;
use vstd::prelude::*;

use crate::node::NodeKey;
use crate::params::Star;

verus! {

/// A node key as the cache holds it.
pub type CacheKey = (u8, u64, u64, u64);

/// The hasher that caches of the `lru` crate use.
#[verifier::external_type_specification]
#[verifier::external_body]
pub struct ExDefaultHasher(lru::DefaultHasher);

/// The cache of the `lru` crate.
#[verifier::external_type_specification]
#[verifier::external_body]
#[verifier::reject_recursive_types(K)]
#[verifier::reject_recursive_types(V)]
#[verifier::reject_recursive_types(S)]
pub struct ExLruCache<K, V, S>(lru::LruCache<K, V, S>);

/// What a cache holds, the most recently used entry first.
pub uninterp spec fn cache_entries(cache: LruCache<(u8, u64, u64, u64), Arc<Vec<Star>>>) -> Seq<((u8, u64, u64, u64), Seq<Star>)>;

/// How many entries a cache can hold.
pub uninterp spec fn cache_limit(cache: LruCache<(u8, u64, u64, u64), Arc<Vec<Star>>>) -> nat;

/// The entry at `i` has the key `key`.
pub open spec fn is_entry_of(entries: Seq<(CacheKey, Seq<Star>)>, key: CacheKey, i: int) -> bool {
    0 <= i < entries.len() && entries[i].0 == key
}

/// There is an entry with the key `key`.
pub open spec fn has_entry(entries: Seq<(CacheKey, Seq<Star>)>, key: CacheKey) -> bool {
    exists|i: int| is_entry_of(entries, key, i)
}

/// Where the entry with the key `key` is.
pub open spec fn entry_index(entries: Seq<(CacheKey, Seq<Star>)>, key: CacheKey) -> int {
    choose|i: int| is_entry_of(entries, key, i)
}

/// The entries after the one with the key `key` was used.
pub open spec fn after_use(entries: Seq<(CacheKey, Seq<Star>)>, key: CacheKey) -> Seq<(CacheKey, Seq<Star>)> {
    let i = entry_index(entries, key);
    seq![entries[i]] + entries.remove(i)
}

/// The entries after `stars` were put in under a key that had no entry: they come first, and
/// where the cache was full the last entry is gone.
pub open spec fn after_insert(
    entries: Seq<(CacheKey, Seq<Star>)>,
    limit: nat,
    key: CacheKey,
    stars: Seq<Star>,
) -> Seq<(CacheKey, Seq<Star>)> {
    seq![(key, stars)] + if limit > 0 && entries.len() == limit {
        entries.drop_last()
    } else {
        entries
    }
}

/// `LruCache::new`: an empty cache with room for `capacity` entries, which it allocates.
#[verifier::external_body]
pub(crate) fn new_cache(capacity: usize) -> (r: LruCache<(u8, u64, u64, u64), Arc<Vec<Star>>>)
    requires
        0 < capacity <= usize::MAX / 256,
    ensures
        cache_entries(r) == Seq::<((u8, u64, u64, u64), Seq<Star>)>::empty(),
        cache_limit(r) == capacity,
{
    LruCache::new(NonZeroUsize::new(capacity).unwrap())
}

/// `LruCache::get`: the value under a key, if there is one, which becomes the most recently
/// used entry.
#[verifier::external_body]
pub(crate) fn get_cached(
    cache: &mut LruCache<(u8, u64, u64, u64), Arc<Vec<Star>>>,
    key: (u8, u64, u64, u64),
) -> (r: Option<Arc<Vec<Star>>>)
    ensures
        r is Some <==> has_entry(cache_entries(*old(cache)), key),
        r matches Some(stars) ==> stars@ == cache_entries(*old(cache))[entry_index(
            cache_entries(*old(cache)),
            key,
        )].1,
        cache_entries(*final(cache)) == if r is Some {
            after_use(cache_entries(*old(cache)), key)
        } else {
            cache_entries(*old(cache))
        },
        cache_limit(*final(cache)) == cache_limit(*old(cache)),
{
    cache.get(&key).cloned()
}

/// `LruCache::put`, of a key that has no entry: it becomes the most recently used one, in the
/// place of the least recently used one where the cache is full.
#[verifier::external_body]
pub(crate) fn put_cached(
    cache: &mut LruCache<(u8, u64, u64, u64), Arc<Vec<Star>>>,
    key: (u8, u64, u64, u64),
    stars: Arc<Vec<Star>>,
)
    requires
        !has_entry(cache_entries(*old(cache)), key),
    ensures
        cache_entries(*final(cache)) == after_insert(
            cache_entries(*old(cache)),
            cache_limit(*old(cache)),
            key,
            stars@,
        ),
        cache_limit(*final(cache)) == cache_limit(*old(cache)),
{
    cache.put(key, stars);
}

/// `Arc::clone`: another handle to the same stars.
#[verifier::external_body]
pub(crate) fn share(stars: &Arc<Vec<Star>>) -> (r: Arc<Vec<Star>>)
    ensures
        r@ == stars@,
{
    stars.clone()
}

/// The generated stars of recently used nodes.
pub struct NodeCache {
    lru: LruCache<(u8, u64, u64, u64), Arc<Vec<Star>>>,
}

impl NodeCache {
    /// What the cache holds, the most recently used entry first.
    pub closed spec fn entries(self) -> Seq<(CacheKey, Seq<Star>)> {
        cache_entries(self.lru)
    }

    /// How many nodes the cache can hold.
    pub closed spec fn limit(self) -> nat {
        cache_limit(self.lru)
    }

    /// An empty cache with room for `capacity` nodes.
    pub fn new(capacity: usize) -> (r: NodeCache)
        requires
            0 < capacity <= usize::MAX / 256,
        ensures
            r.entries() == Seq::<(CacheKey, Seq<Star>)>::empty(),
            r.limit() == capacity,
    {
        NodeCache { lru: new_cache(capacity) }
    }

    /// The cached stars of a node, if there are any, which makes them the most recently used.
    pub fn get(&mut self, key: NodeKey) -> (r: Option<Arc<Vec<Star>>>)
        ensures
            r is Some <==> has_entry(old(self).entries(), key_of(key)),
            r matches Some(stars) ==> stars@ == old(self).entries()[entry_index(
                old(self).entries(),
                key_of(key),
            )].1,
            final(self).entries() == if r is Some {
                after_use(old(self).entries(), key_of(key))
            } else {
                old(self).entries()
            },
            final(self).limit() == old(self).limit(),
    {
        get_cached(&mut self.lru, (key.depth, key.ix, key.iy, key.iz))
    }

    /// Caches the stars of a node that has no entry, and gives another handle to them.
    pub fn insert(&mut self, key: NodeKey, stars: Vec<Star>) -> (r: Arc<Vec<Star>>)
        requires
            !has_entry(old(self).entries(), key_of(key)),
        ensures
            r@ == stars@,
            final(self).entries() == after_insert(
                old(self).entries(),
                old(self).limit(),
                key_of(key),
                stars@,
            ),
            final(self).limit() == old(self).limit(),
    {
        let kept: Arc<Vec<Star>> = Arc::new(stars);
        let handle: Arc<Vec<Star>> = share(&kept);
        put_cached(&mut self.lru, (key.depth, key.ix, key.iy, key.iz), kept);
        handle
    }
}

/// The key under which a node's stars are cached.
pub open spec fn key_of(key: NodeKey) -> CacheKey {
    (key.depth, key.ix, key.iy, key.iz)
}

/// The stars that a look-up gives for `key`: the cached ones, else those that are `fresh`.
pub open spec fn looked_up(entries: Seq<(CacheKey, Seq<Star>)>, key: NodeKey, fresh: Seq<Star>) -> Seq<Star> {
    if has_entry(entries, key_of(key)) {
        entries[entry_index(entries, key_of(key))].1
    } else {
        fresh
    }
}

/// The entries after a look-up of `key`.
pub open spec fn after_look_up(
    entries: Seq<(CacheKey, Seq<Star>)>,
    limit: nat,
    key: NodeKey,
    fresh: Seq<Star>,
) -> Seq<(CacheKey, Seq<Star>)> {
    if has_entry(entries, key_of(key)) {
        after_use(entries, key_of(key))
    } else {
        after_insert(entries, limit, key_of(key), fresh)
    }
}

} // verus!
