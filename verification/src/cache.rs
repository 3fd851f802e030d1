//! The cache of signatures, by hash.
//!
//! The cache holds at most as many signatures as it was made for, and none for
//! longer than its time to live after it was last used. The order of its entries
//! is the order in which they were last used, the least recently used one first:
//! that one leaves when a new signature needs room.

use crate::decoder::{EventSignature, EventSignatureView};
use lru_time_cache::LruCache;
use std::sync::Arc;
use vstd::prelude::*;

verus! {

/// The most entries that a cache can be made for.
pub const MAX_CAPACITY: usize = 1_048_576;

/// The number of entries that a decoder makes its own cache for.
pub const DEFAULT_CAPACITY: usize = 1_024;

/// The time for which an entry stays in the cache after it was last used, in seconds.
pub const TIME_TO_LIVE_SECS: u64 = 86_400;

/// One entry of the cache.
pub struct CacheEntry {
    pub hash: Seq<char>,
    pub signature: EventSignatureView,
}

/// The cache of `lru_time_cache`, of which nothing is known but what the functions
/// below say.
#[verifier::external_type_specification]
#[verifier::external_body]
#[verifier::reject_recursive_types(Key)]
#[verifier::reject_recursive_types(Value)]
pub struct ExLruCache<Key, Value>(LruCache<Key, Value>);

/// The entries that the cache holds, expired ones too as long as no call has
/// removed them, the least recently used one first.
pub uninterp spec fn cached(cache: LruCache<String, Arc<EventSignature>>) -> Seq<CacheEntry>;

/// The number of entries that the cache was made for.
pub uninterp spec fn cache_limit(cache: LruCache<String, Arc<EventSignature>>) -> nat;

/// The time to live that the cache was made with, in seconds.
pub uninterp spec fn cache_time_to_live(cache: LruCache<String, Arc<EventSignature>>) -> nat;

/// Whether one of `entries` has the hash `hash`.
pub open spec fn has_hash(entries: Seq<CacheEntry>, hash: Seq<char>) -> bool {
    exists|i: int| 0 <= i < entries.len() && (#[trigger] entries[i]).hash == hash
}

/// The index of an entry of `entries` that has the hash `hash`.
pub open spec fn hash_position(entries: Seq<CacheEntry>, hash: Seq<char>) -> int {
    choose|i: int| 0 <= i < entries.len() && (#[trigger] entries[i]).hash == hash
}

/// Whether no two of `entries` have the same hash.
pub open spec fn distinct_hashes(entries: Seq<CacheEntry>) -> bool {
    forall|i: int, j: int|
        0 <= i < j < entries.len() ==> (#[trigger] entries[i]).hash != (#[trigger] entries[j]).hash
}

/// Whether `live` is what is left of `all` once the entries that have expired are
/// gone. Those are some of the least recently used ones.
pub open spec fn is_live_part(live: Seq<CacheEntry>, all: Seq<CacheEntry>) -> bool {
    exists|expired: int| 0 <= expired <= all.len() && live == all.skip(expired)
}

/// The entries after a lookup of `hash`: the entry that was found is now the most
/// recently used one.
pub open spec fn after_lookup(live: Seq<CacheEntry>, hash: Seq<char>) -> Seq<CacheEntry> {
    if has_hash(live, hash) {
        live.remove(hash_position(live, hash)).push(live[hash_position(live, hash)])
    } else {
        live
    }
}

/// The entries after `entry` was put in: it is the most recently used one. It takes
/// the place of the entry with its hash, or else, in a full cache, the least
/// recently used entries leave until there is room for one.
pub open spec fn after_insert(live: Seq<CacheEntry>, entry: CacheEntry, limit: nat) -> Seq<CacheEntry> {
    if has_hash(live, entry.hash) {
        live.remove(hash_position(live, entry.hash)).push(entry)
    } else if live.len() >= limit {
        live.skip(live.len() - limit + 1).push(entry)
    } else {
        live.push(entry)
    }
}

/// Whether `out` is the signature that `live` holds under `hash`, if it holds one.
pub open spec fn is_found(out: Option<Arc<EventSignature>>, live: Seq<CacheEntry>, hash: Seq<char>) -> bool {
    match out {
        Some(signature) => has_hash(live, hash) && signature@ == live[hash_position(
            live,
            hash,
        )].signature,
        None => !has_hash(live, hash),
    }
}

/// Calls `LruCache::with_expiry_duration_and_capacity`. Claimed: the cache is empty
/// and keeps the capacity and the time to live that it was made with.
#[verifier::external_body]
fn cache_new(time_to_live_secs: u64, capacity: usize) -> (out: LruCache<String, Arc<EventSignature>>)
    requires
        capacity <= MAX_CAPACITY,
    ensures
        cached(out) == Seq::<CacheEntry>::empty(),
        cache_limit(out) == capacity,
        cache_time_to_live(out) == time_to_live_secs,
{
    LruCache::with_expiry_duration_and_capacity(
        std::time::Duration::from_secs(time_to_live_secs),
        capacity,
    )
}

/// Calls `LruCache::get`. Claimed: it first drops the entries that have expired,
/// which are some of the least recently used ones; then it gives the signature
/// under `hash`, if there is one, and makes that entry the most recently used one.
#[verifier::external_body]
fn cache_get(cache: &mut LruCache<String, Arc<EventSignature>>, hash: &str) -> (out: Option<
    Arc<EventSignature>,
>)
    requires
        distinct_hashes(cached(*old(cache))),
        cache_time_to_live(*old(cache)) <= TIME_TO_LIVE_SECS,
    ensures
        cache_limit(*final(cache)) == cache_limit(*old(cache)),
        cache_time_to_live(*final(cache)) == cache_time_to_live(*old(cache)),
        exists|live: Seq<CacheEntry>|
            #![trigger is_live_part(live, cached(*old(cache)))]
            is_live_part(live, cached(*old(cache))) && cached(*final(cache)) == after_lookup(
                live,
                hash@,
            ) && is_found(out, live, hash@),
{
    cache.get(hash).cloned()
}

/// Calls `LruCache::insert`. Claimed: it first drops the entries that have expired,
/// which are some of the least recently used ones; then it puts the signature under
/// `hash` as the most recently used entry, in place of the one that was there, or
/// else after dropping from a full cache the least recently used entries until there
/// is room for one. It gives back the signature that was replaced.
#[verifier::external_body]
fn cache_insert(
    cache: &mut LruCache<String, Arc<EventSignature>>,
    hash: String,
    signature: Arc<EventSignature>,
) -> (out: Option<Arc<EventSignature>>)
    requires
        distinct_hashes(cached(*old(cache))),
        cache_limit(*old(cache)) >= 1,
        cache_time_to_live(*old(cache)) <= TIME_TO_LIVE_SECS,
    ensures
        cache_limit(*final(cache)) == cache_limit(*old(cache)),
        cache_time_to_live(*final(cache)) == cache_time_to_live(*old(cache)),
        exists|live: Seq<CacheEntry>|
            #![trigger is_live_part(live, cached(*old(cache)))]
            is_live_part(live, cached(*old(cache))) && cached(*final(cache)) == after_insert(
                live,
                CacheEntry { hash: hash@, signature: signature@ },
                cache_limit(*old(cache)),
            ) && is_found(out, live, hash@),
{
    cache.insert(hash, signature)
}

/// Calls `LruCache::iter` and drops the iterator unused. Claimed: making the
/// iterator drops the entries that have expired, which are some of the least
/// recently used ones, and nothing else changes.
#[verifier::external_body]
fn cache_sweep(cache: &mut LruCache<String, Arc<EventSignature>>)
    requires
        cache_time_to_live(*old(cache)) <= TIME_TO_LIVE_SECS,
    ensures
        cache_limit(*final(cache)) == cache_limit(*old(cache)),
        cache_time_to_live(*final(cache)) == cache_time_to_live(*old(cache)),
        is_live_part(cached(*final(cache)), cached(*old(cache))),
{
    let _ = cache.iter();
}

/// What is left of distinct entries once some have expired is distinct, and no longer.
proof fn lemma_live_part(live: Seq<CacheEntry>, all: Seq<CacheEntry>)
    requires
        is_live_part(live, all),
        distinct_hashes(all),
    ensures
        distinct_hashes(live),
        live.len() <= all.len(),
        forall|i: int| 0 <= i < live.len() ==> all.contains(#[trigger] live[i]),
{
    let expired = choose|expired: int| 0 <= expired <= all.len() && live == all.skip(expired);
    assert forall|i: int, j: int| 0 <= i < j < live.len() implies (#[trigger] live[i]).hash != (
    #[trigger] live[j]).hash by {
        assert(live[i] == all[i + expired]);
        assert(live[j] == all[j + expired]);
    }
    assert forall|i: int| 0 <= i < live.len() implies all.contains(#[trigger] live[i]) by {
        assert(live[i] == all[i + expired]);
    }
}

/// A lookup keeps the entries, and keeps them distinct.
proof fn lemma_after_lookup(live: Seq<CacheEntry>, hash: Seq<char>)
    requires
        distinct_hashes(live),
    ensures
        distinct_hashes(after_lookup(live, hash)),
        after_lookup(live, hash).len() == live.len(),
        forall|i: int|
            0 <= i < live.len() ==> live.contains(#[trigger] after_lookup(live, hash)[i]),
        has_hash(live, hash) ==> after_lookup(live, hash).last() == live[hash_position(live, hash)],
{
    if has_hash(live, hash) {
        let at = hash_position(live, hash);
        let after = after_lookup(live, hash);
        assert forall|i: int| 0 <= i < after.len() implies live.contains(#[trigger] after[i]) by {
            if i < at {
                assert(after[i] == live[i]);
            } else if i < after.len() - 1 {
                assert(after[i] == live[i + 1]);
            } else {
                assert(after[i] == live[at]);
            }
        }
        assert forall|i: int, j: int| 0 <= i < j < after.len() implies (#[trigger] after[i]).hash != (
        #[trigger] after[j]).hash by {
            let from_i = if i < at {
                i
            } else {
                i + 1
            };
            let from_j = if j == after.len() - 1 {
                at
            } else if j < at {
                j
            } else {
                j + 1
            };
            assert(after[i] == live[from_i]);
            assert(after[j] == live[from_j]);
            if from_i < from_j {
                assert(live[from_i].hash != live[from_j].hash);
            } else {
                assert(live[from_j].hash != live[from_i].hash);
            }
        }
    } else {
        assert forall|i: int| 0 <= i < live.len() implies live.contains(
            #[trigger] after_lookup(live, hash)[i],
        ) by {}
    }
}

/// Putting an entry in keeps the entries distinct and within the limit; the entry is
/// the last, and every other one was there before.
proof fn lemma_after_insert(live: Seq<CacheEntry>, entry: CacheEntry, limit: nat)
    requires
        distinct_hashes(live),
        limit >= 1,
        live.len() <= limit,
    ensures
        distinct_hashes(after_insert(live, entry, limit)),
        1 <= after_insert(live, entry, limit).len() <= limit,
        after_insert(live, entry, limit).last() == entry,
        forall|i: int|
            0 <= i < after_insert(live, entry, limit).len() - 1 ==> live.contains(
                #[trigger] after_insert(live, entry, limit)[i],
            ) && after_insert(live, entry, limit)[i].hash != entry.hash,
{
    let after = after_insert(live, entry, limit);
    if has_hash(live, entry.hash) {
        let at = hash_position(live, entry.hash);
        assert forall|i: int| 0 <= i < after.len() - 1 implies live.contains(#[trigger] after[i])
            && after[i].hash != entry.hash by {
            let from = if i < at {
                i
            } else {
                i + 1
            };
            assert(after[i] == live[from]);
            if from < at {
                assert(live[from].hash != live[at].hash);
            } else {
                assert(live[at].hash != live[from].hash);
            }
        }
        assert forall|i: int, j: int| 0 <= i < j < after.len() implies (#[trigger] after[i]).hash != (
        #[trigger] after[j]).hash by {
            let from_i = if i < at {
                i
            } else {
                i + 1
            };
            assert(after[i] == live[from_i]);
            if j < after.len() - 1 {
                let from_j = if j < at {
                    j
                } else {
                    j + 1
                };
                assert(after[j] == live[from_j]);
                assert(live[from_i].hash != live[from_j].hash);
            } else {
                if from_i < at {
                    assert(live[from_i].hash != live[at].hash);
                } else {
                    assert(live[at].hash != live[from_i].hash);
                }
            }
        }
    } else {
        let dropped: int = if live.len() >= limit {
            live.len() - limit + 1
        } else {
            0
        };
        assert(after =~= live.skip(dropped).push(entry));
        assert forall|i: int| 0 <= i < after.len() - 1 implies live.contains(#[trigger] after[i])
            && after[i].hash != entry.hash by {
            assert(after[i] == live[i + dropped]);
        }
        assert forall|i: int, j: int| 0 <= i < j < after.len() implies (#[trigger] after[i]).hash != (
        #[trigger] after[j]).hash by {
            assert(after[i] == live[i + dropped]);
            if j < after.len() - 1 {
                assert(after[j] == live[j + dropped]);
            }
        }
    }
}

/// A cache of signatures by hash, with a limit on the number of its entries and on
/// the time for which it keeps one that is not used.
pub struct EventSignatureCache {
    store: LruCache<String, Arc<EventSignature>>,
}

impl EventSignatureCache {
    /// The entries of the cache, the least recently used one first.
    pub closed spec fn entries(&self) -> Seq<CacheEntry> {
        cached(self.store)
    }

    /// The number of entries that the cache was made for.
    pub closed spec fn capacity(&self) -> nat {
        cache_limit(self.store)
    }

    /// The time for which an entry stays after it was last used, in seconds.
    pub closed spec fn time_to_live(&self) -> nat {
        cache_time_to_live(self.store)
    }

    /// What holds of every cache: it has room for at least one entry, holds no more
    /// entries than it has room for, none of them twice, and keeps none for longer
    /// than a day.
    pub open spec fn well_formed(&self) -> bool {
        &&& 1 <= self.capacity() <= MAX_CAPACITY
        &&& self.time_to_live() <= TIME_TO_LIVE_SECS
        &&& self.entries().len() <= self.capacity()
        &&& distinct_hashes(self.entries())
    }

    /// An empty cache for `capacity` entries that keeps each for a day, if
    /// `capacity` is at least 1 and at most `MAX_CAPACITY`.
    pub fn new(capacity: usize) -> (out: Option<EventSignatureCache>)
        ensures
            out is Some <==> 1 <= capacity <= MAX_CAPACITY,
            out matches Some(cache) ==> cache.well_formed() && cache.entries().len() == 0
                && cache.capacity() == capacity && cache.time_to_live() == TIME_TO_LIVE_SECS,
    {
        EventSignatureCache::with_time_to_live(capacity, TIME_TO_LIVE_SECS)
    }

    /// An empty cache for `capacity` entries that keeps each for `seconds` after it
    /// was last used, if `capacity` is at least 1 and at most `MAX_CAPACITY` and
    /// `seconds` is at most a day.
    pub fn with_time_to_live(capacity: usize, seconds: u64) -> (out: Option<EventSignatureCache>)
        ensures
            out is Some <==> 1 <= capacity <= MAX_CAPACITY && seconds <= TIME_TO_LIVE_SECS,
            out matches Some(cache) ==> cache.well_formed() && cache.entries().len() == 0
                && cache.capacity() == capacity && cache.time_to_live() == seconds,
    {
        if capacity < 1 || capacity > MAX_CAPACITY || seconds > TIME_TO_LIVE_SECS {
            None
        } else {
            Some(EventSignatureCache { store: cache_new(seconds, capacity) })
        }
    }

    /// An empty cache for `DEFAULT_CAPACITY` entries that keeps each for a day.
    pub fn with_default_capacity() -> (out: EventSignatureCache)
        ensures
            out.well_formed(),
            out.entries().len() == 0,
            out.capacity() == DEFAULT_CAPACITY,
            out.time_to_live() == TIME_TO_LIVE_SECS,
    {
        EventSignatureCache { store: cache_new(TIME_TO_LIVE_SECS, DEFAULT_CAPACITY) }
    }

    /// Looks up the signature with the hash `hash`. The entries that have expired
    /// leave the cache; the entry that was found becomes the most recently used one.
    pub fn lookup(&mut self, hash: &str) -> (out: Option<Arc<EventSignature>>)
        requires
            old(self).well_formed(),
        ensures
            final(self).well_formed(),
            final(self).capacity() == old(self).capacity(),
            final(self).time_to_live() == old(self).time_to_live(),
            exists|live: Seq<CacheEntry>|
                #![trigger is_live_part(live, old(self).entries())]
                is_live_part(live, old(self).entries()) && final(self).entries() == after_lookup(
                    live,
                    hash@,
                ) && is_found(out, live, hash@),
            forall|i: int|
                0 <= i < final(self).entries().len() ==> old(self).entries().contains(
                    #[trigger] final(self).entries()[i],
                ),
            match out {
                Some(signature) => final(self).entries().len() >= 1 && final(self).entries().last()
                    == (CacheEntry { hash: hash@, signature: signature@ }),
                None => !has_hash(final(self).entries(), hash@),
            },
    {
        let out = cache_get(&mut self.store, hash);
        proof {
            let before = old(self).entries();
            let live = choose|live: Seq<CacheEntry>|
                #![trigger is_live_part(live, before)]
                is_live_part(live, before) && self.entries() == after_lookup(live, hash@)
                    && is_found(out, live, hash@);
            lemma_live_part(live, before);
            lemma_after_lookup(live, hash@);
            assert forall|i: int| 0 <= i < self.entries().len() implies before.contains(
                #[trigger] self.entries()[i],
            ) by {
                let entry = self.entries()[i];
                assert(live.contains(entry));
                let at = choose|at: int| 0 <= at < live.len() && live[at] == entry;
                assert(before.contains(live[at]));
            }
        }
        out
    }

    /// Puts `signature` under `hash`, as the most recently used entry. The entries
    /// that have expired leave the cache, and so does, where there is no room, the
    /// least recently used one. Gives back the signature that `hash` had before.
    pub fn insert(&mut self, hash: String, signature: Arc<EventSignature>) -> (out: Option<
        Arc<EventSignature>,
    >)
        requires
            old(self).well_formed(),
        ensures
            final(self).well_formed(),
            final(self).capacity() == old(self).capacity(),
            final(self).time_to_live() == old(self).time_to_live(),
            exists|live: Seq<CacheEntry>|
                #![trigger is_live_part(live, old(self).entries())]
                is_live_part(live, old(self).entries()) && final(self).entries() == after_insert(
                    live,
                    CacheEntry { hash: hash@, signature: signature@ },
                    old(self).capacity(),
                ) && is_found(out, live, hash@),
            final(self).entries().len() >= 1,
            final(self).entries().last() == (CacheEntry { hash: hash@, signature: signature@ }),
            forall|i: int|
                0 <= i < final(self).entries().len() - 1 ==> old(self).entries().contains(
                    #[trigger] final(self).entries()[i],
                ),
    {
        let ghost entry = CacheEntry { hash: hash@, signature: signature@ };
        let out = cache_insert(&mut self.store, hash, signature);
        proof {
            let before = old(self).entries();
            let limit = old(self).capacity();
            let live = choose|live: Seq<CacheEntry>|
                #![trigger is_live_part(live, before)]
                is_live_part(live, before) && self.entries() == after_insert(live, entry, limit)
                    && is_found(out, live, entry.hash);
            lemma_live_part(live, before);
            lemma_after_insert(live, entry, limit);
            assert forall|i: int| 0 <= i < self.entries().len() - 1 implies before.contains(
                #[trigger] self.entries()[i],
            ) by {
                let kept = self.entries()[i];
                assert(live.contains(kept));
                let at = choose|at: int| 0 <= at < live.len() && live[at] == kept;
                assert(before.contains(live[at]));
            }
        }
        out
    }

    /// Removes the entries that have expired. They are some of the least recently
    /// used ones; the others stay as they are.
    pub fn sweep(&mut self)
        requires
            old(self).well_formed(),
        ensures
            final(self).well_formed(),
            final(self).capacity() == old(self).capacity(),
            final(self).time_to_live() == old(self).time_to_live(),
            is_live_part(final(self).entries(), old(self).entries()),
    {
        cache_sweep(&mut self.store);
        proof {
            lemma_live_part(self.entries(), old(self).entries());
        }
    }
}

} // verus!
