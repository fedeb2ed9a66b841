//! The result cache: a bounded memo from a rounded (target, tolerance) pair to
//! a result set, which drops the entry that was used least recently when it
//! is full.
//!
//! The entries live in an `lru::LruCache`. What it holds is named by
//! `lru_entries`, most recently used first; `ResultCache` is proved against
//! what the wrappers below state of that name.
use vstd::prelude::*;
use lru::LruCache;
use crate::fixed::hundredths_of;
use crate::fixed::to_hundredths;
use crate::paths::is_result_set;
use crate::paths::path_views;

verus! {

/// A cache for up to this many entries reserves its table when it is made. A
/// larger one starts without a table and lets it grow as entries are stored.
pub const MAX_RESERVED: usize = 1_000_000;

/// Why a cache cannot be made.
#[derive(Clone, Copy, Debug, PartialEq, Eq, Structural)]
pub enum ConfigError {
    /// A cache must hold at least one entry.
    ZeroCapacity,
}

/// `lru::LruCache`, taken as it is: nothing is known of what is inside a
/// value but what `lru_entries` and `lru_limit` name.
#[verifier::external_type_specification]
#[verifier::external_body]
#[verifier::reject_recursive_types(K)]
#[verifier::reject_recursive_types(V)]
#[verifier::reject_recursive_types(S)]
pub struct ExLruCache<K, V, S>(LruCache<K, V, S>);

/// `lru::DefaultHasher`, the hasher of an `LruCache` that is made with `new`.
#[verifier::external_type_specification]
#[verifier::external_body]
pub struct ExDefaultHasher(lru::DefaultHasher);

/// A key of the cache: target and tolerance, each in hundredths.
pub type Key = (i64, i64);

/// An entry of the cache: a key and the result set stored under it.
pub type Entry = (Key, Seq<Seq<i64>>);

/// The entries of an `LruCache`, the most recently used first.
pub uninterp spec fn lru_entries(cache: LruCache<Key, Vec<Vec<i64>>>) -> Seq<Entry>;

/// The number of entries that an `LruCache` was made to hold.
pub uninterp spec fn lru_limit(cache: LruCache<Key, Vec<Vec<i64>>>) -> nat;

/// The result set stored under `key`, if there is one.
pub open spec fn lookup(entries: Seq<Entry>, key: Key) -> Option<Seq<Seq<i64>>>
    decreases entries.len(),
{
    if entries.len() == 0 {
        None
    } else if entries[0].0 == key {
        Some(entries[0].1)
    } else {
        lookup(entries.drop_first(), key)
    }
}

/// The entries but those under `key`, in their order.
pub open spec fn without(entries: Seq<Entry>, key: Key) -> Seq<Entry>
    decreases entries.len(),
{
    if entries.len() == 0 {
        entries
    } else if entries[0].0 == key {
        without(entries.drop_first(), key)
    } else {
        seq![entries[0]] + without(entries.drop_first(), key)
    }
}

/// The entries after a lookup of `key`: an entry that was found has moved to
/// the front; a miss changes nothing.
pub open spec fn after_get(entries: Seq<Entry>, key: Key) -> Seq<Entry> {
    match lookup(entries, key) {
        Some(value) => seq![(key, value)] + without(entries, key),
        None => entries,
    }
}

/// The entries after `value` was stored under `key` in a cache made for
/// `limit` entries. The new entry stands at the front. It replaces the entry
/// that stood under `key`; where there was none and the cache was full, the
/// last entry, which was used least recently, has left.
pub open spec fn after_put(entries: Seq<Entry>, limit: nat, key: Key, value: Seq<Seq<i64>>) -> Seq<
    Entry,
> {
    if lookup(entries, key) is Some {
        seq![(key, value)] + without(entries, key)
    } else if entries.len() >= limit {
        seq![(key, value)] + entries.drop_last()
    } else {
        seq![(key, value)] + entries
    }
}

/// The entries after a cache was resized to `limit` entries: those beyond
/// the new limit, which were used least recently, have left.
pub open spec fn after_resize(entries: Seq<Entry>, limit: nat) -> Seq<Entry> {
    if entries.len() <= limit {
        entries
    } else {
        entries.take(limit as int)
    }
}

/// `LruCache::new`. The contract claims that the new cache holds no entry and
/// that it was made for `capacity` entries. `new` reserves a hash table for
/// that many entries at once, and the hash table panics where the size of
/// such a table cannot be written down at all; it never does for a capacity
/// up to `MAX_RESERVED`. The conversion panics on a capacity of zero.
#[verifier::external_body]
fn lru_new(capacity: usize) -> (cache: LruCache<Key, Vec<Vec<i64>>>)
    requires
        0 < capacity <= MAX_RESERVED,
    ensures
        lru_entries(cache) == Seq::<Entry>::empty(),
        lru_limit(cache) == capacity,
{
    LruCache::new(std::num::NonZeroUsize::new(capacity).unwrap())
}

/// `LruCache::unbounded`. The contract claims that the new cache holds no
/// entry and that it was made for as many entries as a `usize` counts. It
/// reserves no table.
#[verifier::external_body]
fn lru_unbounded() -> (cache: LruCache<Key, Vec<Vec<i64>>>)
    ensures
        lru_entries(cache) == Seq::<Entry>::empty(),
        lru_limit(cache) == usize::MAX,
{
    LruCache::unbounded()
}

/// `LruCache::resize`. The contract claims that the cache is for `capacity`
/// entries afterwards, and that it has dropped its last entries, as many as
/// it held beyond `capacity`, and no other. The conversion panics on a
/// capacity of zero.
#[verifier::external_body]
fn lru_resize(cache: &mut LruCache<Key, Vec<Vec<i64>>>, capacity: usize)
    requires
        0 < capacity,
    ensures
        lru_limit(*final(cache)) == capacity,
        lru_entries(*final(cache)) == after_resize(lru_entries(*old(cache)), capacity as nat),
{
    cache.resize(std::num::NonZeroUsize::new(capacity).unwrap());
}

/// `LruCache::get`, with a copy of the value in place of the reference to it.
/// The contract claims that the value under `key` is returned if there is
/// one, that the entry which was found has moved to the front while the others
/// keep their order, and that a miss changes nothing. Hashing and comparing a
/// pair of integers cannot panic, so the call does not unwind.
#[verifier::external_body]
fn lru_get(cache: &mut LruCache<Key, Vec<Vec<i64>>>, key: Key) -> (found: Option<Vec<Vec<i64>>>)
    ensures
        lru_limit(*final(cache)) == lru_limit(*old(cache)),
        lru_entries(*final(cache)) == after_get(lru_entries(*old(cache)), key),
        match found {
            Some(paths) => lookup(lru_entries(*old(cache)), key) == Some(path_views(paths@)),
            None => lookup(lru_entries(*old(cache)), key) is None,
        },
    no_unwind
{
    cache.get(&key).cloned()
}

/// `LruCache::put`; the value that it replaces is dropped. The contract
/// claims that `value` stands under `key` at the front afterwards; that it
/// has replaced the entry under the same key, if there was one; that else, in
/// a full cache, the last entry has left; and that the other entries keep
/// their order. The call does not unwind, for the same reason as a lookup.
#[verifier::external_body]
fn lru_put(cache: &mut LruCache<Key, Vec<Vec<i64>>>, key: Key, value: Vec<Vec<i64>>)
    ensures
        lru_limit(*final(cache)) == lru_limit(*old(cache)),
        lru_entries(*final(cache)) == after_put(
            lru_entries(*old(cache)),
            lru_limit(*old(cache)),
            key,
            path_views(value@),
        ),
    no_unwind
{
    cache.put(key, value);
}

/// The key under which the results for `target` and `tolerance` are stored:
/// both rounded to hundredths. Searches whose targets and tolerances agree
/// after rounding share one entry.
pub open spec fn key_of(target: i64, tolerance: i64) -> Key {
    (hundredths_of(target as int) as i64, hundredths_of(tolerance as int) as i64)
}

/// Whether some entry stands under `key`.
pub open spec fn has_key(entries: Seq<Entry>, key: Key) -> bool {
    exists|i: int| 0 <= i < entries.len() && (#[trigger] entries[i]).0 == key
}

/// No two entries stand under one key.
pub open spec fn keys_differ(entries: Seq<Entry>) -> bool {
    forall|i: int, j: int|
        0 <= i < j < entries.len() ==> (#[trigger] entries[i]).0 != (#[trigger] entries[j]).0
}

/// What the entries of a cache made for `limit` entries always are: no more
/// than `limit`, under keys that differ, each value a result set.
pub open spec fn well_formed(entries: Seq<Entry>, limit: nat) -> bool {
    &&& 0 < limit
    &&& entries.len() <= limit
    &&& keys_differ(entries)
    &&& forall|i: int| 0 <= i < entries.len() ==> is_result_set((#[trigger] entries[i]).1)
}

/// A lookup finds something exactly under the keys that occur.
pub proof fn lemma_lookup_finds_keys(entries: Seq<Entry>, key: Key)
    ensures
        lookup(entries, key) is Some <==> has_key(entries, key),
        lookup(entries, key) matches Some(value) ==> entries.contains((key, value)),
    decreases entries.len(),
{
    if entries.len() > 0 {
        let rest = entries.drop_first();
        lemma_lookup_finds_keys(rest, key);
        if entries[0].0 != key {
            if has_key(rest, key) {
                let i = choose|i: int| 0 <= i < rest.len() && (#[trigger] rest[i]).0 == key;
                assert(entries[i + 1].0 == key);
            }
            if has_key(entries, key) {
                let i = choose|i: int| 0 <= i < entries.len() && (#[trigger] entries[i]).0 == key;
                assert(rest[i - 1].0 == key);
            }
            if let Some(value) = lookup(entries, key) {
                let i = choose|i: int| 0 <= i < rest.len() && rest[i] == (key, value);
                assert(entries[i + 1] == (key, value));
            }
        }
    }
}

/// Taking a key out leaves entries of the cache, none under that key, no more
/// than there were, and fewer where the key occurred.
pub proof fn lemma_without(entries: Seq<Entry>, key: Key)
    ensures
        without(entries, key).len() <= entries.len(),
        has_key(entries, key) ==> without(entries, key).len() < entries.len(),
        !has_key(entries, key) ==> without(entries, key) == entries,
        forall|k: int|
            0 <= k < without(entries, key).len() ==> entries.contains(
                #[trigger] without(entries, key)[k],
            ) && without(entries, key)[k].0 != key,
        keys_differ(entries) ==> keys_differ(without(entries, key)),
    decreases entries.len(),
{
    if entries.len() > 0 {
        let first = entries[0];
        let rest = entries.drop_first();
        let left = without(rest, key);
        lemma_without(rest, key);
        assert forall|k: int| 0 <= k < left.len() implies entries.contains(#[trigger] left[k]) by {
            let j = choose|j: int| 0 <= j < rest.len() && rest[j] == left[k];
            assert(entries[j + 1] == left[k]);
        }
        if has_key(entries, key) && first.0 != key {
            let i = choose|i: int| 0 <= i < entries.len() && (#[trigger] entries[i]).0 == key;
            assert(rest[i - 1].0 == key);
        }
        if !has_key(entries, key) {
            assert forall|i: int| 0 <= i < rest.len() implies (#[trigger] rest[i]).0 != key by {
                assert(entries[i + 1].0 != key);
            }
        }
        if keys_differ(entries) {
            assert forall|i: int, j: int| 0 <= i < j < rest.len() implies (#[trigger] rest[i]).0 != (
            #[trigger] rest[j]).0 by {
                assert(entries[i + 1].0 != entries[j + 1].0);
            }
            if first.0 != key {
                let kept = seq![first] + left;
                assert forall|j: int| 0 < j < kept.len() implies first.0 != (#[trigger] kept[j]).0 by {
                    let m = choose|m: int| 0 <= m < rest.len() && rest[m] == left[j - 1];
                    assert(entries[0].0 != entries[m + 1].0);
                }
            }
        }
    }
}

/// A lookup keeps the cache well formed.
pub proof fn lemma_get_keeps_well_formed(entries: Seq<Entry>, limit: nat, key: Key)
    requires
        well_formed(entries, limit),
    ensures
        well_formed(after_get(entries, key), limit),
{
    lemma_lookup_finds_keys(entries, key);
    if let Some(value) = lookup(entries, key) {
        lemma_front_keeps_well_formed(entries, limit, key, value);
    }
}

/// An entry at the front of what is left without its key keeps the cache well
/// formed, where its key occurred before.
proof fn lemma_front_keeps_well_formed(
    entries: Seq<Entry>,
    limit: nat,
    key: Key,
    value: Seq<Seq<i64>>,
)
    requires
        well_formed(entries, limit),
        is_result_set(value),
        has_key(entries, key),
    ensures
        well_formed(seq![(key, value)] + without(entries, key), limit),
{
    lemma_without(entries, key);
    let left = without(entries, key);
    let next = seq![(key, value)] + left;
    assert forall|i: int| 0 < i < next.len() implies is_result_set((#[trigger] next[i]).1) by {
        let m = choose|m: int| 0 <= m < entries.len() && entries[m] == left[i - 1];
        assert(is_result_set(entries[m].1));
    }
}

/// Storing a result set keeps the cache well formed.
pub proof fn lemma_put_keeps_well_formed(
    entries: Seq<Entry>,
    limit: nat,
    key: Key,
    value: Seq<Seq<i64>>,
)
    requires
        well_formed(entries, limit),
        is_result_set(value),
    ensures
        well_formed(after_put(entries, limit, key, value), limit),
{
    lemma_lookup_finds_keys(entries, key);
    if has_key(entries, key) {
        lemma_front_keeps_well_formed(entries, limit, key, value);
    }
}

/// What was stored is found again: after a result set is stored for a target
/// and a tolerance, a lookup for any target and tolerance that round to the
/// same key finds that result set.
pub proof fn lemma_stored_is_found(
    entries: Seq<Entry>,
    limit: nat,
    target: i64,
    tolerance: i64,
    results: Seq<Seq<i64>>,
    same_target: i64,
    same_tolerance: i64,
)
    requires
        key_of(same_target, same_tolerance) == key_of(target, tolerance),
    ensures
        lookup(
            after_put(entries, limit, key_of(target, tolerance), results),
            key_of(same_target, same_tolerance),
        ) == Some(results),
{
}

/// A lookup changes no answer: whatever was stored under a key before a
/// lookup of any key is stored under it afterwards.
pub proof fn lemma_get_keeps_values(entries: Seq<Entry>, key: Key, other: Key)
    ensures
        lookup(after_get(entries, key), other) == lookup(entries, other),
{
    if let Some(value) = lookup(entries, key) {
        let next = seq![(key, value)] + without(entries, key);
        assert(next.drop_first() =~= without(entries, key));
        if other != key {
            lemma_lookup_without(entries, key, other);
        }
    }
}

/// Taking a key out changes no answer for another key.
proof fn lemma_lookup_without(entries: Seq<Entry>, key: Key, other: Key)
    requires
        other != key,
    ensures
        lookup(without(entries, key), other) == lookup(entries, other),
    decreases entries.len(),
{
    if entries.len() > 0 {
        let rest = entries.drop_first();
        lemma_lookup_without(rest, key, other);
        if entries[0].0 != key {
            let kept = seq![entries[0]] + without(rest, key);
            assert(kept.drop_first() =~= without(rest, key));
        }
    }
}

/// Leaving the last entry out changes no answer but that for its key.
proof fn lemma_lookup_drop_last(entries: Seq<Entry>, other: Key)
    requires
        entries.len() > 0,
        keys_differ(entries),
    ensures
        lookup(entries.drop_last(), other) == if entries.last().0 == other {
            None
        } else {
            lookup(entries, other)
        },
    decreases entries.len(),
{
    let front = entries.drop_last();
    let rest = entries.drop_first();
    if entries.len() == 1 {
        assert(lookup(rest, other) is None);
    } else {
        assert(front.drop_first() =~= rest.drop_last());
        assert forall|i: int, j: int| 0 <= i < j < rest.len() implies (#[trigger] rest[i]).0 != (
        #[trigger] rest[j]).0 by {
            assert(entries[i + 1].0 != entries[j + 1].0);
        }
        lemma_lookup_drop_last(rest, other);
        if entries[0].0 == other {
            assert(entries[0].0 != entries[entries.len() - 1].0);
        }
    }
}

/// Storing is least-recently-used: storing under a key changes the answer for
/// no other key, but that where the key is new and the cache is full, the
/// entry used least recently is gone.
pub proof fn lemma_put_drops_least_recent(
    entries: Seq<Entry>,
    limit: nat,
    key: Key,
    value: Seq<Seq<i64>>,
    other: Key,
)
    requires
        well_formed(entries, limit),
        other != key,
    ensures
        lookup(after_put(entries, limit, key, value), other) == if !has_key(entries, key)
            && entries.len() == limit && entries.last().0 == other {
            None
        } else {
            lookup(entries, other)
        },
{
    lemma_lookup_finds_keys(entries, key);
    let next = after_put(entries, limit, key, value);
    if has_key(entries, key) {
        lemma_lookup_without(entries, key, other);
        assert(next.drop_first() =~= without(entries, key));
    } else if entries.len() >= limit {
        lemma_lookup_drop_last(entries, other);
        assert(next.drop_first() =~= entries.drop_last());
    } else {
        assert(next.drop_first() =~= entries);
    }
}

/// The key under which the results for `target` and `tolerance` are stored.
pub fn cache_key(target: i64, tolerance: i64) -> (key: Key)
    ensures
        key == key_of(target, tolerance),
{
    (to_hundredths(target), to_hundredths(tolerance))
}

/// A bounded cache of result sets.
pub struct ResultCache {
    store: LruCache<Key, Vec<Vec<i64>>>,
}

impl ResultCache {
    /// The entries, the most recently used first.
    pub closed spec fn entries(&self) -> Seq<Entry> {
        lru_entries(self.store)
    }

    /// The number of entries that the cache was made to hold.
    pub closed spec fn limit(&self) -> nat {
        lru_limit(self.store)
    }

    /// The cache is well formed. It always is: this is the invariant of the
    /// type.
    pub open spec fn wf(&self) -> bool {
        well_formed(self.entries(), self.limit())
    }

    #[verifier::type_invariant]
    pub open spec fn always_well_formed(&self) -> bool {
        self.wf()
    }

    /// An empty cache for `capacity` entries: every lookup misses until
    /// something is stored. Any capacity of at least one is accepted; a
    /// capacity of zero is an error.
    pub fn new(capacity: usize) -> (made: Result<ResultCache, ConfigError>)
        ensures
            made is Err <==> capacity == 0,
            match made {
                Ok(cache) => {
                    &&& capacity >= 1
                    &&& cache.wf()
                    &&& cache.entries() == Seq::<Entry>::empty()
                    &&& cache.limit() == capacity
                    &&& forall|key: Key| #[trigger] lookup(cache.entries(), key) is None
                },
                Err(ConfigError::ZeroCapacity) => capacity == 0,
            },
    {
        if capacity == 0 {
            Err(ConfigError::ZeroCapacity)
        } else if capacity <= MAX_RESERVED {
            Ok(ResultCache { store: lru_new(capacity) })
        } else {
            let mut store = lru_unbounded();
            lru_resize(&mut store, capacity);
            Ok(ResultCache { store })
        }
    }

    /// Looks up the result set for `target` and `tolerance`, and returns a
    /// copy of it. A result set that is found becomes the most recently used.
    pub fn get(&mut self, target: i64, tolerance: i64) -> (found: Option<Vec<Vec<i64>>>)
        ensures
            old(self).wf(),
            final(self).wf(),
            final(self).limit() == old(self).limit(),
            final(self).entries() == after_get(old(self).entries(), key_of(target, tolerance)),
            match found {
                Some(paths) => {
                    &&& lookup(old(self).entries(), key_of(target, tolerance)) == Some(
                        path_views(paths@),
                    )
                    &&& is_result_set(path_views(paths@))
                },
                None => lookup(old(self).entries(), key_of(target, tolerance)) is None,
            },
    {
        let key = cache_key(target, tolerance);
        proof {
            use_type_invariant(&*self);
            lemma_get_keeps_well_formed(self.entries(), self.limit(), key);
            lemma_lookup_finds_keys(self.entries(), key);
        }
        lru_get(&mut self.store, key)
    }

    /// Stores `results` as the result set for `target` and `tolerance`, as the
    /// most recently used entry. What is stored must be a result set, which
    /// `holds_result_set` tells.
    pub fn put(&mut self, target: i64, tolerance: i64, results: Vec<Vec<i64>>)
        requires
            is_result_set(path_views(results@)),
        ensures
            old(self).wf(),
            final(self).wf(),
            final(self).limit() == old(self).limit(),
            final(self).entries() == after_put(
                old(self).entries(),
                old(self).limit(),
                key_of(target, tolerance),
                path_views(results@),
            ),
    {
        let key = cache_key(target, tolerance);
        proof {
            use_type_invariant(&*self);
            lemma_put_keeps_well_formed(self.entries(), self.limit(), key, path_views(results@));
        }
        lru_put(&mut self.store, key, results);
    }
}

} // verus!
