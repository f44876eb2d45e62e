//! The cache of route decisions.
//!
//! A bounded map from request keys to route identifiers. A full cache makes room
//! by dropping about a tenth of its entries; which ones is left open.

use dashmap::DashMap;
use vstd::prelude::*;
use vstd::string::*;

verus! {

/// `dashmap::DashMap`: a sharded hash map.
#[verifier::external_type_specification]
#[verifier::external_body]
#[verifier::reject_recursive_types(K)]
#[verifier::reject_recursive_types(V)]
#[verifier::reject_recursive_types(S)]
pub struct ExDashMap<K, V, S>(dashmap::DashMap<K, V, S>);

/// The entries of a map.
pub uninterp spec fn entries_of(m: dashmap::DashMap<String, String>) -> Map<Seq<char>, Seq<char>>;

/// Nothing.
pub open spec fn no_entries() -> Map<Seq<char>, Seq<char>> {
    Map::empty()
}

/// `DashMap::new`: an empty map.
#[verifier::external_body]
fn map_new() -> (r: DashMap<String, String>)
    ensures
        entries_of(r) == no_entries(),
{
    DashMap::new()
}

/// `DashMap::get`: the value for a key, if there is one.
#[verifier::external_body]
fn map_get(m: &DashMap<String, String>, key: &str) -> (r: Option<String>)
    ensures
        (match r {
            Some(v) => entries_of(*m).contains_key(key@) && v@ == entries_of(*m)[key@],
            None => !entries_of(*m).contains_key(key@),
        }),
{
    m.get(key).map(|r| r.value().clone())
}

/// `DashMap::insert`: binds the key to the value, and gives back the value that
/// it replaces.
#[verifier::external_body]
fn map_insert(m: &mut DashMap<String, String>, key: String, value: String) -> (r: Option<String>)
    ensures
        entries_of(*final(m)) == entries_of(*old(m)).insert(key@, value@),
        (match r {
            Some(v) => entries_of(*old(m)).contains_key(key@) && v@ == entries_of(*old(m))[key@],
            None => !entries_of(*old(m)).contains_key(key@),
        }),
{
    m.insert(key, value)
}

/// `DashMap::retain`: asks of each entry once whether it stays, and drops those
/// that do not. With [`spare`] as the question, the first `count` entries that
/// are asked about are dropped; the order of the walk is open.
#[verifier::external_body]
fn map_drop_some(m: &mut DashMap<String, String>, count: usize)
    ensures
        entries_of(*final(m)).submap_of(entries_of(*old(m))),
        entries_of(*final(m)).len() == smaller_by(entries_of(*old(m)).len(), count as nat),
{
    let mut left = count;
    m.retain(|_k, _v| spare(&mut left));
}

/// `DashMap::len`: the number of entries.
#[verifier::external_body]
fn map_len(m: &DashMap<String, String>) -> (r: usize)
    ensures
        r == entries_of(*m).len(),
{
    m.len()
}

/// `DashMap::clear`: drops every entry.
#[verifier::external_body]
fn map_clear(m: &mut DashMap<String, String>)
    ensures
        entries_of(*final(m)) == no_entries(),
{
    m.clear()
}

/// `n` less `k`, but not below zero.
pub open spec fn smaller_by(n: nat, k: nat) -> nat {
    if n >= k {
        (n - k) as nat
    } else {
        0
    }
}

/// Counts down; `false` for as long as there is something to count.
fn spare(left: &mut usize) -> (r: bool)
    ensures
        r == (*old(left) == 0),
        *final(left) == smaller_by(*old(left) as nat, 1),
{
    if *left > 0 {
        *left = *left - 1;
        false
    } else {
        true
    }
}

/// How many entries are dropped at a time: a tenth of the size, but at least one.
pub open spec fn batch(max_size: usize) -> nat {
    if max_size >= 10 {
        max_size as nat / 10
    } else {
        1
    }
}

/// `kept` is what may be left of `before` when there must be room.
pub open spec fn evicted(
    before: Map<Seq<char>, Seq<char>>,
    max_size: usize,
    kept: Map<Seq<char>, Seq<char>>,
) -> bool {
    if before.len() >= max_size {
        kept.submap_of(before) && kept.len() == smaller_by(before.len(), batch(max_size))
    } else {
        kept == before
    }
}

/// What a cache may hold after an entry was inserted. A cache of size zero keeps
/// nothing.
pub open spec fn inserted(
    before: Map<Seq<char>, Seq<char>>,
    max_size: usize,
    key: Seq<char>,
    id: Seq<char>,
    after: Map<Seq<char>, Seq<char>>,
) -> bool {
    if max_size == 0 {
        after == before
    } else {
        exists|kept: Map<Seq<char>, Seq<char>>| #[trigger]
            evicted(before, max_size, kept) && after == kept.insert(key, id)
    }
}

/// How many entries an insertion drops.
pub open spec fn dropped(before: Map<Seq<char>, Seq<char>>, max_size: usize) -> nat {
    if before.len() >= max_size {
        if before.len() <= batch(max_size) {
            before.len()
        } else {
            batch(max_size)
        }
    } else {
        0
    }
}

/// A cache of at most `max_size` entries never grows past it.
pub proof fn cache_stays_bounded(
    before: Map<Seq<char>, Seq<char>>,
    max_size: usize,
    key: Seq<char>,
    id: Seq<char>,
    after: Map<Seq<char>, Seq<char>>,
)
    requires
        before.dom().finite(),
        inserted(before, max_size, key, id, after),
        before.len() <= max_size,
    ensures
        after.dom().finite(),
        after.len() <= max_size,
{
    if max_size > 0 {
        let kept = choose|kept: Map<Seq<char>, Seq<char>>| #[trigger]
            evicted(before, max_size, kept) && after == kept.insert(key, id);
        assert(kept.dom().subset_of(before.dom()));
        vstd::set_lib::lemma_len_subset(kept.dom(), before.dom());
        assert(after.dom() == kept.dom().insert(key));
    }
}

/// The entry that was just inserted is there, unless the cache holds nothing at all.
pub proof fn inserted_is_found(
    before: Map<Seq<char>, Seq<char>>,
    max_size: usize,
    key: Seq<char>,
    id: Seq<char>,
    after: Map<Seq<char>, Seq<char>>,
)
    requires
        max_size > 0,
        inserted(before, max_size, key, id, after),
    ensures
        after.contains_key(key),
        after[key] == id,
{
}

/// Every entry of a cache is the one that was just inserted or was there before.
pub proof fn inserted_adds_nothing_else(
    before: Map<Seq<char>, Seq<char>>,
    max_size: usize,
    key: Seq<char>,
    id: Seq<char>,
    after: Map<Seq<char>, Seq<char>>,
    k: Seq<char>,
)
    requires
        inserted(before, max_size, key, id, after),
        after.contains_key(k),
        k != key,
    ensures
        before.contains_key(k),
        after[k] == before[k],
{
    if max_size > 0 {
        let kept = choose|kept: Map<Seq<char>, Seq<char>>| #[trigger]
            evicted(before, max_size, kept) && after == kept.insert(key, id);
        assert(kept.contains_key(k));
        assert(before.contains_key(k));
    }
}

/// A bounded cache from request keys to route identifiers.
pub struct RouteCache {
    entries: DashMap<String, String>,
    max_size: usize,
    entry_count: usize,
    hits: u64,
    misses: u64,
    evictions: u64,
}

impl RouteCache {
    /// The entries.
    pub closed spec fn contents(&self) -> Map<Seq<char>, Seq<char>> {
        entries_of(self.entries)
    }

    /// The size limit.
    pub closed spec fn limit(&self) -> usize {
        self.max_size
    }

    /// Lookups that found an entry, modulo 2^64.
    pub closed spec fn hit_count(&self) -> u64 {
        self.hits
    }

    /// Recorded misses, modulo 2^64.
    pub closed spec fn miss_count(&self) -> u64 {
        self.misses
    }

    /// Entries dropped to make room, modulo 2^64.
    pub closed spec fn eviction_count(&self) -> u64 {
        self.evictions
    }

    /// The entry count is right and within the limit.
    pub closed spec fn wf(&self) -> bool {
        &&& self.contents().dom().finite()
        &&& self.entry_count == self.contents().len()
        &&& self.contents().len() <= self.max_size
    }

    /// An empty cache.
    pub fn new(max_size: usize) -> (r: RouteCache)
        ensures
            r.wf(),
            r.contents() == no_entries(),
            r.limit() == max_size,
            r.hit_count() == 0,
            r.miss_count() == 0,
            r.eviction_count() == 0,
    {
        RouteCache {
            entries: map_new(),
            max_size,
            entry_count: 0,
            hits: 0,
            misses: 0,
            evictions: 0,
        }
    }

    /// The route identifier for a key; counts a hit if there is one.
    pub fn get(&mut self, key: &str) -> (r: Option<String>)
        requires
            old(self).wf(),
        ensures
            final(self).wf(),
            final(self).contents() == old(self).contents(),
            final(self).limit() == old(self).limit(),
            final(self).miss_count() == old(self).miss_count(),
            final(self).eviction_count() == old(self).eviction_count(),
            (match r {
                Some(v) => old(self).contents().contains_key(key@) && v@ == old(self).contents()[key@]
                    && final(self).hit_count() as int == (old(self).hit_count() + 1) % 0x1_0000_0000_0000_0000,
                None => !old(self).contents().contains_key(key@) && final(self).hit_count() == old(
                    self,
                ).hit_count(),
            }),
    {
        let found = map_get(&self.entries, key);
        if found.is_some() {
            self.hits = self.hits.wrapping_add(1);
        }
        found
    }

    /// Counts a miss.
    pub fn record_miss(&mut self)
        requires
            old(self).wf(),
        ensures
            final(self).wf(),
            final(self).contents() == old(self).contents(),
            final(self).limit() == old(self).limit(),
            final(self).hit_count() == old(self).hit_count(),
            final(self).miss_count() as int == (old(self).miss_count() + 1) % 0x1_0000_0000_0000_0000,
            final(self).eviction_count() == old(self).eviction_count(),
    {
        self.misses = self.misses.wrapping_add(1);
    }

    /// Binds a key to a route identifier, after making room if the cache is full. A
    /// cache of size zero stays empty.
    pub fn insert(&mut self, key: String, route_id: String)
        requires
            old(self).wf(),
        ensures
            final(self).wf(),
            inserted(
                old(self).contents(),
                old(self).limit(),
                key@,
                route_id@,
                final(self).contents(),
            ),
            final(self).limit() == old(self).limit(),
            final(self).hit_count() == old(self).hit_count(),
            final(self).miss_count() == old(self).miss_count(),
            final(self).eviction_count() as int == (old(self).eviction_count() + dropped(
                old(self).contents(),
                old(self).limit(),
            )) % 0x1_0000_0000_0000_0000,
    {
        if self.max_size == 0 {
            return;
        }
        let ghost before = self.contents();
        if self.entry_count >= self.max_size {
            self.evict_random();
        }
        let ghost kept = self.contents();
        assert(evicted(before, self.max_size, kept));
        let ghost k = key@;
        let ghost v = route_id@;
        let replaced = map_insert(&mut self.entries, key, route_id);
        proof {
            assert(kept.insert(k, v).dom() == kept.dom().insert(k));
            assert(inserted(before, self.max_size, k, v, self.contents()));
            cache_stays_bounded(before, self.max_size, k, v, self.contents());
            if kept.contains_key(k) {
                assert(kept.dom().insert(k) =~= kept.dom());
            }
        }
        if replaced.is_none() {
            self.entry_count = self.entry_count + 1;
        }
    }

    /// Drops a tenth of the entries, at least one.
    fn evict_random(&mut self)
        requires
            old(self).wf(),
            old(self).entry_count >= old(self).max_size,
        ensures
            final(self).wf(),
            evicted(old(self).contents(), old(self).max_size, final(self).contents()),
            final(self).max_size == old(self).max_size,
            final(self).hits == old(self).hits,
            final(self).misses == old(self).misses,
            final(self).evictions as int == (old(self).evictions + dropped(
                old(self).contents(),
                old(self).max_size,
            )) % 0x1_0000_0000_0000_0000,
    {
        let tenth: usize = self.max_size / 10;
        let to_evict: usize = if tenth > 1 {
            tenth
        } else {
            1
        };
        let before: usize = self.entry_count;
        map_drop_some(&mut self.entries, to_evict);
        proof {
            let kept = self.contents();
            assert(kept.dom().subset_of(old(self).contents().dom()));
            vstd::set_lib::lemma_len_subset(kept.dom(), old(self).contents().dom());
        }
        self.entry_count = map_len(&self.entries);
        self.evictions = self.evictions.wrapping_add((before - self.entry_count) as u64);
    }

    /// The number of entries.
    pub fn len(&self) -> (r: usize)
        requires
            self.wf(),
        ensures
            r == self.contents().len(),
            r <= self.limit(),
    {
        map_len(&self.entries)
    }

    /// True if there is no entry.
    pub fn is_empty(&self) -> (r: bool)
        requires
            self.wf(),
        ensures
            r == (self.contents().len() == 0),
    {
        map_len(&self.entries) == 0
    }

    /// Drops every entry; the counters stay.
    pub fn clear(&mut self)
        requires
            old(self).wf(),
        ensures
            final(self).wf(),
            final(self).contents() == no_entries(),
            final(self).limit() == old(self).limit(),
            final(self).hit_count() == old(self).hit_count(),
            final(self).miss_count() == old(self).miss_count(),
            final(self).eviction_count() == old(self).eviction_count(),
    {
        map_clear(&mut self.entries);
        self.entry_count = 0;
    }

    /// The statistics.
    pub fn stats(&self) -> (r: CacheStats)
        requires
            self.wf(),
        ensures
            r.entries == self.contents().len(),
            r.max_size == self.limit(),
            r.hits == self.hit_count(),
            r.misses == self.miss_count(),
            r.evictions == self.eviction_count(),
    {
        CacheStats {
            entries: map_len(&self.entries),
            max_size: self.max_size,
            hits: self.hits,
            misses: self.misses,
            evictions: self.evictions,
        }
    }
}

/// Cache statistics. The hit rate is `hits / (hits + misses)`.
#[derive(Debug, Clone, Copy, PartialEq, Eq, Structural)]
pub struct CacheStats {
    /// Entries held.
    pub entries: usize,
    /// The size limit.
    pub max_size: usize,
    /// Lookups that found an entry.
    pub hits: u64,
    /// Requests that were decided by evaluation.
    pub misses: u64,
    /// Entries dropped to make room.
    pub evictions: u64,
}

/// While there is room nothing leaves. A full cache loses a tenth of its size, rounded
/// down, or one entry if that is nothing; the count of dropped entries says how many.
pub proof fn full_cache_loses_a_tenth(
    before: Map<Seq<char>, Seq<char>>,
    max_size: usize,
    key: Seq<char>,
    id: Seq<char>,
    after: Map<Seq<char>, Seq<char>>,
)
    requires
        before.dom().finite(),
        inserted(before, max_size, key, id, after),
    ensures
        max_size == 0 ==> after == before,
        before.len() < max_size ==> after == before.insert(key, id) && dropped(before, max_size)
            == 0,
        before.len() == max_size && max_size > 0 ==> {
            let lost = dropped(before, max_size);
            &&& 1 <= lost <= before.len()
            &&& lost > 1 ==> 10 * lost <= max_size
            &&& max_size < 10 * lost + 10
            &&& !before.contains_key(key) ==> after.len() + lost == before.len() + 1
        },
{
    if max_size > 0 {
        let kept = choose|kept: Map<Seq<char>, Seq<char>>| #[trigger]
            evicted(before, max_size, kept) && after == kept.insert(key, id);
        if before.len() == max_size {
            assert(kept.dom().subset_of(before.dom()));
            vstd::set_lib::lemma_len_subset(kept.dom(), before.dom());
            if !before.contains_key(key) {
                assert(!kept.contains_key(key));
                assert(after.dom() == kept.dom().insert(key));
            }
        }
    }
}

} // verus!
