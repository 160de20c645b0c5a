//! A cache of subtype verdicts, keyed by the identities of the two types.
//!
//! A type is named by a number that stays the same for one checking session,
//! such as its index in the arena that holds the types. The pair is ordered:
//! whether `A` may stand where `B` is expected says nothing about `B` and `A`.

use lru::LruCache;
use vstd::prelude::*;

verus! {

/// The bounded least-recently-used cache of the `lru` crate, carried as an
/// opaque type.
#[verifier::external_type_specification]
#[verifier::external_body]
#[verifier::reject_recursive_types(K)]
#[verifier::reject_recursive_types(V)]
#[verifier::reject_recursive_types(S)]
pub struct ExLruCache<K, V, S>(LruCache<K, V, S>);

/// The hasher builder that an `LruCache` uses where none is named, carried
/// as an opaque type.
#[verifier::external_type_specification]
#[verifier::external_body]
pub struct ExDefaultHasher(lru::DefaultHasher);

/// The entries that an `LruCache` holds, the one used last first.
pub uninterp spec fn lru_entries(cache: LruCache<(usize, usize), bool>) -> Seq<((usize, usize), bool)>;

/// The number of entries that an `LruCache` was made to hold at most.
pub uninterp spec fn lru_limit(cache: LruCache<(usize, usize), bool>) -> nat;

/// The number of entries of a cache made by `TypeRelationCache::new`.
pub const DEFAULT_CAPACITY: usize = 1024;

/// The largest capacity that a cache can be made with.
///
/// The table behind a cache is allocated in full when the cache is made,
/// and the allocation of a table of more than `isize::MAX` bytes is refused
/// with a panic. The table has the next power of two above eight sevenths of
/// the capacity in buckets, which is less than sixteen sevenths of the
/// capacity, and a bucket takes two pointers and one byte. With a capacity
/// of at most one 128th of the address space the table stays below half the
/// address space, on a machine with pointers of two, four or eight bytes.
pub const MAX_CAPACITY: usize = usize::MAX / 128;

/// Some entry of `entries` has the key `key`.
pub open spec fn holds(entries: Seq<((usize, usize), bool)>, key: (usize, usize)) -> bool {
    exists|i: int| 0 <= i < entries.len() && (#[trigger] entries[i]).0 == key
}

/// A place in `entries` where the key `key` stands, if there is one.
pub open spec fn place(entries: Seq<((usize, usize), bool)>, key: (usize, usize)) -> int {
    choose|i: int| 0 <= i < entries.len() && (#[trigger] entries[i]).0 == key
}

/// The verdict stored under `key`, if there is one.
pub open spec fn lookup(entries: Seq<((usize, usize), bool)>, key: (usize, usize)) -> Option<bool> {
    if holds(entries, key) {
        Some(entries[place(entries, key)].1)
    } else {
        None
    }
}

/// The entries after `key` was looked up: its entry, if there is one, moves
/// to the front.
pub open spec fn touched(entries: Seq<((usize, usize), bool)>, key: (usize, usize)) -> Seq<
    ((usize, usize), bool),
> {
    if holds(entries, key) {
        seq![entries[place(entries, key)]] + entries.remove(place(entries, key))
    } else {
        entries
    }
}

/// The entries after `verdict` was stored under `key` in a cache that holds
/// at most `limit` entries. The new entry stands at the front. An entry with
/// the same key is replaced; otherwise, if the cache is full, the entry at
/// the back, which was used least recently, is dropped.
pub open spec fn stored(
    entries: Seq<((usize, usize), bool)>,
    limit: nat,
    key: (usize, usize),
    verdict: bool,
) -> Seq<((usize, usize), bool)> {
    if holds(entries, key) {
        seq![(key, verdict)] + entries.remove(place(entries, key))
    } else if entries.len() == limit {
        seq![(key, verdict)] + entries.drop_last()
    } else {
        seq![(key, verdict)] + entries
    }
}

/// No key stands in `entries` twice, and there are at most `limit` entries.
pub open spec fn entries_ok(entries: Seq<((usize, usize), bool)>, limit: nat) -> bool {
    &&& entries.len() <= limit
    &&& forall|i: int, j: int|
        0 <= i < entries.len() && 0 <= j < entries.len() && i != j ==> (#[trigger] entries[i]).0 != (
        #[trigger] entries[j]).0
}

/// Calls `LruCache::new` with `capacity` as a `NonZeroUsize`. The new cache
/// holds nothing and is limited to `capacity` entries. Zero is left out
/// because `NonZeroUsize` has no zero, and capacities above `MAX_CAPACITY`
/// because `new` allocates the table for all entries at once.
#[verifier::external_body]
fn lru_new(capacity: usize) -> (cache: LruCache<(usize, usize), bool>)
    requires
        0 < capacity <= MAX_CAPACITY,
    ensures
        lru_entries(cache) == Seq::<((usize, usize), bool)>::empty(),
        lru_limit(cache) == capacity,
{
    LruCache::new(capacity.try_into().unwrap())
}

/// Calls `LruCache::get`. It returns the value stored under `key`, if there
/// is one, and moves that entry to the front of the cache; the limit stays.
#[verifier::external_body]
fn lru_get(cache: &mut LruCache<(usize, usize), bool>, key: (usize, usize)) -> (found: Option<bool>)
    ensures
        found == lookup(lru_entries(*old(cache)), key),
        lru_entries(*final(cache)) == touched(lru_entries(*old(cache)), key),
        lru_limit(*final(cache)) == lru_limit(*old(cache)),
{
    cache.get(&key).copied()
}

/// Calls `LruCache::put`. It puts the pair at the front of the cache. Where
/// the key was present its old entry goes; otherwise, where the cache was
/// full, the entry at the back goes. The limit stays.
#[verifier::external_body]
fn lru_put(cache: &mut LruCache<(usize, usize), bool>, key: (usize, usize), verdict: bool)
    ensures
        lru_entries(*final(cache)) == stored(
            lru_entries(*old(cache)),
            lru_limit(*old(cache)),
            key,
            verdict,
        ),
        lru_limit(*final(cache)) == lru_limit(*old(cache)),
{
    cache.put(key, verdict);
}

/// Calls `LruCache::clear`. It removes every entry; the limit stays.
#[verifier::external_body]
fn lru_clear(cache: &mut LruCache<(usize, usize), bool>)
    ensures
        lru_entries(*final(cache)) == Seq::<((usize, usize), bool)>::empty(),
        lru_limit(*final(cache)) == lru_limit(*old(cache)),
{
    cache.clear();
}

/// A relation cache as mathematics.
pub struct CacheModel {
    /// The stored verdicts with their keys, the one used last first.
    pub entries: Seq<((usize, usize), bool)>,
    /// The largest number of entries.
    pub capacity: nat,
    /// How many lookups found a verdict, since the cache was made.
    pub hits: nat,
    /// How many lookups found none, since the cache was made.
    pub misses: nat,
}

/// Type relation cache for subtype checking.
///
/// Caches results of subtype checks (source type, target type) -> bool to
/// avoid redundant computation during type checking.
pub struct TypeRelationCache {
    cache: LruCache<(usize, usize), bool>,
    hit_count: u64,
    miss_count: u64,
}

impl View for TypeRelationCache {
    type V = CacheModel;

    closed spec fn view(&self) -> CacheModel {
        CacheModel {
            entries: lru_entries(self.cache),
            capacity: lru_limit(self.cache),
            hits: self.hit_count as nat,
            misses: self.miss_count as nat,
        }
    }
}

impl TypeRelationCache {
    /// The cache is well formed: it holds no key twice and no more entries
    /// than its capacity, which is not zero, and the number of all lookups
    /// fits the counters.
    pub open spec fn wf(&self) -> bool {
        &&& entries_ok(self@.entries, self@.capacity)
        &&& self@.capacity > 0
        &&& self@.hits + self@.misses <= u64::MAX
    }

    /// Create a new cache with default capacity.
    pub fn new() -> (cache: TypeRelationCache)
        ensures
            cache.wf(),
            cache@ == (CacheModel {
                entries: Seq::empty(),
                capacity: DEFAULT_CAPACITY as nat,
                hits: 0,
                misses: 0,
            }),
    {
        Self::with_capacity(DEFAULT_CAPACITY)
    }

    /// Create a new cache with specified capacity.
    pub fn with_capacity(capacity: usize) -> (cache: TypeRelationCache)
        requires
            0 < capacity <= MAX_CAPACITY,
        ensures
            cache.wf(),
            cache@ == (CacheModel {
                entries: Seq::empty(),
                capacity: capacity as nat,
                hits: 0,
                misses: 0,
            }),
    {
        TypeRelationCache { cache: lru_new(capacity), hit_count: 0, miss_count: 0 }
    }

    /// Check if a type relation is cached.
    ///
    /// Returns the verdict stored for the ordered pair, and counts a hit, or
    /// returns nothing and counts a miss. A verdict that is found becomes the
    /// one used last.
    pub fn get(&mut self, source: usize, target: usize) -> (verdict: Option<bool>)
        requires
            old(self).wf(),
            old(self)@.hits + old(self)@.misses < u64::MAX,
        ensures
            final(self).wf(),
            verdict == lookup(old(self)@.entries, (source, target)),
            final(self)@.entries == touched(old(self)@.entries, (source, target)),
            final(self)@.capacity == old(self)@.capacity,
            final(self)@.hits == old(self)@.hits + (if verdict.is_some() {
                1nat
            } else {
                0nat
            }),
            final(self)@.misses == old(self)@.misses + (if verdict.is_some() {
                0nat
            } else {
                1nat
            }),
    {
        let key = (source, target);
        proof {
            lemma_touched_ok(self@.entries, self@.capacity, key);
        }
        let result = lru_get(&mut self.cache, key);
        if result.is_some() {
            self.hit_count = self.hit_count + 1;
        } else {
            self.miss_count = self.miss_count + 1;
        }
        result
    }

    /// Cache a type relation result.
    ///
    /// The verdict becomes the one used last. It replaces a verdict stored
    /// for the same ordered pair; otherwise, where the cache is full, the
    /// verdict used least recently is dropped.
    pub fn insert(&mut self, source: usize, target: usize, result: bool)
        requires
            old(self).wf(),
        ensures
            final(self).wf(),
            final(self)@.entries == stored(
                old(self)@.entries,
                old(self)@.capacity,
                (source, target),
                result,
            ),
            final(self)@.capacity == old(self)@.capacity,
            final(self)@.hits == old(self)@.hits,
            final(self)@.misses == old(self)@.misses,
    {
        let key = (source, target);
        proof {
            lemma_stored_ok(self@.entries, self@.capacity, key, result);
        }
        lru_put(&mut self.cache, key, result);
    }

    /// Clear the entire cache. The counters of hits and misses stay.
    pub fn clear(&mut self)
        requires
            old(self).wf(),
        ensures
            final(self).wf(),
            final(self)@.entries == Seq::<((usize, usize), bool)>::empty(),
            final(self)@.capacity == old(self)@.capacity,
            final(self)@.hits == old(self)@.hits,
            final(self)@.misses == old(self)@.misses,
    {
        lru_clear(&mut self.cache);
    }

    /// Get cache hit count.
    pub fn hit_count(&self) -> (count: u64)
        ensures
            count == self@.hits,
    {
        self.hit_count
    }

    /// Get cache miss count.
    pub fn miss_count(&self) -> (count: u64)
        ensures
            count == self@.misses,
    {
        self.miss_count
    }

    /// Get cache hit rate, as a fraction: the hits over all lookups. Before
    /// the first lookup the rate is one, written as one over one.
    pub fn hit_rate(&self) -> (ratio: (u64, u64))
        requires
            self.wf(),
        ensures
            ratio == spec_hit_rate(self@.hits, self@.misses),
            0 < ratio.1,
            ratio.0 <= ratio.1,
    {
        let total = self.hit_count + self.miss_count;
        if total == 0 {
            (1, 1)
        } else {
            (self.hit_count, total)
        }
    }
}

impl Default for TypeRelationCache {
    fn default() -> (cache: TypeRelationCache)
        ensures
            cache.wf(),
            cache@ == (CacheModel {
                entries: Seq::empty(),
                capacity: DEFAULT_CAPACITY as nat,
                hits: 0,
                misses: 0,
            }),
    {
        TypeRelationCache::new()
    }
}

/// The hit rate after `hits` hits and `misses` misses, as numerator and
/// denominator: one over one when nothing was looked up.
pub open spec fn spec_hit_rate(hits: nat, misses: nat) -> (u64, u64) {
    if hits + misses == 0 {
        (1u64, 1u64)
    } else {
        (hits as u64, (hits + misses) as u64)
    }
}

/// Where one key stands only once, it stands at the place that `place` names.
pub proof fn lemma_place(entries: Seq<((usize, usize), bool)>, limit: nat, i: int)
    requires
        entries_ok(entries, limit),
        0 <= i < entries.len(),
    ensures
        holds(entries, entries[i].0),
        place(entries, entries[i].0) == i,
        lookup(entries, entries[i].0) == Some(entries[i].1),
{
    let key = entries[i].0;
    assert(holds(entries, key));
    let p = place(entries, key);
    assert(entries[p].0 == entries[i].0);
}

/// A lookup keeps the cache well formed, and keeps every stored verdict.
pub proof fn lemma_touched_ok(entries: Seq<((usize, usize), bool)>, limit: nat, key: (usize, usize))
    requires
        entries_ok(entries, limit),
    ensures
        entries_ok(touched(entries, key), limit),
        forall|other: (usize, usize)| lookup(touched(entries, key), other) == lookup(entries, other),
{
    let after = touched(entries, key);
    if holds(entries, key) {
        let p = place(entries, key);
        let rest = entries.remove(p);
        // where each entry of `after` stood before
        let origin = |a: int|
            if a == 0 {
                p
            } else if a - 1 < p {
                a - 1
            } else {
                a
            };
        assert forall|a: int| 0 <= a < after.len() implies after[a] == entries[origin(a)] && 0
            <= origin(a) < entries.len() by {
            if a > 0 {
                assert(after[a] == rest[a - 1]);
            }
        }
        assert forall|i: int, j: int|
            0 <= i < after.len() && 0 <= j < after.len() && i != j implies (#[trigger] after[i]).0 != (
        #[trigger] after[j]).0 by {
            assert(after[i] == entries[origin(i)]);
            assert(after[j] == entries[origin(j)]);
            assert(origin(i) != origin(j));
        }
        assert(entries_ok(after, limit));
        assert forall|other: (usize, usize)| lookup(after, other) == lookup(entries, other) by {
            if holds(entries, other) {
                let q = place(entries, other);
                let a = if q == p {
                    0
                } else if q < p {
                    q + 1
                } else {
                    q
                };
                assert(after[a] == entries[origin(a)]);
                assert(origin(a) == q);
                lemma_place(after, limit, a);
            } else if holds(after, other) {
                let a = place(after, other);
                assert(after[a] == entries[origin(a)]);
                assert(entries[origin(a)].0 == other);
            }
        }
    } else {
        assert(after == entries);
    }
}

/// Storing a verdict keeps the cache well formed.
pub proof fn lemma_stored_ok(
    entries: Seq<((usize, usize), bool)>,
    limit: nat,
    key: (usize, usize),
    verdict: bool,
)
    requires
        entries_ok(entries, limit),
        limit > 0,
    ensures
        entries_ok(stored(entries, limit, key, verdict), limit),
{
    let after = stored(entries, limit, key, verdict);
    if holds(entries, key) {
        let p = place(entries, key);
        let rest = entries.remove(p);
        let origin = |a: int|
            if a - 1 < p {
                a - 1
            } else {
                a
            };
        assert forall|i: int, j: int|
            0 <= i < after.len() && 0 <= j < after.len() && i != j implies (#[trigger] after[i]).0 != (
        #[trigger] after[j]).0 by {
            if i > 0 {
                assert(after[i] == rest[i - 1]);
                assert(after[i] == entries[origin(i)]);
            }
            if j > 0 {
                assert(after[j] == rest[j - 1]);
                assert(after[j] == entries[origin(j)]);
            }
            if i == 0 {
                assert(origin(j) != p);
                assert(entries[p].0 == key);
            }
            if j == 0 {
                assert(origin(i) != p);
                assert(entries[p].0 == key);
            }
        }
    } else {
        let rest = if entries.len() == limit {
            entries.drop_last()
        } else {
            entries
        };
        assert forall|i: int, j: int|
            0 <= i < after.len() && 0 <= j < after.len() && i != j implies (#[trigger] after[i]).0 != (
        #[trigger] after[j]).0 by {
            if i > 0 {
                assert(after[i] == rest[i - 1]);
                assert(after[i] == entries[i - 1]);
            }
            if j > 0 {
                assert(after[j] == rest[j - 1]);
                assert(after[j] == entries[j - 1]);
            }
        }
    }
}

/// A verdict that was just stored is found under its key.
pub proof fn lemma_stored_is_found(
    entries: Seq<((usize, usize), bool)>,
    limit: nat,
    key: (usize, usize),
    verdict: bool,
)
    requires
        entries_ok(entries, limit),
        limit > 0,
    ensures
        lookup(stored(entries, limit, key, verdict), key) == Some(verdict),
{
    let after = stored(entries, limit, key, verdict);
    lemma_stored_ok(entries, limit, key, verdict);
    assert(after[0] == (key, verdict));
    lemma_place(after, limit, 0);
}

/// Storing a verdict under one key changes what is found under another key
/// in one case only: the cache was full, the stored key was new, and the
/// other key was the one used least recently, which is then forgotten.
pub proof fn lemma_stored_keeps_others(
    entries: Seq<((usize, usize), bool)>,
    limit: nat,
    key: (usize, usize),
    verdict: bool,
    other: (usize, usize),
)
    requires
        entries_ok(entries, limit),
        limit > 0,
        other != key,
    ensures
        lookup(stored(entries, limit, key, verdict), other) == if !holds(entries, key)
            && entries.len() == limit && entries.last().0 == other {
            None
        } else {
            lookup(entries, other)
        },
{
    let after = stored(entries, limit, key, verdict);
    lemma_stored_ok(entries, limit, key, verdict);
    // where each entry of `after` behind the first stood before
    let skipped = if holds(entries, key) {
        place(entries, key)
    } else {
        entries.len() as int
    };
    let origin = |a: int|
        if a - 1 < skipped {
            a - 1
        } else {
            a
        };
    assert forall|a: int| 1 <= a < after.len() implies after[a] == entries[origin(a)] && 0
        <= origin(a) < entries.len() by {
        if holds(entries, key) {
            assert(after[a] == entries.remove(skipped)[a - 1]);
        } else if entries.len() == limit {
            assert(after[a] == entries.drop_last()[a - 1]);
        } else {
            assert(after[a] == entries[a - 1]);
        }
    }
    if holds(after, other) {
        let a = place(after, other);
        assert(after[0].0 == key);
        assert(a >= 1);
        lemma_place(after, limit, a);
        lemma_place(entries, limit, origin(a));
        if !holds(entries, key) && entries.len() == limit {
            assert(origin(a) != entries.len() - 1);
        }
    } else if holds(entries, other) {
        let q = place(entries, other);
        if holds(entries, key) {
            assert(q != skipped);
            let a = if q < skipped {
                q + 1
            } else {
                q
            };
            assert(after[a] == entries[origin(a)]);
            assert(after[a].0 == other);
        } else if entries.len() == limit {
            if q < entries.len() - 1 {
                assert(after[q + 1] == entries[origin(q + 1)]);
                assert(after[q + 1].0 == other);
            }
        } else {
            assert(after[q + 1] == entries[origin(q + 1)]);
            assert(after[q + 1].0 == other);
        }
    }
}

/// The pair is ordered: a verdict stored for `(a, b)` is not found under
/// `(b, a)`. Where nothing was stored for `(b, a)` before, nothing is after.
pub proof fn lemma_pair_is_ordered(
    entries: Seq<((usize, usize), bool)>,
    limit: nat,
    a: usize,
    b: usize,
    verdict: bool,
)
    requires
        entries_ok(entries, limit),
        limit > 0,
        a != b,
        lookup(entries, (b, a)).is_none(),
    ensures
        lookup(stored(entries, limit, (a, b), verdict), (a, b)) == Some(verdict),
        lookup(stored(entries, limit, (a, b), verdict), (b, a)).is_none(),
{
    lemma_stored_is_found(entries, limit, (a, b), verdict);
    lemma_stored_keeps_others(entries, limit, (a, b), verdict, (b, a));
}

/// After `hits` hits and `misses` misses, not both zero, the hit rate is
/// `hits` over `hits + misses`; with no lookup at all it is one.
pub proof fn lemma_hit_rate(hits: nat, misses: nat)
    requires
        hits + misses <= u64::MAX,
    ensures
        hits + misses == 0 ==> spec_hit_rate(hits, misses) == (1u64, 1u64),
        hits + misses > 0 ==> spec_hit_rate(hits, misses).0 == hits && spec_hit_rate(hits, misses).1
            == hits + misses,
{
}

} // verus!
