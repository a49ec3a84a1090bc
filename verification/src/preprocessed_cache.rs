//! Keys of the preprocessed-content cache and the hashes of rule sets they carry.
use vstd::prelude::*;
use crate::hashing::{hasher_new, hash_str, hasher_finish, hasher_log, log_digest, str_item};
use lru::LruCache;

verus! {

/// Cache key for preprocessed content.
#[derive(Debug, Clone, Hash, PartialEq, Eq)]
pub struct CacheKey {
    pub book_id: String,
    pub chapter_index: usize,
    pub rules_hash: u64,
}

/// The hasher log of `(pattern, replacement)` pairs written in order.
pub open spec fn pair_rules_log(rules: Seq<(Seq<char>, Seq<char>)>) -> Seq<Seq<int>>
    decreases rules.len(),
{
    if rules.len() == 0 {
        Seq::<Seq<int>>::empty()
    } else {
        let (p, r) = rules.last();
        pair_rules_log(rules.drop_last()).push(str_item(p)).push(str_item(r))
    }
}

/// The hasher log of rule strings written in order.
pub open spec fn str_rules_log(rules: Seq<Seq<char>>) -> Seq<Seq<int>>
    decreases rules.len(),
{
    if rules.len() == 0 {
        Seq::<Seq<int>>::empty()
    } else {
        str_rules_log(rules.drop_last()).push(str_item(rules.last()))
    }
}

pub open spec fn pair_views(rules: Seq<(String, String)>) -> Seq<(Seq<char>, Seq<char>)> {
    rules.map_values(|r: (String, String)| (r.0@, r.1@))
}

/// Hash of `(pattern, replacement)` rules for a cache key: each pattern and
/// replacement written to a `DefaultHasher` in order.
pub fn calculate_rules_hash(rules: &[(String, String)]) -> (r: u64)
    ensures
        r == log_digest(pair_rules_log(pair_views(rules@))),
{
    let mut h = hasher_new();
    let mut i: usize = 0;
    while i < rules.len()
        invariant
            i <= rules@.len(),
            hasher_log(h) == pair_rules_log(pair_views(rules@).take(i as int)),
        decreases rules@.len() - i,
    {
        proof {
            assert(pair_views(rules@).take(i + 1).drop_last() =~= pair_views(rules@).take(
                i as int,
            ));
        }
        hash_str(&mut h, rules[i].0.as_str());
        hash_str(&mut h, rules[i].1.as_str());
        i = i + 1;
    }
    proof {
        assert(pair_views(rules@).take(rules@.len() as int) =~= pair_views(rules@));
    }
    hasher_finish(&h)
}

/// Hash of rule strings for a cache key.
pub fn calculate_rules_hash_str(rules: &[String]) -> (r: u64)
    ensures
        r == log_digest(str_rules_log(rules@.map_values(|s: String| s@))),
{
    let ghost v = rules@.map_values(|s: String| s@);
    let mut h = hasher_new();
    let mut i: usize = 0;
    while i < rules.len()
        invariant
            i <= rules@.len(),
            v == rules@.map_values(|s: String| s@),
            hasher_log(h) == str_rules_log(v.take(i as int)),
        decreases rules@.len() - i,
    {
        proof {
            assert(v.take(i + 1).drop_last() =~= v.take(i as int));
        }
        hash_str(&mut h, rules[i].as_str());
        i = i + 1;
    }
    proof {
        assert(v.take(rules@.len() as int) =~= v);
    }
    hasher_finish(&h)
}

// ───────────────────────── the LRU cache of preprocessed chapters ─────────────────────────

#[verifier::external_type_specification]
#[verifier::external_body]
#[verifier::reject_recursive_types(K)]
#[verifier::reject_recursive_types(V)]
#[verifier::reject_recursive_types(S)]
pub struct ExLruCache<K, V, S>(lru::LruCache<K, V, S>);

#[verifier::external_type_specification]
#[verifier::external_body]
pub struct ExLruDefaultHasher(lru::DefaultHasher);

/// A cache key as plain values: book id, chapter index, rules hash.
pub type KeyView = (Seq<char>, usize, u64);

pub open spec fn key_view(k: CacheKey) -> KeyView {
    (k.book_id@, k.chapter_index, k.rules_hash)
}

/// The entries of an `lru::LruCache<CacheKey, String>`, most recently used first,
/// each key and value as plain values.
pub uninterp spec fn lru_entries(c: LruCache<CacheKey, String>) -> Seq<(KeyView, Seq<char>)>;

/// The capacity an `lru::LruCache` was made with.
pub uninterp spec fn lru_capacity(c: LruCache<CacheKey, String>) -> nat;

/// Position of the entry with key `k`, or -1.
pub open spec fn entry_index(e: Seq<(KeyView, Seq<char>)>, k: KeyView) -> int
    decreases e.len(),
{
    if e.len() == 0 {
        -1
    } else if e.last().0 == k {
        if entry_index(e.drop_last(), k) >= 0 {
            entry_index(e.drop_last(), k)
        } else {
            e.len() - 1
        }
    } else {
        entry_index(e.drop_last(), k)
    }
}

/// No key occurs twice.
pub open spec fn distinct_keys(e: Seq<(KeyView, Seq<char>)>) -> bool {
    forall|i: int, j: int| 0 <= i < j < e.len() ==> e[i].0 != e[j].0
}

/// Entries after a successful lookup of `k`: its entry moves to the front.
pub open spec fn touched(e: Seq<(KeyView, Seq<char>)>, k: KeyView) -> Seq<(KeyView, Seq<char>)> {
    let i = entry_index(e, k);
    if i >= 0 {
        seq![e[i]] + e.remove(i)
    } else {
        e
    }
}

/// Entries after `put(k, v)`: an existing entry is updated and moved to the front;
/// a new one goes to the front, the least recently used entry leaving first when
/// the cache is full.
pub open spec fn inserted(e: Seq<(KeyView, Seq<char>)>, k: KeyView, v: Seq<char>, cap: nat) -> Seq<
    (KeyView, Seq<char>),
> {
    let i = entry_index(e, k);
    if i >= 0 {
        seq![(k, v)] + e.remove(i)
    } else if e.len() >= cap {
        seq![(k, v)] + e.drop_last()
    } else {
        seq![(k, v)] + e
    }
}

/// Entries after `pop(k)`.
pub open spec fn removed(e: Seq<(KeyView, Seq<char>)>, k: KeyView) -> Seq<(KeyView, Seq<char>)> {
    let i = entry_index(e, k);
    if i >= 0 {
        e.remove(i)
    } else {
        e
    }
}

/// `LruCache::new` with capacity `cap`.
#[verifier::external_body]
fn lru_new(cap: usize) -> (c: LruCache<CacheKey, String>)
    requires
        cap > 0,
    ensures
        lru_entries(c) == Seq::<(KeyView, Seq<char>)>::empty(),
        lru_capacity(c) == cap,
{
    LruCache::new(std::num::NonZeroUsize::new(cap).unwrap())
}

/// `LruCache::get`, the value cloned into a `String`: on a hit the entry becomes
/// the most recently used.
#[verifier::external_body]
fn lru_get(c: &mut LruCache<CacheKey, String>, k: &CacheKey) -> (r: Option<String>)
    ensures
        lru_capacity(*final(c)) == lru_capacity(*old(c)),
        lru_entries(*final(c)) == touched(lru_entries(*old(c)), key_view(*k)),
        match r {
            Some(v) => entry_index(lru_entries(*old(c)), key_view(*k)) >= 0 && v@ == lru_entries(
                *old(c),
            )[entry_index(lru_entries(*old(c)), key_view(*k))].1,
            None => entry_index(lru_entries(*old(c)), key_view(*k)) < 0,
        },
{
    c.get(k).cloned()
}

/// `LruCache::put`.
#[verifier::external_body]
fn lru_put(c: &mut LruCache<CacheKey, String>, k: CacheKey, v: String)
    ensures
        lru_capacity(*final(c)) == lru_capacity(*old(c)),
        lru_entries(*final(c)) == inserted(
            lru_entries(*old(c)),
            key_view(k),
            v@,
            lru_capacity(*old(c)),
        ),
{
    c.put(k, v);
}

/// `LruCache::pop`: whether an entry was removed.
#[verifier::external_body]
fn lru_pop(c: &mut LruCache<CacheKey, String>, k: &CacheKey) -> (r: bool)
    ensures
        lru_capacity(*final(c)) == lru_capacity(*old(c)),
        lru_entries(*final(c)) == removed(lru_entries(*old(c)), key_view(*k)),
        r == (entry_index(lru_entries(*old(c)), key_view(*k)) >= 0),
{
    c.pop(k).is_some()
}

/// `LruCache::clear`.
#[verifier::external_body]
fn lru_clear(c: &mut LruCache<CacheKey, String>)
    ensures
        lru_capacity(*final(c)) == lru_capacity(*old(c)),
        lru_entries(*final(c)) == Seq::<(KeyView, Seq<char>)>::empty(),
{
    c.clear()
}

/// `LruCache::len`.
#[verifier::external_body]
fn lru_len(c: &LruCache<CacheKey, String>) -> (n: usize)
    ensures
        n == lru_entries(*c).len(),
{
    c.len()
}

/// Cache statistics.
#[derive(Debug, Clone, Copy, Default)]
pub struct CacheStats {
    pub hits: u64,
    pub misses: u64,
    pub evictions: u64,
    pub size: usize,
    pub capacity: usize,
}

/// LRU cache of preprocessed chapter content (default capacity: 20 chapters).
pub struct PreprocessedCache {
    cache: LruCache<CacheKey, String>,
    stats: CacheStats,
}

impl PreprocessedCache {
    /// The cached entries, most recently used first.
    pub closed spec fn entries(&self) -> Seq<(KeyView, Seq<char>)> {
        lru_entries(self.cache)
    }

    /// The number of entries the cache holds at most.
    pub closed spec fn capacity(&self) -> nat {
        lru_capacity(self.cache)
    }

    pub closed spec fn statistics(&self) -> CacheStats {
        self.stats
    }

    pub closed spec fn wf(&self) -> bool {
        &&& self.capacity() >= 1
        &&& self.stats.size == self.entries().len()
        &&& distinct_keys(self.entries())
        &&& self.entries().len() <= self.capacity()
    }

    /// A cache for 20 chapters.
    pub fn new() -> (c: PreprocessedCache)
        ensures
            c.wf(),
            c.entries().len() == 0,
            c.capacity() == 20,
            c.statistics() == (CacheStats { hits: 0, misses: 0, evictions: 0, size: 0, capacity: 20 }),
    {
        Self::with_capacity(20)
    }

    /// A cache for `capacity` chapters (at least one).
    pub fn with_capacity(capacity: usize) -> (c: PreprocessedCache)
        ensures
            c.wf(),
            c.entries().len() == 0,
            c.capacity() == if capacity == 0 { 1 } else { capacity },
            c.statistics() == (CacheStats { hits: 0, misses: 0, evictions: 0, size: 0, capacity }),
    {
        let cap = if capacity == 0 { 1 } else { capacity };
        let stats = CacheStats { hits: 0, misses: 0, evictions: 0, size: 0, capacity };
        PreprocessedCache { cache: lru_new(cap), stats }
    }

    /// The content cached under `key`; a hit makes the entry the most recently used
    /// and counts a hit, a miss counts a miss (counters wrap around).
    pub fn get(&mut self, key: &CacheKey) -> (r: Option<String>)
        requires
            old(self).wf(),
        ensures
            final(self).wf(),
            final(self).capacity() == old(self).capacity(),
            final(self).entries() == touched(old(self).entries(), key_view(*key)),
            match r {
                Some(v) => entry_index(old(self).entries(), key_view(*key)) >= 0 && v@ == old(
                    self,
                ).entries()[entry_index(old(self).entries(), key_view(*key))].1,
                None => entry_index(old(self).entries(), key_view(*key)) < 0,
            },
            final(self).statistics() == if r is Some {
                CacheStats { hits: old(self).statistics().hits.wrapping_add(1), ..old(self).statistics() }
            } else {
                CacheStats { misses: old(self).statistics().misses.wrapping_add(1), ..old(self).statistics() }
            },
    {
        let r = lru_get(&mut self.cache, key);
        proof {
            lemma_touched_len(old(self).entries(), key_view(*key));
            lemma_touched_distinct(old(self).entries(), key_view(*key));
        }
        if r.is_some() {
            self.stats.hits = self.stats.hits.wrapping_add(1);
        } else {
            self.stats.misses = self.stats.misses.wrapping_add(1);
        }
        r
    }

    /// Caches `content` under `key`.
    pub fn put(&mut self, key: CacheKey, content: String)
        requires
            old(self).wf(),
        ensures
            final(self).wf(),
            final(self).capacity() == old(self).capacity(),
            final(self).entries() == inserted(
                old(self).entries(),
                key_view(key),
                content@,
                old(self).capacity(),
            ),
            final(self).statistics() == (CacheStats {
                size: final(self).entries().len() as usize,
                ..old(self).statistics()
            }),
    {
        let ghost kv = key_view(key);
        let ghost cv = content@;
        lru_put(&mut self.cache, key, content);
        proof {
            lemma_inserted_wf(old(self).entries(), kv, cv, old(self).capacity());
        }
        self.stats.size = lru_len(&self.cache);
    }

    /// Removes the entry of `key`; whether there was one.
    pub fn remove(&mut self, key: &CacheKey) -> (b: bool)
        requires
            old(self).wf(),
        ensures
            final(self).wf(),
            final(self).capacity() == old(self).capacity(),
            final(self).entries() == removed(old(self).entries(), key_view(*key)),
            b == (entry_index(old(self).entries(), key_view(*key)) >= 0),
            final(self).statistics() == (CacheStats {
                size: final(self).entries().len() as usize,
                ..old(self).statistics()
            }),
    {
        let b = lru_pop(&mut self.cache, key);
        proof {
            lemma_removed_distinct(old(self).entries(), key_view(*key));
        }
        if b {
            self.stats.size = lru_len(&self.cache);
        } else {
            proof {
                lemma_removed_absent(old(self).entries(), key_view(*key));
            }
        }
        b
    }

    /// Removes every entry.
    pub fn clear(&mut self)
        requires
            old(self).wf(),
        ensures
            final(self).wf(),
            final(self).capacity() == old(self).capacity(),
            final(self).entries().len() == 0,
            final(self).statistics() == (CacheStats { size: 0, ..old(self).statistics() }),
    {
        lru_clear(&mut self.cache);
        self.stats.size = 0;
    }

    /// The statistics.
    pub fn stats(&self) -> (s: CacheStats)
        ensures
            s == self.statistics(),
    {
        self.stats
    }

    /// Number of cached entries.
    pub fn len(&self) -> (n: usize)
        ensures
            n == self.entries().len(),
    {
        lru_len(&self.cache)
    }

    /// Whether the cache is empty.
    pub fn is_empty(&self) -> (b: bool)
        ensures
            b == (self.entries().len() == 0),
    {
        lru_len(&self.cache) == 0
    }
}

proof fn lemma_entry_index_range(e: Seq<(KeyView, Seq<char>)>, k: KeyView)
    ensures
        -1 <= entry_index(e, k) < e.len(),
        entry_index(e, k) >= 0 ==> e[entry_index(e, k)].0 == k,
        entry_index(e, k) < 0 ==> forall|j: int| 0 <= j < e.len() ==> e[j].0 != k,
        entry_index(e, k) >= 0 ==> forall|j: int| 0 <= j < entry_index(e, k) ==> e[j].0 != k,
    decreases e.len(),
{
    if e.len() > 0 {
        lemma_entry_index_range(e.drop_last(), k);
        assert forall|j: int| 0 <= j < e.len() - 1 implies e[j] == e.drop_last()[j] by {}
    }
}

proof fn lemma_touched_len(e: Seq<(KeyView, Seq<char>)>, k: KeyView)
    ensures
        touched(e, k).len() == e.len(),
{
    lemma_entry_index_range(e, k);
}

proof fn lemma_touched_distinct(e: Seq<(KeyView, Seq<char>)>, k: KeyView)
    requires
        distinct_keys(e),
    ensures
        distinct_keys(touched(e, k)),
{
    lemma_entry_index_range(e, k);
    let i = entry_index(e, k);
    if i >= 0 {
        let t = touched(e, k);
        let r = e.remove(i);
        assert forall|a: int, b: int| 0 <= a < b < t.len() implies t[a].0 != t[b].0 by {
            let ea = if a == 0 { i } else if a - 1 < i { a - 1 } else { a };
            let eb = if b - 1 < i { b - 1 } else { b };
            assert(t[a] == e[ea]);
            assert(t[b] == e[eb]);
            assert(ea != eb);
        }
    }
}

proof fn lemma_removed_distinct(e: Seq<(KeyView, Seq<char>)>, k: KeyView)
    requires
        distinct_keys(e),
    ensures
        distinct_keys(removed(e, k)),
        removed(e, k).len() <= e.len(),
{
    lemma_entry_index_range(e, k);
    let i = entry_index(e, k);
    if i >= 0 {
        let r = removed(e, k);
        assert forall|a: int, b: int| 0 <= a < b < r.len() implies r[a].0 != r[b].0 by {
            let ea = if a < i { a } else { a + 1 };
            let eb = if b < i { b } else { b + 1 };
            assert(r[a] == e[ea]);
            assert(r[b] == e[eb]);
        }
    }
}

proof fn lemma_inserted_wf(e: Seq<(KeyView, Seq<char>)>, k: KeyView, v: Seq<char>, cap: nat)
    requires
        distinct_keys(e),
        e.len() <= cap,
        cap >= 1,
    ensures
        distinct_keys(inserted(e, k, v, cap)),
        inserted(e, k, v, cap).len() <= cap,
{
    lemma_entry_index_range(e, k);
    let i = entry_index(e, k);
    let n = inserted(e, k, v, cap);
    let rest = if i >= 0 { e.remove(i) } else if e.len() >= cap { e.drop_last() } else { e };
    assert(n == seq![(k, v)] + rest);
    assert forall|j: int| 0 <= j < rest.len() implies rest[j].0 != k by {
        if i >= 0 {
            if j < i {
                assert(rest[j] == e[j]);
            } else {
                assert(rest[j] == e[j + 1]);
                assert(e[j + 1].0 != e[i].0);
            }
        } else {
            assert(rest[j] == e[j]);
        }
    }
    assert forall|a: int, b: int| 0 <= a < b < rest.len() implies rest[a].0 != rest[b].0 by {
        if i >= 0 {
            let ea = if a < i { a } else { a + 1 };
            let eb = if b < i { b } else { b + 1 };
            assert(rest[a] == e[ea]);
            assert(rest[b] == e[eb]);
        } else {
            assert(rest[a] == e[a]);
            assert(rest[b] == e[b]);
        }
    }
    assert forall|a: int, b: int| 0 <= a < b < n.len() implies n[a].0 != n[b].0 by {
        assert(n[b] == rest[b - 1]);
        if a > 0 {
            assert(n[a] == rest[a - 1]);
        }
    }
}

proof fn lemma_removed_absent(e: Seq<(KeyView, Seq<char>)>, k: KeyView)
    requires
        entry_index(e, k) < 0,
    ensures
        removed(e, k) == e,
{
}

/// A read gives back what a write wrote: right after `put(k, v)`, `k` is found
/// (as the most recently used entry) with the value `v`.
pub proof fn lemma_get_after_put(e: Seq<(KeyView, Seq<char>)>, k: KeyView, v: Seq<char>, cap: nat)
    requires
        cap >= 1,
    ensures
        entry_index(inserted(e, k, v, cap), k) == 0,
        inserted(e, k, v, cap)[0] == (k, v),
{
    let n = inserted(e, k, v, cap);
    lemma_entry_index_range(n, k);
    lemma_entry_index_range(e, k);
    assert(n[0] == (k, v));
    if entry_index(n, k) > 0 {
        assert(n[0].0 != k);
    }
}

/// After `remove(k)`, `k` is not found.
pub proof fn lemma_get_after_remove(e: Seq<(KeyView, Seq<char>)>, k: KeyView)
    requires
        forall|i: int, j: int| 0 <= i < j < e.len() ==> e[i].0 != e[j].0,
    ensures
        entry_index(removed(e, k), k) < 0,
{
    lemma_entry_index_range(e, k);
    let r = removed(e, k);
    lemma_entry_index_range(r, k);
    if entry_index(e, k) >= 0 {
        let i = entry_index(e, k);
        assert forall|j: int| 0 <= j < r.len() implies r[j].0 != k by {
            if j < i {
                assert(r[j] == e[j]);
            } else {
                assert(r[j] == e[j + 1]);
                assert(e[j + 1].0 != e[i].0);
            }
        }
    }
}

} // verus!
