//! The memory tier of the cache: a least-recently-used map from canonical
//! root path to a shared scan result, bounded both by entry count and by
//! estimated byte size. The recency structure itself comes from the `lru`
//! crate; every decision around it is verified against a sequence model
//! whose first element is the most recently used entry.
use vstd::prelude::*;

verus! {

use crate::item::{ArcScanResult, ScanResult};
use crate::pathutil::is_prefix;
use vstd::utf8::encode_utf8;

/// One memory-cache entry: the shared result, the root directory's
/// modification time (seconds since the epoch) when it was cached, and
/// its estimated size in bytes.
#[derive(Clone, Debug)]
pub struct CacheEntry {
    pub result: ArcScanResult,
    pub dir_mtime: i64,
    pub size: usize,
}

#[verifier::external_type_specification]
#[verifier::external_body]
#[verifier::reject_recursive_types(K)]
#[verifier::reject_recursive_types(V)]
#[verifier::reject_recursive_types(S)]
pub struct ExLruCache<K, V, S>(lru::LruCache<K, V, S>);

/// What the cache holds, most recently used first.
pub uninterp spec fn lru_entries(c: &lru::LruCache<String, CacheEntry>) -> Seq<(String, CacheEntry)>;

/// The capacity the cache was created with.
pub uninterp spec fn lru_cap(c: &lru::LruCache<String, CacheEntry>) -> nat;

/// The first position holding the key `k`, or -1.
pub open spec fn index_of_key(m: Seq<(String, CacheEntry)>, k: Seq<char>) -> int
    decreases m.len(),
{
    if m.len() == 0 {
        -1
    } else if m[0].0@ == k {
        0
    } else {
        let r = index_of_key(m.drop_first(), k);
        if r == -1 {
            -1
        } else {
            r + 1
        }
    }
}

pub proof fn lemma_index_of_key(m: Seq<(String, CacheEntry)>, k: Seq<char>)
    ensures
        -1 <= index_of_key(m, k) < m.len(),
        index_of_key(m, k) >= 0 ==> m[index_of_key(m, k)].0@ == k,
        index_of_key(m, k) >= 0 ==> forall|j: int|
            0 <= j < index_of_key(m, k) ==> m[j].0@ != k,
        index_of_key(m, k) == -1 ==> forall|j: int| 0 <= j < m.len() ==> m[j].0@ != k,
    decreases m.len(),
{
    if m.len() > 0 && m[0].0@ != k {
        lemma_index_of_key(m.drop_first(), k);
        assert(forall|j: int| 1 <= j < m.len() ==> m[j] == m.drop_first()[j - 1]);
    }
}

/// The estimated bytes held, summed over all entries.
pub open spec fn total_bytes(m: Seq<(String, CacheEntry)>) -> int
    decreases m.len(),
{
    if m.len() == 0 {
        0
    } else {
        total_bytes(m.drop_last()) + m.last().1.size
    }
}

/// No key occurs twice.
pub open spec fn distinct_keys(m: Seq<(String, CacheEntry)>) -> bool {
    forall|i: int, j: int| 0 <= i < j < m.len() ==> m[i].0@ != m[j].0@
}

pub proof fn lemma_total_bytes_nonneg(m: Seq<(String, CacheEntry)>)
    ensures
        0 <= total_bytes(m),
    decreases m.len(),
{
    if m.len() > 0 {
        lemma_total_bytes_nonneg(m.drop_last());
    }
}

/// Removing one entry subtracts exactly its size.
pub proof fn lemma_total_bytes_remove(m: Seq<(String, CacheEntry)>, i: int)
    requires
        0 <= i < m.len(),
    ensures
        total_bytes(m.remove(i)) == total_bytes(m) - m[i].1.size,
    decreases m.len(),
{
    if i == m.len() - 1 {
        assert(m.remove(i) =~= m.drop_last());
    } else {
        assert(m.remove(i).drop_last() =~= m.drop_last().remove(i));
        assert(m.remove(i).last() == m.last());
        lemma_total_bytes_remove(m.drop_last(), i);
    }
}

/// Inserting at the front adds exactly the new entry's size.
pub proof fn lemma_total_bytes_insert0(m: Seq<(String, CacheEntry)>, kv: (String, CacheEntry))
    ensures
        total_bytes(m.insert(0, kv)) == total_bytes(m) + kv.1.size,
    decreases m.len(),
{
    if m.len() == 0 {
        assert(m.insert(0, kv) =~= seq![kv]);
        assert(seq![kv].drop_last() =~= Seq::<(String, CacheEntry)>::empty());
        assert(total_bytes(Seq::<(String, CacheEntry)>::empty()) == 0);
        assert(seq![kv].last() == kv);
        assert(total_bytes(seq![kv]) == total_bytes(seq![kv].drop_last()) + kv.1.size);
        assert(total_bytes(m) == 0);
    } else {
        assert(m.insert(0, kv).drop_last() =~= m.drop_last().insert(0, kv));
        assert(m.insert(0, kv).last() == m.last());
        lemma_total_bytes_insert0(m.drop_last(), kv);
    }
}

/// Relies on `lru::LruCache::new`: a fresh cache is empty and remembers
/// its capacity.
#[verifier::external_body]
fn lru_new(cap: usize) -> (c: lru::LruCache<String, CacheEntry>)
    requires
        cap >= 1,
    ensures
        lru_entries(&c) == Seq::<(String, CacheEntry)>::empty(),
        lru_cap(&c) == cap as nat,
{
    lru::LruCache::new(std::num::NonZeroUsize::new(cap).unwrap())
}

/// Relies on `lru::LruCache::get`: on a hit the entry moves to the head
/// of the recency order and a copy of its value is returned; on a miss
/// nothing changes.
#[verifier::external_body]
fn lru_get(c: &mut lru::LruCache<String, CacheEntry>, k: &String) -> (r: Option<CacheEntry>)
    ensures
        lru_cap(&*final(c)) == lru_cap(&*old(c)),
        match r {
            None => {
                &&& index_of_key(lru_entries(&*old(c)), k@) == -1
                &&& lru_entries(&*final(c)) == lru_entries(&*old(c))
            },
            Some(v) => {
                let m = lru_entries(&*old(c));
                let i = index_of_key(m, k@);
                &&& 0 <= i < m.len()
                &&& v == m[i].1
                &&& lru_entries(&*final(c)) == m.remove(i).insert(0, m[i])
            },
        },
{
    c.get(k).cloned()
}

/// Relies on `lru::LruCache::put`: an existing key is updated and moved
/// to the head; a new key is inserted at the head, evicting the
/// least-recently-used entry when the cache is at capacity.
#[verifier::external_body]
fn lru_put(c: &mut lru::LruCache<String, CacheEntry>, k: String, v: CacheEntry)
    requires
        lru_entries(&*old(c)).len() <= lru_cap(&*old(c)),
    ensures
        lru_cap(&*final(c)) == lru_cap(&*old(c)),
        ({
            let m = lru_entries(&*old(c));
            let i = index_of_key(m, k@);
            let pair = (k, v);
            lru_entries(&*final(c)) == if 0 <= i < m.len() {
                m.remove(i).insert(0, pair)
            } else if m.len() == lru_cap(&*old(c)) {
                m.drop_last().insert(0, pair)
            } else {
                m.insert(0, pair)
            }
        }),
{
    c.put(k, v);
}

/// Relies on `lru::LruCache::pop_lru`: removes and returns the
/// least-recently-used entry, the tail of the recency order.
#[verifier::external_body]
fn lru_pop_lru(c: &mut lru::LruCache<String, CacheEntry>) -> (r: Option<(String, CacheEntry)>)
    ensures
        lru_cap(&*final(c)) == lru_cap(&*old(c)),
        match r {
            None => {
                &&& lru_entries(&*old(c)).len() == 0
                &&& lru_entries(&*final(c)) == lru_entries(&*old(c))
            },
            Some(kv) => {
                let m = lru_entries(&*old(c));
                &&& m.len() > 0
                &&& kv == m.last()
                &&& lru_entries(&*final(c)) == m.drop_last()
            },
        },
{
    c.pop_lru()
}

/// Relies on `lru::LruCache::pop`: removes the entry for a key, leaving
/// the rest in order.
#[verifier::external_body]
fn lru_pop(c: &mut lru::LruCache<String, CacheEntry>, k: &String) -> (r: Option<CacheEntry>)
    ensures
        lru_cap(&*final(c)) == lru_cap(&*old(c)),
        match r {
            None => {
                &&& index_of_key(lru_entries(&*old(c)), k@) == -1
                &&& lru_entries(&*final(c)) == lru_entries(&*old(c))
            },
            Some(v) => {
                let m = lru_entries(&*old(c));
                let i = index_of_key(m, k@);
                &&& 0 <= i < m.len()
                &&& v == m[i].1
                &&& lru_entries(&*final(c)) == m.remove(i)
            },
        },
{
    c.pop(k)
}

/// Relies on `lru::LruCache::peek`: a copy of the value for a key,
/// without touching the recency order.
#[verifier::external_body]
fn lru_peek(c: &lru::LruCache<String, CacheEntry>, k: &String) -> (r: Option<CacheEntry>)
    ensures
        match r {
            None => index_of_key(lru_entries(c), k@) == -1,
            Some(v) => {
                let m = lru_entries(c);
                let i = index_of_key(m, k@);
                &&& 0 <= i < m.len()
                &&& v == m[i].1
            },
        },
{
    c.peek(k).cloned()
}

/// Relies on `lru::LruCache::len`.
#[verifier::external_body]
fn lru_len(c: &lru::LruCache<String, CacheEntry>) -> (r: usize)
    ensures
        r == lru_entries(c).len(),
{
    c.len()
}

/// Relies on `lru::LruCache::iter`: the entries in most-recently-used
/// order, copied out without touching recency.
#[verifier::external_body]
fn lru_entries_vec(c: &lru::LruCache<String, CacheEntry>) -> (r: Vec<(String, CacheEntry)>)
    ensures
        r@ == lru_entries(c),
{
    c.iter().map(|(k, v)| (k.clone(), v.clone())).collect()
}

/// The estimated size of one item: its three strings plus a fixed
/// per-item overhead.
pub open spec fn est_item(it: crate::item::Item) -> int {
    (encode_utf8(it.path@).len() as usize) as int + (encode_utf8(it.name@).len() as usize) as int
        + (encode_utf8(it.size_formatted@).len() as usize) as int + 64
}

/// The estimated size of an item list.
pub open spec fn est_items(s: Seq<crate::item::Item>) -> int
    decreases s.len(),
{
    if s.len() == 0 {
        0
    } else {
        est_items(s.drop_last()) + est_item(s.last())
    }
}

pub proof fn lemma_est_items_nonneg(s: Seq<crate::item::Item>)
    ensures
        0 <= est_items(s),
    decreases s.len(),
{
    if s.len() > 0 {
        lemma_est_items_nonneg(s.drop_last());
    }
}

/// An integer clamped into `usize`.
pub open spec fn clamp_usize(x: int) -> int {
    if x > usize::MAX {
        usize::MAX as int
    } else {
        x
    }
}

/// The estimate a cached result is charged with.
pub open spec fn est_result(items: Seq<crate::item::Item>) -> int {
    clamp_usize(est_items(items) + 8)
}

/// Estimates the bytes a cached result occupies: the items' strings plus
/// fixed overheads, saturating at `usize::MAX`.
pub fn estimate_size(result: &ArcScanResult) -> (r: usize)
    ensures
        r == est_result(result.items@),
{
    let items: &Vec<crate::item::Item> = &*result.items;
    let ghost s = items@;
    let mut acc: usize = 0;
    let mut i: usize = 0;
    while i < items.len()
        invariant
            s == items@,
            i <= s.len(),
            acc == clamp_usize(est_items(s.subrange(0, i as int))),
        decreases items.len() - i,
    {
        proof {
            assert(s.subrange(0, i + 1).drop_last() =~= s.subrange(0, i as int));
            assert(s.subrange(0, i + 1).last() == s[i as int]);
            lemma_est_items_nonneg(s.subrange(0, i as int));
        }
        let it = &items[i];
        acc = acc.saturating_add(it.path.as_str().len()).saturating_add(
            it.name.as_str().len(),
        ).saturating_add(it.size_formatted.as_str().len()).saturating_add(64);
        i = i + 1;
    }
    proof {
        assert(s.subrange(0, s.len() as int) =~= s);
        lemma_est_items_nonneg(s);
    }
    acc.saturating_add(8)
}

/// The model left after evicting least-recently-used entries until a new
/// entry of `need` bytes fits under `max`.
pub open spec fn evict_until_fits(
    m: Seq<(String, CacheEntry)>,
    need: int,
    max: int,
) -> Seq<(String, CacheEntry)>
    decreases m.len(),
{
    if total_bytes(m) + need <= max || m.len() == 0 {
        m
    } else {
        evict_until_fits(m.drop_last(), need, max)
    }
}

/// What the eviction pass guarantees: it keeps a prefix of the recency
/// order, and when the new entry can fit at all, enough was evicted for
/// it to fit.
pub proof fn lemma_evict_until_fits(m: Seq<(String, CacheEntry)>, need: int, max: int)
    ensures
        evict_until_fits(m, need, max) == m.subrange(0, evict_until_fits(m, need, max).len() as int),
        evict_until_fits(m, need, max).len() <= m.len(),
        0 <= need <= max ==> total_bytes(evict_until_fits(m, need, max)) + need <= max,
    decreases m.len(),
{
    let r = evict_until_fits(m, need, max);
    if total_bytes(m) + need <= max || m.len() == 0 {
        assert(m.subrange(0, m.len() as int) =~= m);
        if m.len() == 0 {
            assert(total_bytes(m) == 0);
        }
    } else {
        lemma_evict_until_fits(m.drop_last(), need, max);
        assert(m.drop_last().subrange(0, r.len() as int) =~= m.subrange(0, r.len() as int));
    }
}

/// Where a fresh entry lands: an existing key is updated in place at the
/// head; a new key goes to the head, displacing the tail at capacity.
pub open spec fn put_model(
    m: Seq<(String, CacheEntry)>,
    pair: (String, CacheEntry),
    cap: int,
) -> Seq<(String, CacheEntry)> {
    let i = index_of_key(m, pair.0@);
    if 0 <= i < m.len() {
        m.remove(i).insert(0, pair)
    } else if m.len() >= cap {
        m.drop_last().insert(0, pair)
    } else {
        m.insert(0, pair)
    }
}

/// Distinct keys survive removing an entry.
pub proof fn lemma_distinct_remove(m: Seq<(String, CacheEntry)>, i: int)
    requires
        distinct_keys(m),
        0 <= i < m.len(),
    ensures
        distinct_keys(m.remove(i)),
{
    let r = m.remove(i);
    assert forall|a: int, b: int| 0 <= a < b < r.len() implies r[a].0@ != r[b].0@ by {
        let a0 = if a < i {
            a
        } else {
            a + 1
        };
        let b0 = if b < i {
            b
        } else {
            b + 1
        };
        assert(r[a] == m[a0] && r[b] == m[b0]);
    }
}

/// Distinct keys survive dropping the tail.
pub proof fn lemma_distinct_drop_last(m: Seq<(String, CacheEntry)>)
    requires
        distinct_keys(m),
        m.len() > 0,
    ensures
        distinct_keys(m.drop_last()),
{
}

/// Distinct keys survive inserting a key that is not present.
pub proof fn lemma_distinct_insert0(m: Seq<(String, CacheEntry)>, pair: (String, CacheEntry))
    requires
        distinct_keys(m),
        forall|j: int| 0 <= j < m.len() ==> m[j].0@ != pair.0@,
    ensures
        distinct_keys(m.insert(0, pair)),
{
    let r = m.insert(0, pair);
    assert forall|a: int, b: int| 0 <= a < b < r.len() implies r[a].0@ != r[b].0@ by {
        if a > 0 {
            assert(r[a] == m[a - 1] && r[b] == m[b - 1]);
        } else {
            assert(r[b] == m[b - 1]);
        }
    }
}

/// A prefix of a distinct-key, bounded-size model is one too.
pub proof fn lemma_wf_prefix(m: Seq<(String, CacheEntry)>, n: int)
    requires
        0 <= n <= m.len(),
        distinct_keys(m),
    ensures
        distinct_keys(m.subrange(0, n)),
        total_bytes(m.subrange(0, n)) <= total_bytes(m),
    decreases m.len() - n,
{
    if n == m.len() {
        assert(m.subrange(0, n) =~= m);
    } else {
        assert(m.subrange(0, n + 1).drop_last() =~= m.subrange(0, n));
        lemma_total_bytes_nonneg(m.subrange(0, n));
        lemma_wf_prefix(m, n + 1);
        assert(total_bytes(m.subrange(0, n + 1)) == total_bytes(m.subrange(0, n))
            + m.subrange(0, n + 1).last().1.size);
    }
}

/// The entries left after dropping every key that starts with `p`,
/// in their original order.
pub open spec fn drop_prefixed(m: Seq<(String, CacheEntry)>, p: Seq<char>) -> Seq<
    (String, CacheEntry),
>
    decreases m.len(),
{
    if m.len() == 0 {
        Seq::empty()
    } else {
        drop_prefixed(m.drop_last(), p) + (if is_prefix(p, m.last().0@) {
            Seq::empty()
        } else {
            seq![m.last()]
        })
    }
}

/// Counts of the memory tier, for its statistics view.
pub struct MemoryCacheStats {
    pub max_entries: usize,
    pub max_size_mb: usize,
    pub current_entries: usize,
    pub current_size_bytes: usize,
}

/// The memory cache: an LRU map bounded by entry count (enforced by the
/// LRU structure itself) and by estimated bytes (enforced by the insert
/// path's eviction loop).
pub struct ScanCache {
    cache: lru::LruCache<String, CacheEntry>,
    max_entries: usize,
    max_size_mb: usize,
    max_size_bytes: usize,
}

impl ScanCache {
    /// The cached entries, most recently used first.
    pub closed spec fn model(&self) -> Seq<(String, CacheEntry)> {
        lru_entries(&self.cache)
    }

    pub closed spec fn spec_max_entries(&self) -> usize {
        self.max_entries
    }

    pub closed spec fn spec_max_size_bytes(&self) -> usize {
        self.max_size_bytes
    }

    /// Both capacity bounds hold and no key is cached twice.
    pub closed spec fn wf(&self) -> bool {
        &&& lru_cap(&self.cache) == self.max_entries as nat
        &&& self.max_entries >= 1
        &&& self.model().len() <= self.max_entries
        &&& total_bytes(self.model()) <= self.max_size_bytes
        &&& distinct_keys(self.model())
    }

    /// An empty cache holding at most `max_entries` results and at most
    /// `max_size_mb` estimated megabytes.
    pub fn new(max_entries: usize, max_size_mb: usize) -> (r: ScanCache)
        requires
            max_entries >= 1,
        ensures
            r.wf(),
            r.model() == Seq::<(String, CacheEntry)>::empty(),
            r.spec_max_entries() == max_entries,
            r.spec_max_size_bytes() == clamp_usize(max_size_mb * 1048576),
    {
        ScanCache {
            cache: lru_new(max_entries),
            max_entries,
            max_size_mb,
            max_size_bytes: mb_to_bytes(max_size_mb),
        }
    }

    /// Looks a root path up without touching recency.
    pub fn peek(&self, path: &String) -> (r: Option<CacheEntry>)
        ensures
            match r {
                None => index_of_key(self.model(), path@) == -1,
                Some(e) => {
                    let m = self.model();
                    let i = index_of_key(m, path@);
                    &&& 0 <= i < m.len()
                    &&& e == m[i].1
                },
            },
    {
        lru_peek(&self.cache, path)
    }

    /// Looks a root path up; a hit hands back the entry and refreshes its
    /// recency.
    pub fn get(&mut self, path: &String) -> (r: Option<CacheEntry>)
        requires
            old(self).wf(),
        ensures
            final(self).wf(),
            final(self).spec_max_entries() == old(self).spec_max_entries(),
            final(self).spec_max_size_bytes() == old(self).spec_max_size_bytes(),
            match r {
                None => {
                    &&& index_of_key(old(self).model(), path@) == -1
                    &&& final(self).model() == old(self).model()
                },
                Some(e) => {
                    let m = old(self).model();
                    let i = index_of_key(m, path@);
                    &&& 0 <= i < m.len()
                    &&& e == m[i].1
                    &&& final(self).model() == m.remove(i).insert(0, m[i])
                },
            },
    {
        let ghost m = self.model();
        let r = lru_get(&mut self.cache, path);
        proof {
            if r is Some {
                let i = index_of_key(m, path@);
                lemma_index_of_key(m, path@);
                lemma_total_bytes_remove(m, i);
                lemma_total_bytes_insert0(m.remove(i), m[i]);
                lemma_distinct_remove(m, i);
                lemma_distinct_insert0(m.remove(i), m[i]);
            }
        }
        r
    }

    /// Caches an already-built entry under a root path. The entry is
    /// refused outright when it alone exceeds the size bound, so the
    /// bound always holds; otherwise least-recently-used entries leave
    /// until it fits, and the LRU structure itself displaces the tail
    /// when the entry count is at its cap.
    pub fn insert_entry(&mut self, path: String, entry: CacheEntry)
        requires
            old(self).wf(),
        ensures
            final(self).wf(),
            final(self).spec_max_entries() == old(self).spec_max_entries(),
            final(self).spec_max_size_bytes() == old(self).spec_max_size_bytes(),
            final(self).model() == if entry.size > old(self).spec_max_size_bytes() {
                old(self).model()
            } else {
                put_model(
                    evict_until_fits(
                        old(self).model(),
                        entry.size as int,
                        old(self).spec_max_size_bytes() as int,
                    ),
                    (path, entry),
                    old(self).spec_max_entries() as int,
                )
            },
    {
        let ghost m0 = self.model();
        if entry.size > self.max_size_bytes {
            return ;
        }
        let mut total = self.current_total();
        while (total as u128) + (entry.size as u128) > self.max_size_bytes as u128
            && !self.is_empty_cache()
            invariant
                self.wf(),
                self.max_entries == old(self).max_entries,
                self.max_size_bytes == old(self).max_size_bytes,
                self.max_size_mb == old(self).max_size_mb,
                lru_cap(&self.cache) == self.max_entries as nat,
                entry.size <= self.max_size_bytes,
                total == total_bytes(self.model()),
                evict_until_fits(m0, entry.size as int, self.max_size_bytes as int)
                    == evict_until_fits(
                    self.model(),
                    entry.size as int,
                    self.max_size_bytes as int,
                ),
            decreases self.model().len(),
        {
            proof {
                lemma_total_bytes_nonneg(self.model());
                lemma_total_bytes_nonneg(self.model().drop_last());
            }
            let ghost prev = self.model();
            let popped = lru_pop_lru(&mut self.cache);
            match popped {
                Some(kv) => {
                    total = total - kv.1.size;
                },
                None => {
                },
            }
            proof {
                assert(evict_until_fits(prev, entry.size as int, self.max_size_bytes as int)
                    == evict_until_fits(
                    self.model(),
                    entry.size as int,
                    self.max_size_bytes as int,
                ));
            }
        }
        proof {
            assert(total_bytes(self.model()) + entry.size <= self.max_size_bytes
                || self.model().len() == 0);
            assert(evict_until_fits(self.model(), entry.size as int, self.max_size_bytes as int)
                == self.model());
        }
        proof {
            lemma_total_bytes_nonneg(self.model());
            assert(self.model() == evict_until_fits(
                m0,
                entry.size as int,
                self.max_size_bytes as int,
            ));
            lemma_index_of_key(self.model(), path@);
        }
        let ghost evicted = self.model();
        let ghost pair = (path, entry);
        let ghost i = index_of_key(evicted, path@);
        lru_put(&mut self.cache, path, entry);
        proof {
            if 0 <= i < evicted.len() {
                lemma_total_bytes_remove(evicted, i);
                lemma_total_bytes_insert0(evicted.remove(i), pair);
                lemma_distinct_remove(evicted, i);
                lemma_index_of_key(evicted.remove(i), pair.0@);
                assert forall|j: int| 0 <= j < evicted.remove(i).len() implies evicted.remove(
                    i,
                )[j].0@ != pair.0@ by {
                    let j0 = if j < i {
                        j
                    } else {
                        j + 1
                    };
                    assert(evicted.remove(i)[j] == evicted[j0]);
                }
                lemma_distinct_insert0(evicted.remove(i), pair);
            } else if evicted.len() == self.max_entries {
                lemma_total_bytes_nonneg(evicted.drop_last());
                assert(total_bytes(evicted) == total_bytes(evicted.drop_last())
                    + evicted.last().1.size);
                lemma_total_bytes_insert0(evicted.drop_last(), pair);
                lemma_distinct_drop_last(evicted);
                lemma_distinct_insert0(evicted.drop_last(), pair);
            } else {
                lemma_total_bytes_insert0(evicted, pair);
                lemma_distinct_insert0(evicted, pair);
            }
        }
    }

    /// Caches a scan result under its canonical root path, with the
    /// modification time the root had when it was scanned.
    pub fn insert(&mut self, path: String, result: &ScanResult, dir_mtime: i64)
        requires
            old(self).wf(),
        ensures
            final(self).wf(),
            final(self).spec_max_entries() == old(self).spec_max_entries(),
            final(self).spec_max_size_bytes() == old(self).spec_max_size_bytes(),
            exists|e: CacheEntry|
                {
                    &&& e.dir_mtime == dir_mtime
                    &&& e.size == est_result(result.items@)
                    &&& e.result.items@ == result.items@
                    &&& e.result.total_size == result.total_size
                    &&& e.result.total_size_formatted@ == result.total_size_formatted@
                    &&& e.result.scan_time_ms == result.scan_time_ms
                    &&& e.result.timing == result.timing
                    &&& e.result.path@ == result.path@
                    &&& final(self).model() == if e.size > old(self).spec_max_size_bytes() {
                        old(self).model()
                    } else {
                        put_model(
                            evict_until_fits(
                                old(self).model(),
                                e.size as int,
                                old(self).spec_max_size_bytes() as int,
                            ),
                            (path, e),
                            old(self).spec_max_entries() as int,
                        )
                    }
                },
    {
        let arc = ArcScanResult::of_result(result);
        let size = estimate_size(&arc);
        let entry = CacheEntry { result: arc, dir_mtime, size };
        let ghost witness = entry;
        let ghost m_before = self.model();
        self.insert_entry(path, entry);
        proof {
            assert(witness.dir_mtime == dir_mtime);
            assert(witness.size == est_result(result.items@));
            assert(witness.result.items@ == result.items@);
            assert(witness.result.total_size_formatted@ == result.total_size_formatted@);
            assert(witness.result.timing == result.timing);
            assert(self.model() == if witness.size > old(self).spec_max_size_bytes() {
                old(self).model()
            } else {
                put_model(
                    evict_until_fits(
                        old(self).model(),
                        witness.size as int,
                        old(self).spec_max_size_bytes() as int,
                    ),
                    (path, witness),
                    old(self).spec_max_entries() as int,
                )
            });
        }
    }

    /// Removes the entry for `path` and for every key below it.
    pub fn invalidate(&mut self, path: &str)
        requires
            old(self).wf(),
        ensures
            final(self).wf(),
            final(self).spec_max_entries() == old(self).spec_max_entries(),
            final(self).spec_max_size_bytes() == old(self).spec_max_size_bytes(),
            final(self).model() == drop_prefixed(old(self).model(), path@),
    {
        let ghost m0 = self.model();
        let snapshot = lru_entries_vec(&self.cache);
        let ghost snap = snapshot@;
        let mut i: usize = 0;
        proof {
            assert(kept_then_rest(snap, path@, 0) =~= snap);
        }
        while i < snapshot.len()
            invariant
                snap == snapshot@,
                snap == m0,
                distinct_keys(snap),
                i <= snap.len(),
                old(self).wf(),
                self.max_entries == old(self).max_entries,
                self.max_size_bytes == old(self).max_size_bytes,
                self.max_size_mb == old(self).max_size_mb,
                lru_cap(&self.cache) == self.max_entries as nat,
                self.model() == kept_then_rest(snap, path@, i as int),
                self.wf(),
            decreases snapshot.len() - i,
        {
            let ghost cur = self.model();
            let ghost kept = drop_prefixed(snap.subrange(0, i as int), path@);
            proof {
                lemma_drop_prefixed_shape(snap, path@, i as int);
                assert(snap.subrange(0, i + 1).drop_last() =~= snap.subrange(0, i as int));
                assert(snap.subrange(0, i + 1).last() == snap[i as int]);
            }
            if check_prefix_str(path, snapshot[i].0.as_str()) {
                proof {
                    lemma_keys_absent_in_kept(snap, path@, i as int);
                    lemma_index_of_key_first(cur, snap[i as int].0@, kept.len() as int);
                    lemma_total_bytes_remove(cur, kept.len() as int);
                    lemma_total_bytes_nonneg(cur.remove(kept.len() as int));
                    lemma_total_bytes_nonneg(cur);
                    lemma_distinct_remove(cur, kept.len() as int);
                }
                lru_pop(&mut self.cache, &snapshot[i].0);
                proof {
                    assert(self.model() =~= kept_then_rest(snap, path@, i + 1));
                }
            } else {
                proof {
                    assert(self.model() =~= kept_then_rest(snap, path@, i + 1));
                }
            }
            i = i + 1;
        }
        proof {
            assert(snap.subrange(0, snap.len() as int) =~= snap);
            assert(snap.subrange(snap.len() as int, snap.len() as int) =~= Seq::<
                (String, CacheEntry),
            >::empty());
            assert(self.model() =~= drop_prefixed(snap, path@));
        }
    }

    /// The current number of cached results.
    pub fn len(&self) -> (r: usize)
        ensures
            r == self.model().len(),
    {
        lru_len(&self.cache)
    }

    /// True when nothing is cached.
    fn is_empty_cache(&self) -> (r: bool)
        ensures
            r == (self.model().len() == 0),
    {
        lru_len(&self.cache) == 0
    }

    /// The estimated bytes currently held.
    fn current_total(&self) -> (r: usize)
        requires
            self.wf(),
        ensures
            r == total_bytes(self.model()),
    {
        let entries = lru_entries_vec(&self.cache);
        let ghost m = self.model();
        let mut acc: usize = 0;
        let mut i: usize = 0;
        while i < entries.len()
            invariant
                entries@ == m,
                total_bytes(m) <= self.max_size_bytes,
                distinct_keys(m),
                i <= m.len(),
                acc == total_bytes(m.subrange(0, i as int)),
            decreases entries.len() - i,
        {
            proof {
                assert(m.subrange(0, i + 1).drop_last() =~= m.subrange(0, i as int));
                assert(m.subrange(0, i + 1).last() == m[i as int]);
                lemma_total_bytes_nonneg(m.subrange(0, i as int));
                lemma_wf_prefix(m, i + 1);
            }
            acc = acc + entries[i].1.size;
            i = i + 1;
        }
        proof {
            assert(m.subrange(0, m.len() as int) =~= m);
        }
        acc
    }

    /// The tier's statistics: its bounds and current occupancy.
    pub fn stats(&self) -> (r: MemoryCacheStats)
        requires
            self.wf(),
        ensures
            r.max_entries == self.spec_max_entries(),
            r.current_entries == self.model().len(),
            r.current_size_bytes == total_bytes(self.model()),
    {
        MemoryCacheStats {
            max_entries: self.max_entries,
            max_size_mb: self.max_size_mb,
            current_entries: self.len(),
            current_size_bytes: self.current_total(),
        }
    }
}

/// The model during invalidation: the first `i` snapshot entries
/// filtered, the rest untouched.
pub open spec fn kept_then_rest(
    snap: Seq<(String, CacheEntry)>,
    p: Seq<char>,
    i: int,
) -> Seq<(String, CacheEntry)> {
    drop_prefixed(snap.subrange(0, i), p) + snap.subrange(i, snap.len() as int)
}

/// The filtered prefix is a subsequence: it only loses entries.
pub proof fn lemma_drop_prefixed_shape(snap: Seq<(String, CacheEntry)>, p: Seq<char>, i: int)
    requires
        0 <= i <= snap.len(),
    ensures
        drop_prefixed(snap.subrange(0, i), p).len() <= i,
    decreases i,
{
    if i > 0 {
        assert(snap.subrange(0, i).drop_last() =~= snap.subrange(0, i - 1));
        lemma_drop_prefixed_shape(snap, p, i - 1);
    }
}

/// A key that appears at snapshot position `i` appears nowhere in the
/// filtered prefix before it, as keys are distinct.
pub proof fn lemma_keys_absent_in_kept(snap: Seq<(String, CacheEntry)>, p: Seq<char>, i: int)
    requires
        0 <= i < snap.len(),
        distinct_keys(snap),
    ensures
        forall|j: int|
            0 <= j < drop_prefixed(snap.subrange(0, i), p).len() ==> #[trigger] drop_prefixed(
                snap.subrange(0, i),
                p,
            )[j].0@ != snap[i].0@,
    decreases i,
{
    lemma_drop_prefixed_member(snap.subrange(0, i), p);
    assert forall|j: int|
        0 <= j < drop_prefixed(snap.subrange(0, i), p).len() implies #[trigger] drop_prefixed(
        snap.subrange(0, i),
        p,
    )[j].0@ != snap[i].0@ by {
        let e = drop_prefixed(snap.subrange(0, i), p)[j];
        let k = choose|k: int| 0 <= k < i && snap.subrange(0, i)[k] == e;
        assert(snap[k] == e);
    }
}

/// Every filtered entry comes from the source sequence.
pub proof fn lemma_drop_prefixed_member(m: Seq<(String, CacheEntry)>, p: Seq<char>)
    ensures
        forall|j: int|
            0 <= j < drop_prefixed(m, p).len() ==> exists|k: int|
                0 <= k < m.len() && m[k] == #[trigger] drop_prefixed(m, p)[j],
    decreases m.len(),
{
    if m.len() > 0 {
        lemma_drop_prefixed_member(m.drop_last(), p);
        assert forall|j: int|
            0 <= j < drop_prefixed(m, p).len() implies exists|k: int|
            0 <= k < m.len() && m[k] == #[trigger] drop_prefixed(m, p)[j] by {
            if j < drop_prefixed(m.drop_last(), p).len() {
                assert(drop_prefixed(m, p)[j] == drop_prefixed(m.drop_last(), p)[j]);
                let k = choose|k: int|
                    0 <= k < m.drop_last().len() && m.drop_last()[k] == drop_prefixed(
                        m.drop_last(),
                        p,
                    )[j];
                assert(m[k] == drop_prefixed(m, p)[j]);
            } else {
                assert(drop_prefixed(m, p)[j] == m.last());
                assert(m[m.len() - 1] == m.last());
            }
        }
    }
}

/// When a key first appears at position `n`, the search finds `n`.
pub proof fn lemma_index_of_key_first(m: Seq<(String, CacheEntry)>, k: Seq<char>, n: int)
    requires
        0 <= n < m.len(),
        m[n].0@ == k,
        forall|j: int| 0 <= j < n ==> m[j].0@ != k,
    ensures
        index_of_key(m, k) == n,
    decreases n,
{
    lemma_index_of_key(m, k);
    let i = index_of_key(m, k);
    if i == -1 {
        assert(m[n].0@ == k);
        assert(false);
    } else if i < n {
        assert(m[i].0@ != k);
        assert(false);
    } else if i > n {
        assert(m[n].0@ != k);
        assert(false);
    }
}

/// Megabytes as bytes, saturating at `usize::MAX`.
fn mb_to_bytes(mb: usize) -> (r: usize)
    ensures
        r == clamp_usize(mb * 1048576),
{
    proof {
        assert((mb as u128) * 1048576 < u128::MAX) by (nonlinear_arith)
            requires
                mb as u128 <= u64::MAX as u128,
        ;
    }
    let b: u128 = (mb as u128) * 1048576;
    if b > usize::MAX as u128 {
        usize::MAX
    } else {
        b as usize
    }
}

/// No key that starts with `p` survives the filter.
pub proof fn lemma_drop_prefixed_no_match(m: Seq<(String, CacheEntry)>, p: Seq<char>)
    ensures
        forall|j: int|
            0 <= j < drop_prefixed(m, p).len() ==> !is_prefix(
                p,
                #[trigger] drop_prefixed(m, p)[j].0@,
            ),
    decreases m.len(),
{
    if m.len() > 0 {
        lemma_drop_prefixed_no_match(m.drop_last(), p);
        let pre = drop_prefixed(m.drop_last(), p);
        let cur = drop_prefixed(m, p);
        assert forall|j: int| 0 <= j < cur.len() implies !is_prefix(p, #[trigger] cur[j].0@) by {
            if j < pre.len() {
                assert(cur[j] == pre[j]);
            } else {
                assert(cur[j] == m.last());
            }
        }
    }
}

/// Inserting a new key into a cache at its entry cap displaces exactly
/// the least recently used entry, and nothing else.
pub proof fn lemma_insert_at_capacity(
    m: Seq<(String, CacheEntry)>,
    pair: (String, CacheEntry),
    cap: int,
)
    requires
        index_of_key(m, pair.0@) == -1,
        m.len() == cap,
        cap >= 1,
    ensures
        put_model(m, pair, cap) == m.drop_last().insert(0, pair),
{
}

/// True when `p` is a string prefix of `s`, on bare string slices.
fn check_prefix_str(p: &str, s: &str) -> (r: bool)
    ensures
        r == is_prefix(p@, s@),
{
    crate::pathutil::check_prefix(p, s)
}

} // verus!
