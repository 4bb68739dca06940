//! The scan orchestrator: validates the request, consults the memory and
//! disk tiers, runs the walker and aggregator on a miss, fills both
//! tiers, and reports per-scan metrics. The filesystem enters only as
//! data — directory listings and the root's modification time — so the
//! whole decision path is verified.
use vstd::prelude::*;

verus! {

use crate::aggregate::{
    dir_size, finalize_item, finalize_items, finalized, lemma_sort_desc_multiset,
    lemma_sum_files_nonneg, sort_desc_spec, sort_items_desc, sorted_desc, sum_files,
};
use crate::disk_cache::DiskCache;
use crate::format::{format_size, spec_format_size};
use crate::item::{ArcScanResult, CacheSource, Item, ScanPerfMetrics, ScanResult};
use crate::mem_cache::{
    drop_prefixed, est_result, estimate_size, evict_until_fits, index_of_key, lemma_drop_prefixed_no_match,
    lemma_index_of_key, put_model, CacheEntry, MemoryCacheStats, ScanCache,
};
use crate::pathutil::{check_blank, is_blank, is_prefix};
use crate::perf::PerformanceMonitor;
use crate::walk::{
    files_view, items_view, walk_model, walk_tree, DirListing, RawEntry,
};
use vstd::string::StringExecFns;

/// How many scans the request history remembers.
pub const HISTORY_CAP: usize = 20;

/// Why a scan was refused.
#[derive(Clone, Copy, Debug, PartialEq, Eq, Structural)]
pub enum ScanError {
    InvalidInput,
    NotAccessible,
    NotADirectory,
    Internal,
}

impl ScanError {
    /// A short message for the caller.
    pub fn message(&self) -> (r: String)
        ensures
            *self == ScanError::InvalidInput ==> r@ == "path must not be empty"@,
            *self == ScanError::NotAccessible ==> r@ == "path cannot be accessed"@,
            *self == ScanError::NotADirectory ==> r@ == "path is not a directory"@,
            *self == ScanError::Internal ==> r@ == "internal scan failure"@,
    {
        match self {
            ScanError::InvalidInput => String::from_str("path must not be empty"),
            ScanError::NotAccessible => String::from_str("path cannot be accessed"),
            ScanError::NotADirectory => String::from_str("path is not a directory"),
            ScanError::Internal => String::from_str("internal scan failure"),
        }
    }
}

/// What probing the root can rule out: an unreachable path, or one that
/// is not a directory. `accessible` reports whether its metadata could
/// be read at all.
pub fn classify_probe(accessible: bool, is_dir: bool) -> (r: Option<ScanError>)
    ensures
        !accessible ==> r == Some(ScanError::NotAccessible),
        accessible && !is_dir ==> r == Some(ScanError::NotADirectory),
        accessible && is_dir ==> r is None,
{
    if !accessible {
        Some(ScanError::NotAccessible)
    } else if !is_dir {
        Some(ScanError::NotADirectory)
    } else {
        None
    }
}

/// Relies on `num_cpus::get`, which returns at least one.
#[verifier::external_body]
fn cpu_count() -> (r: usize)
    ensures
        r >= 1,
{
    num_cpus::get()
}

/// The worker-pool size a walk is planned with: twice the processor
/// count, at least 8 and at most 32.
pub open spec fn spec_thread_count(cpus: int) -> int {
    if cpus * 2 < 8 {
        8
    } else if cpus * 2 > 32 {
        32
    } else {
        cpus * 2
    }
}

/// The planned worker count for this machine.
pub fn planned_thread_count() -> (r: usize)
    ensures
        8 <= r <= 32,
        exists|cpus: int| cpus >= 1 && r == spec_thread_count(cpus),
{
    let cpus = cpu_count();
    let doubled = if cpus > 16 {
        33
    } else {
        cpus * 2
    };
    let r: usize = if doubled < 8 {
        8
    } else if doubled > 32 {
        32
    } else {
        doubled
    };
    proof {
        assert(r == spec_thread_count(cpus as int));
    }
    r
}

/// One line of the scan history shown to the user.
#[derive(Clone, Debug)]
pub struct HistoryItem {
    pub path: String,
    pub scan_time: i64,
    pub total_size: i64,
    pub size_format: String,
    pub item_count: usize,
}

/// The plain-string form of a history line.
#[derive(Clone, Debug)]
pub struct HistoryItemSummary {
    pub path: String,
    pub scan_time: i64,
    pub total_size: i64,
    pub size_format: String,
    pub item_count: usize,
}

impl HistoryItemSummary {
    /// A summary carries the same fields as the history line.
    pub fn of_item(item: &HistoryItem) -> (r: HistoryItemSummary)
        ensures
            r.path@ == item.path@,
            r.scan_time == item.scan_time,
            r.total_size == item.total_size,
            r.size_format@ == item.size_format@,
            r.item_count == item.item_count,
    {
        HistoryItemSummary {
            path: item.path.clone(),
            scan_time: item.scan_time,
            total_size: item.total_size,
            size_format: item.size_format.clone(),
            item_count: item.item_count,
        }
    }
}

/// Appends a history line and drops the oldest lines beyond the cap.
pub fn push_history(history: &mut Vec<HistoryItem>, item: HistoryItem)
    ensures
        final(history)@ == (if old(history)@.len() + 1 > HISTORY_CAP {
            old(history)@.push(item).subrange(
                old(history)@.len() + 1 - (HISTORY_CAP as int),
                old(history)@.len() as int + 1,
            )
        } else {
            old(history)@.push(item)
        }),
{
    let ghost pushed = old(history)@.push(item);
    history.push(item);
    proof {
        assert(history@ =~= pushed.subrange(pushed.len() - history@.len(), pushed.len() as int));
    }
    while history.len() > HISTORY_CAP
        invariant
            pushed.len() >= history@.len(),
            history@ == pushed.subrange(
                pushed.len() - history@.len(),
                pushed.len() as int,
            ),
            history@.len() > 0,
            history@.len() >= HISTORY_CAP || history@.len() == pushed.len(),
        decreases history@.len(),
    {
        history.remove(0);
        proof {
            assert(history@ =~= pushed.subrange(pushed.len() - history@.len(), pushed.len() as int));
        }
    }
    proof {
        assert(pushed.subrange(0, pushed.len() as int) =~= pushed);
        if pushed.len() <= HISTORY_CAP {
            assert(history@ =~= pushed);
        }
    }
}

/// The history newest-first, as returned to the caller.
pub fn reversed_history(history: &Vec<HistoryItem>) -> (r: Vec<HistoryItem>)
    ensures
        r@ == history@.reverse(),
{
    let mut r: Vec<HistoryItem> = Vec::new();
    let mut i: usize = history.len();
    while i > 0
        invariant
            i <= history@.len(),
            r@.len() == history@.len() - i,
            forall|j: int|
                0 <= j < r@.len() ==> r@[j] == history@[history@.len() - 1 - j],
        decreases i,
    {
        i = i - 1;
        let it = &history[i];
        r.push(
            HistoryItem {
                path: it.path.clone(),
                scan_time: it.scan_time,
                total_size: it.total_size,
                size_format: it.size_format.clone(),
                item_count: it.item_count,
            },
        );
    }
    proof {
        assert(r@ =~= history@.reverse());
    }
    r
}

/// True when `p` is the root's empty relative path or some listing of
/// `ls` announces it as a subdirectory.
pub open spec fn announced_or_root(ls: Seq<DirListing>, p: Seq<char>) -> bool {
    p == Seq::<char>::empty() || exists|j: int|
        0 <= j < ls.len() && crate::walk::announces(#[trigger] ls[j], p)
}

/// Collects the listing table for a walk: the caller repeatedly takes a
/// directory from the queue, reads it, and hands the entries back; the
/// collector itself keys each listing by the directory it handed out
/// and queues the subdirectories it finds, so every collected listing
/// is the root or announced by another — the coverage the leaf-sum law
/// asks of a tree.
pub struct ListingCollector {
    pending: Vec<String>,
    current: Option<String>,
    collected: Vec<DirListing>,
}

impl ListingCollector {
    /// The listings gathered so far.
    pub closed spec fn view(&self) -> Seq<DirListing> {
        self.collected@
    }

    /// The directories still queued for reading, next first.
    pub closed spec fn pending_view(&self) -> Seq<Seq<char>> {
        crate::walk::strs_view(self.pending@)
    }

    /// The directory handed out and not yet supplied, if any.
    pub closed spec fn current_view(&self) -> Option<Seq<char>> {
        match self.current {
            Some(c) => Some(c@),
            None => None,
        }
    }

    /// Every path the collector holds — collected, queued, or handed
    /// out — is the root or announced by a collected listing.
    pub closed spec fn wf(&self) -> bool {
        &&& forall|i: int|
            0 <= i < self.collected@.len() ==> announced_or_root(
                self.collected@,
                (#[trigger] self.collected@[i]).path@,
            )
        &&& forall|k: int|
            0 <= k < self.pending@.len() ==> announced_or_root(
                self.collected@,
                (#[trigger] self.pending@[k])@,
            )
        &&& self.current matches Some(c) ==> announced_or_root(self.collected@, c@)
    }

    /// A collector whose queue starts at the root.
    pub fn new() -> (r: ListingCollector)
        ensures
            r.wf(),
            r@.len() == 0,
            r.pending_view() == seq![Seq::<char>::empty()],
            r.current_view() is None,
    {
        let mut pending: Vec<String> = Vec::new();
        pending.push(String::new());
        let r = ListingCollector { pending, current: None, collected: Vec::new() };
        proof {
            assert(r.pending_view() =~~= seq![Seq::<char>::empty()]);
        }
        r
    }

    /// The next directory to read: the queue's head is removed, handed
    /// out, and remembered until its listing is supplied. None exactly
    /// when the queue is empty.
    pub fn next_dir(&mut self) -> (r: Option<String>)
        requires
            old(self).wf(),
        ensures
            final(self).wf(),
            final(self)@ == old(self)@,
            match r {
                Some(d) => {
                    &&& old(self).pending_view().len() > 0
                    &&& d@ == old(self).pending_view()[0]
                    &&& final(self).pending_view() == old(self).pending_view().drop_first()
                    &&& final(self).current_view() == Some(d@)
                },
                None => {
                    &&& old(self).pending_view().len() == 0
                    &&& final(self).pending_view() == old(self).pending_view()
                    &&& final(self).current_view() == old(self).current_view()
                },
            },
    {
        if self.pending.len() == 0 {
            None
        } else {
            let ghost pend0 = self.pending@;
            let d = self.pending.remove(0);
            self.current = Some(d.clone());
            proof {
                assert(self.pending_view() =~~= crate::walk::strs_view(pend0).drop_first());
                assert forall|k: int| 0 <= k < self.pending@.len() implies announced_or_root(
                    self.collected@,
                    (#[trigger] self.pending@[k])@,
                ) by {
                    assert(self.pending@[k] == pend0[k + 1]);
                }
            }
            Some(d)
        }
    }

    /// Records the listing of the directory last handed out and queues
    /// its subdirectories; without an outstanding directory nothing
    /// changes.
    pub fn supply(&mut self, entries: Vec<RawEntry>)
        requires
            old(self).wf(),
        ensures
            final(self).wf(),
            match old(self).current_view() {
                None => {
                    &&& final(self)@ == old(self)@
                    &&& final(self).pending_view() == old(self).pending_view()
                    &&& final(self).current_view() is None
                },
                Some(dir) => {
                    &&& final(self)@.len() == old(self)@.len() + 1
                    &&& final(self)@.subrange(0, old(self)@.len() as int) == old(self)@
                    &&& final(self)@.last().path@ == dir
                    &&& final(self)@.last().entries == entries
                    &&& final(self).pending_view() == old(self).pending_view()
                        + crate::walk::subdirs_of(dir, entries@)
                    &&& final(self).current_view() is None
                },
            },
    {
        let taken = self.current.take();
        let cur = match taken {
            Some(c) => c,
            None => {
                return ;
            },
        };
        let ghost dirv = cur@;
        let ghost entriesv = entries@;
        let ghost pend0 = self.pending@;
        let ghost coll0 = self.collected@;
        let listing = DirListing { path: cur, entries };
        let mut i: usize = 0;
        while i < listing.entries.len()
            invariant
                i <= listing.entries@.len(),
                self.collected@ == coll0,
                self.current is None,
                listing.path@ == dirv,
                listing.entries@ == entriesv,
                crate::walk::strs_view(self.pending@) == crate::walk::strs_view(pend0)
                    + crate::walk::subdirs_of(dirv, entriesv.subrange(0, i as int)),
            decreases listing.entries.len() - i,
        {
            let ghost prefix = entriesv.subrange(0, i as int);
            let ghost prefix1 = entriesv.subrange(0, i + 1);
            proof {
                assert(prefix1.drop_last() =~= prefix);
                assert(prefix1.last() == entriesv[i as int]);
            }
            let e = &listing.entries[i];
            let keep = match e.kind {
                crate::walk::EntryKind::Dir => !e.name.as_str().is_empty(),
                _ => false,
            };
            if keep {
                let ghost pend_before = self.pending@;
                let rel = crate::walk::join_and_normalize(
                    listing.path.as_str(),
                    e.name.as_str(),
                );
                self.pending.push(rel);
                proof {
                    assert(crate::walk::strs_view(self.pending@) =~~= crate::walk::strs_view(
                        pend_before,
                    ).push(crate::walk::rel_path_of(dirv, entriesv[i as int])));
                }
            }
            proof {
                assert(crate::walk::strs_view(self.pending@) =~~= crate::walk::strs_view(pend0)
                    + crate::walk::subdirs_of(dirv, prefix1));
            }
            i = i + 1;
        }
        self.collected.push(listing);
        proof {
            assert(entriesv.subrange(0, entriesv.len() as int) =~= entriesv);
            assert(self.collected@.subrange(0, coll0.len() as int) =~= coll0);
            let newcoll = self.collected@;
            let ghost new_idx = coll0.len() as int;
            assert(newcoll[new_idx].path@ == dirv);
            assert forall|i2: int| 0 <= i2 < newcoll.len() implies announced_or_root(
                newcoll,
                (#[trigger] newcoll[i2]).path@,
            ) by {
                if i2 < new_idx {
                    assert(newcoll[i2] == coll0[i2]);
                    lemma_announced_grows(coll0, newcoll, newcoll[i2].path@);
                } else {
                    lemma_announced_grows(coll0, newcoll, dirv);
                }
            }
            assert forall|k: int| 0 <= k < self.pending@.len() implies announced_or_root(
                newcoll,
                (#[trigger] self.pending@[k])@,
            ) by {
                if k < pend0.len() {
                    assert(crate::walk::strs_view(self.pending@)[k] == crate::walk::strs_view(
                        pend0,
                    )[k]);
                    assert(self.pending@[k]@ == pend0[k]@);
                    lemma_announced_grows(coll0, newcoll, pend0[k]@);
                } else {
                    let subs = crate::walk::subdirs_of(dirv, entriesv);
                    assert(crate::walk::strs_view(self.pending@)[k] == subs[k - pend0.len()]);
                    assert(self.pending@[k]@ == subs[k - pend0.len()]);
                    assert(crate::walk::announces(newcoll[new_idx], self.pending@[k]@));
                }
            }
        }
    }

    /// Hands the gathered listing table over for the walk. Whatever
    /// order the caller read directories in, the result is covered:
    /// every listing is the root or announced, so the leaf-sum law
    /// applies whenever the paths are also distinct.
    pub fn into_listings(self) -> (r: Vec<DirListing>)
        requires
            self.wf(),
        ensures
            r@ == self@,
            crate::walk::covered(r@, seq![Seq::<char>::empty()]),
    {
        proof {
            let ls = self.collected@;
            let root = seq![Seq::<char>::empty()];
            assert forall|i: int| 0 <= i < ls.len() implies root.contains(
                #[trigger] ls[i].path@,
            ) || exists|j: int| 0 <= j < ls.len() && crate::walk::announces(
                #[trigger] ls[j],
                ls[i].path@,
            ) by {
                if ls[i].path@ == Seq::<char>::empty() {
                    assert(root[0] == ls[i].path@);
                    assert(root.contains(ls[i].path@));
                }
            }
        }
        self.collected
    }
}

/// A path announced by a listing set stays announced when the set
/// grows at the end.
pub proof fn lemma_announced_grows(
    ls: Seq<DirListing>,
    ls2: Seq<DirListing>,
    p: Seq<char>,
)
    requires
        announced_or_root(ls, p),
        ls2.len() >= ls.len(),
        ls2.subrange(0, ls.len() as int) == ls,
    ensures
        announced_or_root(ls2, p),
{
    if p != Seq::<char>::empty() {
        let j = choose|j: int| 0 <= j < ls.len() && crate::walk::announces(ls[j], p);
        assert(ls2[j] == ls.subrange(0, ls.len() as int)[j]);
        assert(crate::walk::announces(ls2[j], p));
    }
}

/// The total a scan of these listings reports: the sum of all file
/// sizes the walk finds.
pub open spec fn scan_total_spec(ls: Seq<DirListing>) -> int {
    sum_files(walk_model(ls).files)
}

/// The items a scan of these listings returns: the walk's items,
/// finalized by the aggregator and sorted by descending size.
pub open spec fn scan_items_spec(ls: Seq<DirListing>) -> Seq<crate::item::ItemView> {
    sort_desc_spec(finalized(walk_model(ls).items, walk_model(ls).files))
}

/// Over a well-formed tree — one listing per directory, no two alike,
/// the root queued and every other directory announced by its parent —
/// the total a scan reports is the sum of the sizes of all leaves.
pub proof fn lemma_scan_total_is_leaf_sum(ls: Seq<DirListing>)
    requires
        crate::walk::tree_ok(ls),
    ensures
        scan_total_spec(ls) == crate::walk::listings_sum(ls),
{
    crate::walk::lemma_walk_total_is_leaf_sum(ls);
}

/// What the memory tier answers for a key probed at `mtime`: its entry,
/// if one is cached and its recorded modification time is not older.
pub open spec fn mem_hit(
    m: Seq<(String, CacheEntry)>,
    key: Seq<char>,
    mtime: int,
) -> Option<CacheEntry> {
    let i = index_of_key(m, key);
    if 0 <= i < m.len() && m[i].1.dir_mtime >= mtime {
        Some(m[i].1)
    } else {
        None
    }
}

/// Whether a scan may be answered from cache: never under a forced
/// refresh, else whatever the memory tier holds.
pub open spec fn mem_decision(
    m: Seq<(String, CacheEntry)>,
    key: Seq<char>,
    mtime: int,
    force_refresh: bool,
) -> Option<CacheEntry> {
    if force_refresh {
        None
    } else {
        mem_hit(m, key, mtime)
    }
}

/// The engine: the two cache tiers and the performance monitor, owned
/// as one value so tests can build throwaway engines with tiny caches.
pub struct ScanEngine {
    cache: ScanCache,
    perf: PerformanceMonitor,
    disk: Option<DiskCache>,
}

impl ScanEngine {
    /// The memory tier's contents, most recently used first.
    pub closed spec fn mem_model(&self) -> Seq<(String, CacheEntry)> {
        self.cache.model()
    }

    pub closed spec fn has_disk(&self) -> bool {
        self.disk is Some
    }

    pub closed spec fn mem_max_entries(&self) -> usize {
        self.cache.spec_max_entries()
    }

    pub closed spec fn mem_max_size_bytes(&self) -> usize {
        self.cache.spec_max_size_bytes()
    }

    /// The finished scans the monitor remembers, oldest first.
    pub closed spec fn perf_history(&self) -> Seq<crate::perf::ScanMetrics> {
        self.perf.history@
    }

    /// The monitor's in-flight session, if a scan is open.
    pub closed spec fn perf_current(&self) -> Option<crate::perf::ScanSession> {
        self.perf.current_scan
    }

    /// The disk tier's configured size bound, in mebibytes (zero when
    /// the engine has no disk tier).
    pub closed spec fn disk_max_size_mb(&self) -> usize {
        match self.disk {
            Some(d) => d.spec_max_size_mb(),
            None => 0,
        }
    }

    /// The engine's invariant: the memory tier is well formed and the
    /// monitor's history respects its cap.
    pub closed spec fn wf(&self) -> bool {
        &&& self.cache.wf()
        &&& self.perf.history@.len() <= self.perf.max_history
    }

    /// An engine with an empty memory tier of the given bounds, a
    /// monitor remembering `max_history` scans, and an optional disk
    /// tier.
    pub fn new(
        mem_max_entries: usize,
        mem_max_size_mb: usize,
        max_history: usize,
        disk: Option<DiskCache>,
    ) -> (r: ScanEngine)
        requires
            mem_max_entries >= 1,
        ensures
            r.wf(),
            r.mem_model() == Seq::<(String, CacheEntry)>::empty(),
            r.has_disk() == (disk is Some),
            r.mem_max_entries() == mem_max_entries,
            r.mem_max_size_bytes() == crate::mem_cache::clamp_usize(mem_max_size_mb * 1048576),
            r.perf_history() == Seq::<crate::perf::ScanMetrics>::empty(),
            r.perf_current() is None,
    {
        ScanEngine {
            cache: ScanCache::new(mem_max_entries, mem_max_size_mb),
            perf: PerformanceMonitor::new(max_history),
            disk,
        }
    }

    /// Tears the engine down, handing back the persistent disk tier so
    /// a fresh engine (a restarted process) can reopen the same store.
    pub fn into_disk(self) -> (r: Option<DiskCache>)
        ensures
            (r is Some) == self.has_disk(),
    {
        self.disk
    }

    /// The memory tier's statistics.
    pub fn memory_cache_stats(&self) -> (r: MemoryCacheStats)
        requires
            self.wf(),
        ensures
            r.max_entries == self.mem_max_entries(),
            r.current_entries == self.mem_model().len(),
            r.current_size_bytes == crate::mem_cache::total_bytes(self.mem_model()),
    {
        self.cache.stats()
    }

    /// The disk tier's statistics: present exactly when the engine has a
    /// disk tier, with its configured bound and a consistent mebibyte
    /// figure.
    pub fn disk_cache_stats(&self) -> (r: Option<crate::disk_cache::CacheStats>)
        ensures
            (r is Some) == self.has_disk(),
            r matches Some(s) ==> s.max_size_mb == self.disk_max_size_mb() && s.total_size_mb
                == s.total_size_bytes / 1048576,
    {
        match &self.disk {
            Some(d) => Some(d.get_stats()),
            None => None,
        }
    }

    /// Empties the disk tier; nothing happens without one.
    pub fn clear_disk_cache(&self) -> (r: bool)
        ensures
            !self.has_disk() ==> r == false,
    {
        match &self.disk {
            Some(d) => d.clear(),
            None => false,
        }
    }

    /// A copy of the open session's metrics.
    pub fn performance_metrics(&self) -> (r: Option<crate::perf::ScanMetrics>)
        ensures
            match self.perf_current() {
                None => r is None,
                Some(s) => r matches Some(c) && crate::perf::metrics_eq(c, s.metrics),
            },
    {
        self.perf.get_current_metrics()
    }

    /// A copy of the finished-scan history, oldest first.
    pub fn performance_history(&self) -> (r: Vec<crate::perf::ScanMetrics>)
        ensures
            r@.len() == self.perf_history().len(),
            forall|i: int|
                0 <= i < r@.len() ==> crate::perf::metrics_eq(
                    #[trigger] r@[i],
                    self.perf_history()[i],
                ),
    {
        self.perf.get_history()
    }

    /// Forgets the finished-scan history; the open session and the
    /// cache tiers are untouched.
    pub fn clear_performance_history(&mut self)
        requires
            old(self).wf(),
        ensures
            final(self).wf(),
            final(self).perf_history() == Seq::<crate::perf::ScanMetrics>::empty(),
            final(self).perf_current() == old(self).perf_current(),
            final(self).mem_model() == old(self).mem_model(),
            final(self).has_disk() == old(self).has_disk(),
            final(self).mem_max_entries() == old(self).mem_max_entries(),
            final(self).mem_max_size_bytes() == old(self).mem_max_size_bytes(),
    {
        self.perf.clear_history();
        proof {
            assert(self.perf_history() =~= Seq::<crate::perf::ScanMetrics>::empty());
        }
    }

    /// Summary statistics over the finished scans: counts, integer
    /// averages, and extremes of the remembered history.
    pub fn performance_summary(&self) -> (r: crate::perf::PerformanceSummary)
        ensures
            self.perf_history().len() == 0 ==> r == (crate::perf::PerformanceSummary {
                total_scans: 0,
                cache_hits: 0,
                avg_scan_duration_ms: 0,
                min_scan_duration_ms: 0,
                max_scan_duration_ms: 0,
                avg_io_time_ms: 0,
            }),
            self.perf_history().len() > 0 ==> {
                let h = self.perf_history();
                &&& r.total_scans == h.len()
                &&& r.cache_hits == crate::perf::count_hits(h)
                &&& r.avg_scan_duration_ms == crate::perf::sum_durations(h) / h.len() as int
                &&& r.min_scan_duration_ms == crate::perf::min_duration(h)
                &&& r.max_scan_duration_ms == crate::perf::max_duration(h)
                &&& r.avg_io_time_ms == crate::perf::sum_io(h) / h.len() as int
            },
    {
        self.perf.get_summary()
    }

    /// The cache-only step of a scan: answers from the memory tier, or
    /// from the disk tier with a write-back into memory, without walking
    /// anything — so a caller lists a tree only after a miss. A hit
    /// records a session of its own; a miss leaves the memory tier
    /// untouched and no session behind.
    pub fn try_cached(
        &mut self,
        path: &String,
        canonical_key: &String,
        dir_mtime: i64,
        force_refresh: bool,
        epoch_s: i64,
        now_ms: u64,
    ) -> (r: Option<ScanResult>)
        requires
            old(self).wf(),
        ensures
            final(self).wf(),
            final(self).has_disk() == old(self).has_disk(),
            final(self).mem_max_entries() == old(self).mem_max_entries(),
            final(self).mem_max_size_bytes() == old(self).mem_max_size_bytes(),
            match mem_decision(
                old(self).mem_model(),
                canonical_key@,
                dir_mtime as int,
                force_refresh,
            ) {
                Some(e) => r matches Some(res) && {
                    &&& res.items@ == e.result.items@
                    &&& res.total_size == e.result.total_size
                    &&& res.total_size_formatted@ == e.result.total_size_formatted@
                    &&& res.timing == e.result.timing
                    &&& res.scan_time_ms == 0
                    &&& res.path@ == path@
                    &&& res.perf_metrics matches Some(p) && p.cache_hit && p.cache_source == Some(
                        CacheSource::Memory,
                    )
                    &&& mem_hit(final(self).mem_model(), canonical_key@, dir_mtime as int) == Some(
                        e,
                    )
                },
                None => {
                    &&& (r matches Some(res) ==> {
                        &&& old(self).has_disk()
                        &&& !force_refresh
                        &&& res.scan_time_ms == 0
                        &&& res.path@ == path@
                        &&& res.perf_metrics matches Some(p) && p.cache_hit && p.cache_source
                            == Some(CacheSource::Disk)
                    })
                    &&& (r is None ==> final(self).mem_model() == old(self).mem_model())
                },
            },
    {
        if force_refresh {
            return None;
        }
        let ghost m0 = self.mem_model();
        let probe = self.cache.peek(canonical_key);
        let fresh = match &probe {
            Some(entry) => entry.dir_mtime >= dir_mtime,
            None => false,
        };
        match probe {
            Some(entry) => {
                if fresh {
                    self.cache.get(canonical_key);
                    self.perf.start_scan(path.as_str(), epoch_s, now_ms);
                    self.perf.record_cache_hit(0);
                    let mut res = entry.result.to_result();
                    res.scan_time_ms = 0;
                    res.path = path.clone();
                    let dirs = count_dir_items(&res.items);
                    res.perf_metrics = Some(
                        ScanPerfMetrics {
                            io_phase_ms: 0,
                            compute_phase_ms: 0,
                            serialize_phase_ms: 0,
                            cache_read_time_ms: 0,
                            files_scanned: res.items.len() - dirs,
                            dirs_scanned: dirs,
                            threads_used: 0,
                            cache_hit: true,
                            cache_source: Some(CacheSource::Memory),
                        },
                    );
                    self.perf.end_scan(epoch_s, now_ms);
                    proof {
                        let i = index_of_key(m0, canonical_key@);
                        lemma_index_of_key(m0, canonical_key@);
                        let m1 = m0.remove(i).insert(0, m0[i]);
                        assert(index_of_key(m1, canonical_key@) == 0);
                        assert(mem_hit(self.mem_model(), canonical_key@, dir_mtime as int)
                            == Some(entry));
                    }
                    return Some(res);
                }
            },
            None => {},
        }
        let mut disk_answer: Option<ScanResult> = None;
        match &self.disk {
            Some(d) => {
                disk_answer = d.get(canonical_key, dir_mtime, epoch_s);
            },
            None => {},
        }
        match disk_answer {
            Some(cached) => {
                self.perf.start_scan(path.as_str(), epoch_s, now_ms);
                self.perf.record_cache_hit(0);
                self.cache.insert(canonical_key.clone(), &cached, dir_mtime);
                let mut res = cached;
                res.scan_time_ms = 0;
                let dirs = count_dir_items(&res.items);
                res.perf_metrics = Some(
                    ScanPerfMetrics {
                        io_phase_ms: 0,
                        compute_phase_ms: 0,
                        serialize_phase_ms: 0,
                        cache_read_time_ms: 0,
                        files_scanned: res.items.len() - dirs,
                        dirs_scanned: dirs,
                        threads_used: 0,
                        cache_hit: true,
                        cache_source: Some(CacheSource::Disk),
                    },
                );
                res.path = path.clone();
                self.perf.end_scan(epoch_s, now_ms);
                Some(res)
            },
            None => None,
        }
    }

    /// One scan over an already-listed tree. `path` is the request as
    /// given, `canonical_key` the canonical root path that keys both
    /// cache tiers, `dir_mtime` the root's modification time, and the
    /// listings stand for what the filesystem holds. Cache decisions,
    /// walking, aggregation and cache refills all happen here.
    pub fn scan_listed(
        &mut self,
        path: &String,
        canonical_key: &String,
        dir_mtime: i64,
        force_refresh: bool,
        listings: Vec<DirListing>,
        epoch_s: i64,
        now_ms: u64,
    ) -> (r: Result<ScanResult, ScanError>)
        requires
            old(self).wf(),
        ensures
            final(self).wf(),
            final(self).has_disk() == old(self).has_disk(),
            final(self).mem_max_entries() == old(self).mem_max_entries(),
            final(self).mem_max_size_bytes() == old(self).mem_max_size_bytes(),
            match r {
                Err(e) => {
                    &&& (e == ScanError::InvalidInput <==> is_blank(path@))
                    &&& (e == ScanError::Internal ==> scan_total_spec(listings@) > i64::MAX)
                    &&& (e == ScanError::InvalidInput || e == ScanError::Internal)
                    &&& (e == ScanError::InvalidInput ==> final(self).mem_model() == old(
                        self,
                    ).mem_model())
                    &&& (e == ScanError::Internal ==> final(self).mem_model() == drop_prefixed(
                        old(self).mem_model(),
                        canonical_key@,
                    ))
                },
                Ok(res) => {
                    &&& !is_blank(path@)
                    &&& res.path@ == path@
                    &&& match mem_decision(
                        old(self).mem_model(),
                        canonical_key@,
                        dir_mtime as int,
                        force_refresh,
                    ) {
                        Some(e) => {
                            &&& res.items@ == e.result.items@
                            &&& res.total_size == e.result.total_size
                            &&& res.total_size_formatted@ == e.result.total_size_formatted@
                            &&& res.timing == e.result.timing
                            &&& res.scan_time_ms == 0
                            &&& res.perf_metrics matches Some(p) && p.cache_hit
                                && p.cache_source == Some(CacheSource::Memory)
                            &&& mem_hit(final(self).mem_model(), canonical_key@, dir_mtime as int)
                                == Some(e)
                        },
                        None => {
                            ||| (old(self).has_disk() && !force_refresh && res.scan_time_ms == 0
                                && (res.perf_metrics matches Some(p) && p.cache_hit
                                && p.cache_source == Some(CacheSource::Disk)))
                            ||| {
                                &&& res.total_size == scan_total_spec(listings@)
                                &&& items_view(res.items@) == scan_items_spec(listings@)
                                &&& sorted_desc(items_view(res.items@))
                                &&& res.total_size_formatted@ == spec_format_size(
                                    scan_total_spec(listings@),
                                )
                                &&& res.timing is None
                                &&& res.perf_metrics matches Some(p) && !p.cache_hit
                                    && p.cache_source is None && p.files_scanned == walk_model(
                                    listings@,
                                ).files.len() && p.dirs_scanned == spec_count_dirs(res.items@)
                                    && 8 <= p.threads_used <= 32
                                &&& exists|kv: (String, CacheEntry)|
                                    {
                                        &&& (#[trigger] kv.0@) == canonical_key@
                                        &&& kv.1.dir_mtime == dir_mtime
                                        &&& kv.1.result.items@ == res.items@
                                        &&& kv.1.result.total_size == res.total_size
                                        &&& kv.1.result.total_size_formatted@
                                            == res.total_size_formatted@
                                        &&& kv.1.result.scan_time_ms == res.scan_time_ms
                                        &&& kv.1.result.timing == res.timing
                                        &&& kv.1.result.path@ == res.path@
                                        &&& kv.1.size == est_result(res.items@)
                                        &&& final(self).mem_model() == (if kv.1.size > old(
                                            self,
                                        ).mem_max_size_bytes() {
                                            drop_prefixed(old(self).mem_model(), canonical_key@)
                                        } else {
                                            put_model(
                                                evict_until_fits(
                                                    drop_prefixed(
                                                        old(self).mem_model(),
                                                        canonical_key@,
                                                    ),
                                                    kv.1.size as int,
                                                    old(self).mem_max_size_bytes() as int,
                                                ),
                                                kv,
                                                old(self).mem_max_entries() as int,
                                            )
                                        })
                                        &&& kv.1.size <= old(self).mem_max_size_bytes()
                                            ==> mem_hit(
                                            final(self).mem_model(),
                                            canonical_key@,
                                            dir_mtime as int,
                                        ) == Some(kv.1)
                                    }
                            }
                        },
                    }
                },
            },
    {
        self.perf.start_scan(path.as_str(), epoch_s, now_ms);
        if check_blank(path.as_str()) {
            let e = ScanError::InvalidInput;
            self.perf.add_error(e.message());
            self.perf.end_scan(epoch_s, now_ms);
            return Err(e);
        }
        let ghost m0 = self.mem_model();
        if !force_refresh {
            let probe = self.cache.peek(canonical_key);
            let fresh = match &probe {
                Some(entry) => entry.dir_mtime >= dir_mtime,
                None => false,
            };
            match probe {
                Some(entry) => {
                    if fresh {
                        self.cache.get(canonical_key);
                        self.perf.record_cache_hit(0);
                        let mut res = entry.result.to_result();
                        res.scan_time_ms = 0;
                        res.path = path.clone();
                        let dirs = count_dir_items(&res.items);
                        res.perf_metrics = Some(
                            ScanPerfMetrics {
                                io_phase_ms: 0,
                                compute_phase_ms: 0,
                                serialize_phase_ms: 0,
                                cache_read_time_ms: 0,
                                files_scanned: res.items.len() - dirs,
                                dirs_scanned: dirs,
                                threads_used: 0,
                                cache_hit: true,
                                cache_source: Some(CacheSource::Memory),
                            },
                        );
                        self.perf.end_scan(epoch_s, now_ms);
                        proof {
                            let i = index_of_key(m0, canonical_key@);
                            lemma_index_of_key(m0, canonical_key@);
                            let m1 = m0.remove(i).insert(0, m0[i]);
                            assert(index_of_key(m1, canonical_key@) == 0);
                            assert(mem_hit(self.mem_model(), canonical_key@, dir_mtime as int)
                                == Some(entry));
                        }
                        return Ok(res);
                    }
                },
                None => {},
            }
            let mut disk_answer: Option<ScanResult> = None;
            match &self.disk {
                Some(d) => {
                    disk_answer = d.get(canonical_key, dir_mtime, epoch_s);
                },
                None => {},
            }
            match disk_answer {
                Some(cached) => {
                    self.perf.record_cache_hit(0);
                    self.cache.insert(canonical_key.clone(), &cached, dir_mtime);
                    let mut res = cached;
                    res.scan_time_ms = 0;
                    let dirs = count_dir_items(&res.items);
                    res.perf_metrics = Some(
                        ScanPerfMetrics {
                            io_phase_ms: 0,
                            compute_phase_ms: 0,
                            serialize_phase_ms: 0,
                            cache_read_time_ms: 0,
                            files_scanned: res.items.len() - dirs,
                            dirs_scanned: dirs,
                            threads_used: 0,
                            cache_hit: true,
                            cache_source: Some(CacheSource::Disk),
                        },
                    );
                    res.path = path.clone();
                    self.perf.end_scan(epoch_s, now_ms);
                    return Ok(res);
                },
                None => {},
            }
        }
        self.cache.invalidate(canonical_key.as_str());
        match &self.disk {
            Some(d) => {
                d.invalidate(canonical_key);
            },
            None => {},
        }
        let ghost m_inv = self.mem_model();
        let threads = planned_thread_count();
        self.perf.set_threads_used(threads);
        self.perf.start_io_phase(now_ms);
        let out = walk_tree(listings);
        self.perf.end_io_phase(now_ms);
        self.perf.start_compute_phase(now_ms);
        let total = match checked_total(&out.files) {
            Some(t) => t,
            None => {
                let e = ScanError::Internal;
                self.perf.add_error(e.message());
                self.perf.end_scan(epoch_s, now_ms);
                return Err(e);
            },
        };
        let finalized_items = finalize_items(&out.items, &out.files);
        let sorted = sort_items_desc(&finalized_items);
        self.perf.end_compute_phase(now_ms);
        let dirs = count_dir_items(&sorted);
        let res = ScanResult {
            items: sorted,
            total_size: total,
            total_size_formatted: format_size(total),
            scan_time_ms: 0,
            path: path.clone(),
            timing: None,
            perf_metrics: Some(
                ScanPerfMetrics {
                    io_phase_ms: 0,
                    compute_phase_ms: 0,
                    serialize_phase_ms: 0,
                    cache_read_time_ms: 0,
                    files_scanned: out.files.len(),
                    dirs_scanned: dirs,
                    threads_used: threads,
                    cache_hit: false,
                    cache_source: None,
                },
            ),
        };
        let arc = ArcScanResult::of_result(&res);
        let size = estimate_size(&arc);
        let entry = CacheEntry { result: arc, dir_mtime, size };
        let key_clone = canonical_key.clone();
        let ghost witness = (key_clone, entry);
        self.cache.insert_entry(key_clone, entry);
        proof {
            if witness.1.size <= old(self).mem_max_size_bytes() {
                lemma_put_model_hit(
                    evict_until_fits(
                        m_inv,
                        witness.1.size as int,
                        old(self).mem_max_size_bytes() as int,
                    ),
                    witness,
                    old(self).mem_max_entries() as int,
                    dir_mtime as int,
                );
            }
        }
        match &self.disk {
            Some(d) => {
                d.insert(canonical_key, &res, dir_mtime, epoch_s);
            },
            None => {},
        }
        self.perf.update_io_stats(res.items.len() - dirs, dirs, 0, res.items.len());
        self.perf.end_scan(epoch_s, now_ms);
        proof {
            assert(witness.0@ == canonical_key@);
            assert(witness.1.dir_mtime == dir_mtime);
            assert(witness.1.result.items@ == res.items@);
            assert(witness.1.size == est_result(res.items@));
            assert(m_inv == drop_prefixed(m0, canonical_key@));
            assert(self.mem_model() == (if witness.1.size > old(self).mem_max_size_bytes() {
                drop_prefixed(m0, canonical_key@)
            } else {
                put_model(
                    evict_until_fits(
                        drop_prefixed(m0, canonical_key@),
                        witness.1.size as int,
                        old(self).mem_max_size_bytes() as int,
                    ),
                    witness,
                    old(self).mem_max_entries() as int,
                )
            }));
        }
        Ok(res)
    }
}

/// Whatever was cached before, a freshly inserted entry answers the
/// next probe of its key: it sits at the head of the recency order.
pub proof fn lemma_put_model_hit(
    m: Seq<(String, CacheEntry)>,
    pair: (String, CacheEntry),
    cap: int,
    mtime: int,
)
    requires
        pair.1.dir_mtime >= mtime,
    ensures
        mem_hit(put_model(m, pair, cap), pair.0@, mtime) == Some(pair.1),
{
    let r = put_model(m, pair, cap);
    let i = index_of_key(m, pair.0@);
    if 0 <= i < m.len() {
        assert(r == m.remove(i).insert(0, pair));
        assert(r[0] == pair);
    } else if m.len() >= cap {
        assert(r == m.drop_last().insert(0, pair));
        assert(r[0] == pair);
    } else {
        assert(r == m.insert(0, pair));
        assert(r[0] == pair);
    }
    assert(r.len() > 0);
    assert(index_of_key(r, pair.0@) == 0);
}

/// How many of the items are directories.
pub open spec fn spec_count_dirs(s: Seq<Item>) -> int
    decreases s.len(),
{
    if s.len() == 0 {
        0
    } else {
        spec_count_dirs(s.drop_last()) + (if s.last().is_dir {
            1int
        } else {
            0int
        })
    }
}

/// Counts the directory items.
pub fn count_dir_items(items: &Vec<Item>) -> (r: usize)
    ensures
        r == spec_count_dirs(items@),
        r <= items@.len(),
{
    let mut r: usize = 0;
    let mut i: usize = 0;
    while i < items.len()
        invariant
            i <= items@.len(),
            r == spec_count_dirs(items@.subrange(0, i as int)),
            r <= i,
        decreases items.len() - i,
    {
        proof {
            assert(items@.subrange(0, i + 1).drop_last() =~= items@.subrange(0, i as int));
            assert(items@.subrange(0, i + 1).last() == items@[i as int]);
        }
        if items[i].is_dir {
            r = r + 1;
        }
        i = i + 1;
    }
    proof {
        assert(items@.subrange(0, items@.len() as int) =~= items@);
    }
    r
}

/// The file-size total, or nothing when it cannot be represented.
pub fn checked_total(files: &Vec<crate::walk::FileEntry>) -> (r: Option<i64>)
    ensures
        match r {
            Some(t) => t == sum_files(files_view(files@)) && sum_files(files_view(files@))
                <= i64::MAX,
            None => sum_files(files_view(files@)) > i64::MAX,
        },
{
    let ghost fv = files_view(files@);
    let mut acc: u128 = 0;
    let mut i: usize = 0;
    while i < files.len()
        invariant
            fv == files_view(files@),
            i <= files@.len(),
            fv.len() == files@.len(),
            acc == sum_files(fv.subrange(0, i as int)),
            acc <= i * (i64::MAX as int),
        decreases files.len() - i,
    {
        proof {
            assert(fv.subrange(0, i + 1).drop_last() =~= fv.subrange(0, i as int));
            assert(fv.subrange(0, i + 1).last() == fv[i as int]);
            lemma_sum_files_nonneg(fv.subrange(0, i as int));
            assert((i + 1) * (i64::MAX as int) == i * (i64::MAX as int) + i64::MAX as int)
                by (nonlinear_arith);
        }
        let s = files[i].size;
        let c: u128 = if s > i64::MAX as u64 {
            i64::MAX as u128
        } else {
            s as u128
        };
        acc = acc + c;
        i = i + 1;
    }
    proof {
        assert(fv.subrange(0, fv.len() as int) =~= fv);
    }
    if acc > i64::MAX as u128 {
        None
    } else {
        Some(acc as i64)
    }
}

/// One request of a batch scan, with its tree already listed.
pub struct ListedScanRequest {
    pub path: String,
    pub canonical_key: String,
    pub dir_mtime: i64,
    pub listings: Vec<DirListing>,
}

impl ScanEngine {
    /// Sequential fan-out over several listed trees: each request is
    /// scanned in order, failures are dropped, and the successes come
    /// back in request order. Each scan obeys [`ScanEngine::scan_listed`]'s
    /// contract against the cache state its predecessors left.
    pub fn scan_listed_batch(
        &mut self,
        requests: Vec<ListedScanRequest>,
        force_refresh: bool,
        epoch_s: i64,
        now_ms: u64,
    ) -> (r: Vec<ScanResult>)
        requires
            old(self).wf(),
        ensures
            final(self).wf(),
            final(self).has_disk() == old(self).has_disk(),
            final(self).mem_max_entries() == old(self).mem_max_entries(),
            final(self).mem_max_size_bytes() == old(self).mem_max_size_bytes(),
            r@.len() <= requests@.len(),
    {
        let mut results: Vec<ScanResult> = Vec::new();
        let mut rest = requests;
        let mut handled: usize = 0;
        let n = rest.len();
        let ghost total = n as int;
        while rest.len() > 0
            invariant
                self.wf(),
                self.has_disk() == old(self).has_disk(),
                self.mem_max_entries() == old(self).mem_max_entries(),
                self.mem_max_size_bytes() == old(self).mem_max_size_bytes(),
                handled + rest@.len() == total,
                total <= usize::MAX,
                results@.len() <= handled,
            decreases rest@.len(),
        {
            let req = rest.remove(0);
            let outcome = self.scan_listed(
                &req.path,
                &req.canonical_key,
                req.dir_mtime,
                force_refresh,
                req.listings,
                epoch_s,
                now_ms,
            );
            match outcome {
                Ok(res) => {
                    results.push(res);
                },
                Err(_) => {},
            }
            handled = handled + 1;
        }
        results
    }
}

/// Spec section three's result invariants: within one scan's item list
/// no path occurs twice and the root's empty path never appears, for
/// any tree whose listings have distinct paths and well-formed names.
pub proof fn lemma_scan_paths_unique(ls: Seq<DirListing>, a: int, b: int)
    requires
        crate::walk::distinct_listing_paths(ls),
        crate::walk::listings_names_ok(ls),
        0 <= a < scan_items_spec(ls).len(),
        0 <= b < scan_items_spec(ls).len(),
    ensures
        scan_items_spec(ls)[a].path.len() > 0,
        a != b ==> scan_items_spec(ls)[a].path != scan_items_spec(ls)[b].path,
{
    broadcast use vstd::seq_lib::group_to_multiset_ensures;

    crate::walk::lemma_walk_model_unique(ls);
    let raw = walk_model(ls).items;
    let files = walk_model(ls).files;
    let fin = finalized(raw, files);
    let s = scan_items_spec(ls);
    assert(fin.len() == raw.len());
    assert forall|k: int| 0 <= k < fin.len() implies (#[trigger] fin[k]).path == raw[k].path by {
        assert(fin[k] == finalize_item(raw[k], files));
    }
    assert forall|k1: int, k2: int|
        0 <= k1 < fin.len() && 0 <= k2 < fin.len() && k1 != k2 implies fin[k1] != fin[k2] by {
        if k1 < k2 {
            assert(raw[k1].path != raw[k2].path);
        } else {
            assert(raw[k2].path != raw[k1].path);
        }
    }
    assert(fin.no_duplicates());
    fin.lemma_multiset_has_no_duplicates();
    lemma_sort_desc_multiset(fin);
    assert forall|x: crate::item::ItemView|
        s.to_multiset().contains(x) implies s.to_multiset().count(x) == 1 by {
        assert(s.to_multiset().count(x) == fin.to_multiset().count(x));
    }
    s.lemma_multiset_has_no_duplicates_conv();
    lemma_sorted_member(fin, a);
    let pa = choose|pa: int| 0 <= pa < fin.len() && fin[pa] == s[a];
    assert(s[a].path == raw[pa].path);
    assert(s[a].path.len() > 0);
    if a != b && s[a].path == s[b].path {
        lemma_sorted_member(fin, b);
        let pb = choose|pb: int| 0 <= pb < fin.len() && fin[pb] == s[b];
        assert(s.no_duplicates());
        assert(s[a] != s[b]);
        assert(fin[pa] != fin[pb]);
        assert(pa != pb);
        assert(fin[pa].path == fin[pb].path);
        if pa < pb {
            assert(raw[pa].path != raw[pb].path);
        } else {
            assert(raw[pb].path != raw[pa].path);
        }
        assert(false);
    }
}

/// Every sorted item is one of the items that went in.
pub proof fn lemma_sorted_member(s: Seq<crate::item::ItemView>, j: int)
    requires
        0 <= j < sort_desc_spec(s).len(),
    ensures
        s.contains(sort_desc_spec(s)[j]),
{
    broadcast use vstd::seq_lib::group_to_multiset_ensures;

    lemma_sort_desc_multiset(s);
    let x = sort_desc_spec(s)[j];
    assert(sort_desc_spec(s).contains(x));
    assert(sort_desc_spec(s).to_multiset().count(x) > 0);
    assert(s.to_multiset().count(x) > 0);
}

/// Every directory a scan emits weighs exactly the sum of the file
/// sizes below its path, and every item carries the rendering of its
/// own size; files keep the size the walker saw for them.
pub proof fn lemma_scan_item_sizes(ls: Seq<DirListing>, j: int)
    requires
        0 <= j < scan_items_spec(ls).len(),
    ensures
        ({
            let it = scan_items_spec(ls)[j];
            &&& it.is_dir ==> it.size == dir_size(it.path, walk_model(ls).files)
            &&& it.size_formatted == spec_format_size(it.size)
        }),
{
    let items = walk_model(ls).items;
    let files = walk_model(ls).files;
    let fin = finalized(items, files);
    lemma_sorted_member(fin, j);
    let x = scan_items_spec(ls)[j];
    let k = choose|k: int| 0 <= k < fin.len() && fin[k] == x;
    assert(fin[k] == finalize_item(items[k], files));
}

/// Scanning twice without a change between is answered from memory: the
/// entry a scan has just cached is what the next unforced probe of the
/// same key at the same (or an older) modification time returns, so the
/// two results carry the same items.
pub proof fn lemma_rescan_serves_cached(
    m: Seq<(String, CacheEntry)>,
    key: Seq<char>,
    kv: (String, CacheEntry),
    cap: int,
    max: int,
    mtime: int,
)
    requires
        kv.0@ == key,
        kv.1.dir_mtime >= mtime,
    ensures
        mem_decision(
            put_model(evict_until_fits(drop_prefixed(m, key), kv.1.size as int, max), kv, cap),
            key,
            mtime,
            false,
        ) == Some(kv.1),
{
    lemma_put_model_hit(
        evict_until_fits(drop_prefixed(m, key), kv.1.size as int, max),
        kv,
        cap,
        mtime,
    );
}

/// After a forced refresh of `key`, no cache entry below it survives:
/// the memory tier holds the fresh entry for `key` and nothing for any
/// strictly longer key that starts with it.
pub proof fn lemma_forced_refresh_clears_descendants(
    m: Seq<(String, CacheEntry)>,
    key: Seq<char>,
    kv: (String, CacheEntry),
    cap: int,
    max: int,
    k2: Seq<char>,
)
    requires
        kv.0@ == key,
        is_prefix(key, k2),
        k2 != key,
        cap >= 1,
    ensures
        index_of_key(
            put_model(evict_until_fits(drop_prefixed(m, key), kv.1.size as int, max), kv, cap),
            k2,
        ) == -1,
{
    lemma_drop_prefixed_no_match(m, key);
    let dp = drop_prefixed(m, key);
    crate::mem_cache::lemma_evict_until_fits(dp, kv.1.size as int, max);
    let ev = evict_until_fits(dp, kv.1.size as int, max);
    assert forall|j: int| 0 <= j < ev.len() implies !is_prefix(key, #[trigger] ev[j].0@) by {
        assert(ev[j] == dp[j]);
    }
    assert(key.subrange(0, key.len() as int) =~= key);
    assert(is_prefix(key, key));
    lemma_index_of_key(ev, key);
    let i = index_of_key(ev, key);
    if i >= 0 {
        assert(!is_prefix(key, ev[i].0@));
        assert(false);
    }
    let r = put_model(ev, kv, cap);
    let rr = if ev.len() >= cap {
        ev.drop_last().insert(0, kv)
    } else {
        ev.insert(0, kv)
    };
    assert(r == rr);
    assert forall|j: int| 0 <= j < r.len() implies r[j].0@ != k2 by {
        if j == 0 {
            assert(r[0] == kv);
        } else if ev.len() >= cap {
            assert(r[j] == ev.drop_last()[j - 1]);
            assert(ev.drop_last()[j - 1] == ev[j - 1]);
            assert(!is_prefix(key, ev[j - 1].0@));
            if ev[j - 1].0@ == k2 {
                assert(is_prefix(key, k2));
                assert(false);
            }
        } else {
            assert(r[j] == ev[j - 1]);
            assert(!is_prefix(key, ev[j - 1].0@));
            if ev[j - 1].0@ == k2 {
                assert(is_prefix(key, k2));
                assert(false);
            }
        }
    }
    lemma_index_of_key(r, k2);
    if index_of_key(r, k2) >= 0 {
        assert(false);
    }
}

} // verus!
