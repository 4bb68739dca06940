//! The records a scan produces: per-entry items, whole results, the
//! shared-ownership form kept in the memory cache, and per-scan metrics.
use vstd::prelude::*;

verus! {

use std::sync::Arc;

/// Wall-clock split of one scan, in milliseconds.
#[derive(Clone, Copy, Debug)]
pub struct TimingInfo {
    pub scan_phase: u64,
    pub compute_phase: u64,
    pub format_phase: u64,
    pub total: u64,
}

/// Where a cached result came from.
#[derive(Clone, Copy, Debug, PartialEq, Eq, Structural)]
pub enum CacheSource {
    Memory,
    Disk,
}

/// One filesystem entry below the scan root. `path` is root-relative and
/// forward-slash separated; the root itself is never an item. For a
/// directory, `size` is the sum of the sizes of all files below it.
#[derive(Clone, Debug)]
pub struct Item {
    pub path: String,
    pub name: String,
    pub size: i64,
    pub size_formatted: String,
    pub is_dir: bool,
}

/// The ghost form of an [`Item`].
#[verifier::ext_equal]
pub ghost struct ItemView {
    pub path: Seq<char>,
    pub name: Seq<char>,
    pub size: int,
    pub size_formatted: Seq<char>,
    pub is_dir: bool,
}

impl View for Item {
    type V = ItemView;

    open spec fn view(&self) -> ItemView {
        ItemView {
            path: self.path@,
            name: self.name@,
            size: self.size as int,
            size_formatted: self.size_formatted@,
            is_dir: self.is_dir,
        }
    }
}

/// Per-scan instrumentation attached to a result.
#[derive(Clone, Debug)]
pub struct ScanPerfMetrics {
    pub io_phase_ms: u64,
    pub compute_phase_ms: u64,
    pub serialize_phase_ms: u64,
    pub cache_read_time_ms: u64,
    pub files_scanned: usize,
    pub dirs_scanned: usize,
    pub threads_used: usize,
    pub cache_hit: bool,
    pub cache_source: Option<CacheSource>,
}

/// What a scan returns: the items sorted by descending size, the total of
/// all file sizes, and timing metadata.
#[derive(Clone, Debug)]
pub struct ScanResult {
    pub items: Vec<Item>,
    pub total_size: i64,
    pub total_size_formatted: String,
    pub scan_time_ms: u64,
    pub path: String,
    pub timing: Option<TimingInfo>,
    pub perf_metrics: Option<ScanPerfMetrics>,
}

/// The cached form of a result: the item vector is behind a shared handle,
/// so cache hits return without copying it.
#[derive(Clone, Debug)]
pub struct ArcScanResult {
    pub items: Arc<Vec<Item>>,
    pub total_size: i64,
    pub total_size_formatted: String,
    pub scan_time_ms: u64,
    pub path: String,
    pub timing: Option<TimingInfo>,
}

/// A field-for-field copy of an item.
pub fn clone_item(i: &Item) -> (r: Item)
    ensures
        r == *i,
{
    Item {
        path: i.path.clone(),
        name: i.name.clone(),
        size: i.size,
        size_formatted: i.size_formatted.clone(),
        is_dir: i.is_dir,
    }
}

/// An element-for-element copy of an item vector.
pub fn clone_items(v: &Vec<Item>) -> (r: Vec<Item>)
    ensures
        r@ == v@,
{
    let mut r: Vec<Item> = Vec::new();
    let mut i: usize = 0;
    while i < v.len()
        invariant
            i <= v.len(),
            r@ == v@.subrange(0, i as int),
        decreases v.len() - i,
    {
        r.push(clone_item(&v[i]));
        proof {
            assert(r@ =~= v@.subrange(0, i + 1));
        }
        i = i + 1;
    }
    proof {
        assert(v@.subrange(0, v@.len() as int) =~= v@);
    }
    r
}

impl ArcScanResult {
    /// Wraps a plain result for the cache, sharing the items vector.
    pub fn of_result(r: &ScanResult) -> (a: ArcScanResult)
        ensures
            a.items@ == r.items@,
            a.total_size == r.total_size,
            a.total_size_formatted@ == r.total_size_formatted@,
            a.scan_time_ms == r.scan_time_ms,
            a.path@ == r.path@,
            a.timing == r.timing,
    {
        ArcScanResult {
            items: Arc::new(clone_items(&r.items)),
            total_size: r.total_size,
            total_size_formatted: r.total_size_formatted.clone(),
            scan_time_ms: r.scan_time_ms,
            path: r.path.clone(),
            timing: r.timing,
        }
    }

    /// Unfolds the cached form back into a plain result; `perf_metrics`
    /// starts out empty, as the caller fills it in.
    pub fn to_result(&self) -> (r: ScanResult)
        ensures
            r.items@ == self.items@,
            r.total_size == self.total_size,
            r.total_size_formatted@ == self.total_size_formatted@,
            r.scan_time_ms == self.scan_time_ms,
            r.path@ == self.path@,
            r.timing == self.timing,
            r.perf_metrics is None,
    {
        ScanResult {
            items: clone_items(&*self.items),
            total_size: self.total_size,
            total_size_formatted: self.total_size_formatted.clone(),
            scan_time_ms: self.scan_time_ms,
            path: self.path.clone(),
            timing: self.timing,
            perf_metrics: None,
        }
    }
}

} // verus!
