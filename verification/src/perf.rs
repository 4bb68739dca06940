//! The per-scan instrumentation: one session at a time, a bounded history
//! of finished scans, and summary statistics over that history. The
//! monitor never reads a clock itself; callers hand it the current time,
//! so every update is a pure state transition.
use vstd::prelude::*;

verus! {

use vstd::string::StringExecFns;

/// Everything recorded about one scan.
#[derive(Clone, Debug)]
pub struct ScanMetrics {
    pub scan_id: String,
    pub path: String,
    pub start_time: i64,
    pub end_time: Option<i64>,
    pub duration_ms: u64,
    pub io_phase_ms: u64,
    pub compute_phase_ms: u64,
    pub serialize_phase_ms: u64,
    pub cache_phase_ms: u64,
    pub files_scanned: usize,
    pub dirs_scanned: usize,
    pub bytes_read: u64,
    pub io_operations: usize,
    pub threads_used: usize,
    pub memory_peak_kb: u64,
    pub memory_allocated_kb: u64,
    pub cache_hit: bool,
    pub cache_read_time_ms: u64,
    pub errors: Vec<String>,
}

/// The in-flight session: its metrics so far and the instants its
/// phases started, in caller-supplied milliseconds.
pub struct ScanSession {
    pub metrics: ScanMetrics,
    pub io_started_ms: u64,
    pub compute_started_ms: u64,
    pub start_ms: u64,
}

/// Summary statistics over the history, all in integer milliseconds;
/// the hit rate is given by `cache_hits` over `total_scans`.
pub struct PerformanceSummary {
    pub total_scans: usize,
    pub cache_hits: usize,
    pub avg_scan_duration_ms: u64,
    pub min_scan_duration_ms: u64,
    pub max_scan_duration_ms: u64,
    pub avg_io_time_ms: u64,
}

/// The monitor: at most one open session, and the most recent
/// `max_history` finished scans.
pub struct PerformanceMonitor {
    pub current_scan: Option<ScanSession>,
    pub history: Vec<ScanMetrics>,
    pub max_history: usize,
}

/// How many history entries record a cache hit.
pub open spec fn count_hits(h: Seq<ScanMetrics>) -> int
    decreases h.len(),
{
    if h.len() == 0 {
        0
    } else {
        count_hits(h.drop_last()) + (if h.last().cache_hit {
            1int
        } else {
            0int
        })
    }
}

/// The summed scan durations.
pub open spec fn sum_durations(h: Seq<ScanMetrics>) -> int
    decreases h.len(),
{
    if h.len() == 0 {
        0
    } else {
        sum_durations(h.drop_last()) + h.last().duration_ms
    }
}

/// The summed I/O phase times.
pub open spec fn sum_io(h: Seq<ScanMetrics>) -> int
    decreases h.len(),
{
    if h.len() == 0 {
        0
    } else {
        sum_io(h.drop_last()) + h.last().io_phase_ms
    }
}

/// The smallest scan duration, starting from `u64::MAX`.
pub open spec fn min_duration(h: Seq<ScanMetrics>) -> int
    decreases h.len(),
{
    if h.len() == 0 {
        u64::MAX as int
    } else if h.last().duration_ms < min_duration(h.drop_last()) {
        h.last().duration_ms as int
    } else {
        min_duration(h.drop_last())
    }
}

/// The largest scan duration, starting from zero.
pub open spec fn max_duration(h: Seq<ScanMetrics>) -> int
    decreases h.len(),
{
    if h.len() == 0 {
        0
    } else if h.last().duration_ms > max_duration(h.drop_last()) {
        h.last().duration_ms as int
    } else {
        max_duration(h.drop_last())
    }
}

/// Relies on `uuid::Uuid::new_v4` and its hyphenated rendering: a fresh
/// random identifier for a scan; nothing is assumed about its value.
#[verifier::external_body]
fn new_scan_id() -> String {
    uuid::Uuid::new_v4().to_string()
}

/// An element-for-element copy of a string vector.
pub fn clone_strings(v: &Vec<String>) -> (r: Vec<String>)
    ensures
        r@ == v@,
{
    let mut r: Vec<String> = Vec::new();
    let mut i: usize = 0;
    while i < v.len()
        invariant
            i <= v.len(),
            r@ == v@.subrange(0, i as int),
        decreases v.len() - i,
    {
        r.push(v[i].clone());
        proof {
            assert(r@ =~= v@.subrange(0, i + 1));
        }
        i = i + 1;
    }
    proof {
        assert(v@.subrange(0, v@.len() as int) =~= v@);
    }
    r
}

/// Equality of metrics records, content-wise: every field matches, the
/// error list by its contents.
pub open spec fn metrics_eq(a: ScanMetrics, b: ScanMetrics) -> bool {
    &&& a.scan_id@ == b.scan_id@
    &&& a.path@ == b.path@
    &&& a.start_time == b.start_time
    &&& a.end_time == b.end_time
    &&& a.duration_ms == b.duration_ms
    &&& a.io_phase_ms == b.io_phase_ms
    &&& a.compute_phase_ms == b.compute_phase_ms
    &&& a.serialize_phase_ms == b.serialize_phase_ms
    &&& a.cache_phase_ms == b.cache_phase_ms
    &&& a.files_scanned == b.files_scanned
    &&& a.dirs_scanned == b.dirs_scanned
    &&& a.bytes_read == b.bytes_read
    &&& a.io_operations == b.io_operations
    &&& a.threads_used == b.threads_used
    &&& a.memory_peak_kb == b.memory_peak_kb
    &&& a.memory_allocated_kb == b.memory_allocated_kb
    &&& a.cache_hit == b.cache_hit
    &&& a.cache_read_time_ms == b.cache_read_time_ms
    &&& a.errors@ == b.errors@
}

/// A field-for-field copy of one metrics record.
pub fn clone_metrics(m: &ScanMetrics) -> (r: ScanMetrics)
    ensures
        metrics_eq(r, *m),
{
    let r = ScanMetrics {
        scan_id: m.scan_id.clone(),
        path: m.path.clone(),
        start_time: m.start_time,
        end_time: m.end_time,
        duration_ms: m.duration_ms,
        io_phase_ms: m.io_phase_ms,
        compute_phase_ms: m.compute_phase_ms,
        serialize_phase_ms: m.serialize_phase_ms,
        cache_phase_ms: m.cache_phase_ms,
        files_scanned: m.files_scanned,
        dirs_scanned: m.dirs_scanned,
        bytes_read: m.bytes_read,
        io_operations: m.io_operations,
        threads_used: m.threads_used,
        memory_peak_kb: m.memory_peak_kb,
        memory_allocated_kb: m.memory_allocated_kb,
        cache_hit: m.cache_hit,
        cache_read_time_ms: m.cache_read_time_ms,
        errors: clone_strings(&m.errors),
    };
    r
}

impl PerformanceMonitor {
    /// A monitor with no session and room for `max_history` records.
    pub fn new(max_history: usize) -> (r: PerformanceMonitor)
        ensures
            r.current_scan is None,
            r.history@ =~= Seq::<ScanMetrics>::empty(),
            r.max_history == max_history,
    {
        PerformanceMonitor { current_scan: None, history: Vec::new(), max_history }
    }

    /// Opens a session for `path` at wall-clock second `epoch_s` and
    /// monotonic millisecond `now_ms`, and returns its fresh random
    /// identifier. An unfinished session is overwritten.
    pub fn start_scan(&mut self, path: &str, epoch_s: i64, now_ms: u64) -> (r: String)
        ensures
            final(self).max_history == old(self).max_history,
            final(self).history == old(self).history,
            final(self).current_scan matches Some(s) && {
                &&& s.metrics.scan_id@ == r@
                &&& s.metrics.path@ == path@
                &&& s.metrics.start_time == epoch_s
                &&& s.metrics.end_time is None
                &&& s.metrics.duration_ms == 0
                &&& s.metrics.io_phase_ms == 0
                &&& s.metrics.compute_phase_ms == 0
                &&& s.metrics.cache_hit == false
                &&& s.metrics.errors@ =~= Seq::<String>::empty()
                &&& s.io_started_ms == now_ms
                &&& s.compute_started_ms == now_ms
                &&& s.start_ms == now_ms
            },
    {
        let scan_id = new_scan_id();
        let metrics = ScanMetrics {
            scan_id: scan_id.clone(),
            path: String::from_str(path),
            start_time: epoch_s,
            end_time: None,
            duration_ms: 0,
            io_phase_ms: 0,
            compute_phase_ms: 0,
            serialize_phase_ms: 0,
            cache_phase_ms: 0,
            files_scanned: 0,
            dirs_scanned: 0,
            bytes_read: 0,
            io_operations: 0,
            threads_used: 0,
            memory_peak_kb: 0,
            memory_allocated_kb: 0,
            cache_hit: false,
            cache_read_time_ms: 0,
            errors: Vec::new(),
        };
        self.current_scan = Some(
            ScanSession {
                metrics,
                io_started_ms: now_ms,
                compute_started_ms: now_ms,
                start_ms: now_ms,
            },
        );
        scan_id
    }

    /// Marks the start of the walking phase.
    pub fn start_io_phase(&mut self, now_ms: u64)
        ensures
            final(self).max_history == old(self).max_history,
            final(self).history == old(self).history,
            match old(self).current_scan {
                None => final(self).current_scan is None,
                Some(s) => final(self).current_scan == Some(
                    ScanSession { io_started_ms: now_ms, ..s },
                ),
            },
    {
        match &mut self.current_scan {
            Some(s) => {
                s.io_started_ms = now_ms;
            },
            None => {},
        }
    }

    /// Closes the walking phase; its length is the time since its start.
    pub fn end_io_phase(&mut self, now_ms: u64)
        ensures
            final(self).max_history == old(self).max_history,
            final(self).history == old(self).history,
            match old(self).current_scan {
                None => final(self).current_scan is None,
                Some(s) => final(self).current_scan == Some(
                    ScanSession {
                        metrics: ScanMetrics {
                            io_phase_ms: now_ms.saturating_sub(s.io_started_ms),
                            ..s.metrics
                        },
                        ..s
                    },
                ),
            },
    {
        match &mut self.current_scan {
            Some(s) => {
                s.metrics.io_phase_ms = now_ms.saturating_sub(s.io_started_ms);
            },
            None => {},
        }
    }

    /// Marks the start of the aggregation phase.
    pub fn start_compute_phase(&mut self, now_ms: u64)
        ensures
            final(self).max_history == old(self).max_history,
            final(self).history == old(self).history,
            match old(self).current_scan {
                None => final(self).current_scan is None,
                Some(s) => final(self).current_scan == Some(
                    ScanSession { compute_started_ms: now_ms, ..s },
                ),
            },
    {
        match &mut self.current_scan {
            Some(s) => {
                s.compute_started_ms = now_ms;
            },
            None => {},
        }
    }

    /// Closes the aggregation phase.
    pub fn end_compute_phase(&mut self, now_ms: u64)
        ensures
            final(self).max_history == old(self).max_history,
            final(self).history == old(self).history,
            match old(self).current_scan {
                None => final(self).current_scan is None,
                Some(s) => final(self).current_scan == Some(
                    ScanSession {
                        metrics: ScanMetrics {
                            compute_phase_ms: now_ms.saturating_sub(s.compute_started_ms),
                            ..s.metrics
                        },
                        ..s
                    },
                ),
            },
    {
        match &mut self.current_scan {
            Some(s) => {
                s.metrics.compute_phase_ms = now_ms.saturating_sub(s.compute_started_ms);
            },
            None => {},
        }
    }

    /// Records what the walker saw.
    pub fn update_io_stats(&mut self, files: usize, dirs: usize, bytes: u64, operations: usize)
        ensures
            final(self).max_history == old(self).max_history,
            final(self).history == old(self).history,
            match old(self).current_scan {
                None => final(self).current_scan is None,
                Some(s) => final(self).current_scan == Some(
                    ScanSession {
                        metrics: ScanMetrics {
                            files_scanned: files,
                            dirs_scanned: dirs,
                            bytes_read: bytes,
                            io_operations: operations,
                            ..s.metrics
                        },
                        ..s
                    },
                ),
            },
    {
        match &mut self.current_scan {
            Some(s) => {
                s.metrics.files_scanned = files;
                s.metrics.dirs_scanned = dirs;
                s.metrics.bytes_read = bytes;
                s.metrics.io_operations = operations;
            },
            None => {},
        }
    }

    /// Records the estimated memory high-water marks, in kilobytes.
    pub fn update_memory_stats(&mut self, peak_kb: u64, allocated_kb: u64)
        ensures
            final(self).max_history == old(self).max_history,
            final(self).history == old(self).history,
            match old(self).current_scan {
                None => final(self).current_scan is None,
                Some(s) => final(self).current_scan == Some(
                    ScanSession {
                        metrics: ScanMetrics {
                            memory_peak_kb: peak_kb,
                            memory_allocated_kb: allocated_kb,
                            ..s.metrics
                        },
                        ..s
                    },
                ),
            },
    {
        match &mut self.current_scan {
            Some(s) => {
                s.metrics.memory_peak_kb = peak_kb;
                s.metrics.memory_allocated_kb = allocated_kb;
            },
            None => {},
        }
    }

    /// Records how many worker threads the walk was planned with.
    pub fn set_threads_used(&mut self, threads: usize)
        ensures
            final(self).max_history == old(self).max_history,
            final(self).history == old(self).history,
            match old(self).current_scan {
                None => final(self).current_scan is None,
                Some(s) => final(self).current_scan == Some(
                    ScanSession {
                        metrics: ScanMetrics { threads_used: threads, ..s.metrics },
                        ..s
                    },
                ),
            },
    {
        match &mut self.current_scan {
            Some(s) => {
                s.metrics.threads_used = threads;
            },
            None => {},
        }
    }

    /// Records that a cache tier answered, and how long the read took.
    pub fn record_cache_hit(&mut self, read_time_ms: u64)
        ensures
            final(self).max_history == old(self).max_history,
            final(self).history == old(self).history,
            match old(self).current_scan {
                None => final(self).current_scan is None,
                Some(s) => final(self).current_scan == Some(
                    ScanSession {
                        metrics: ScanMetrics {
                            cache_hit: true,
                            cache_read_time_ms: read_time_ms,
                            ..s.metrics
                        },
                        ..s
                    },
                ),
            },
    {
        match &mut self.current_scan {
            Some(s) => {
                s.metrics.cache_hit = true;
                s.metrics.cache_read_time_ms = read_time_ms;
            },
            None => {},
        }
    }

    /// Appends an error message to the session.
    pub fn add_error(&mut self, error: String)
        ensures
            final(self).max_history == old(self).max_history,
            final(self).history == old(self).history,
            match old(self).current_scan {
                None => final(self).current_scan is None,
                Some(s) => final(self).current_scan matches Some(t) && t.metrics.errors@
                    == s.metrics.errors@.push(error) && t.metrics == (ScanMetrics {
                    errors: t.metrics.errors,
                    ..s.metrics
                }) && t.io_started_ms == s.io_started_ms && t.compute_started_ms
                    == s.compute_started_ms && t.start_ms == s.start_ms,
            },
    {
        match &mut self.current_scan {
            Some(s) => {
                s.metrics.errors.push(error);
            },
            None => {},
        }
    }

    /// Closes the session: stamps its end time and duration, appends it
    /// to the history (evicting the oldest record when full), and hands
    /// the finished metrics back.
    pub fn end_scan(&mut self, epoch_s: i64, now_ms: u64) -> (r: Option<ScanMetrics>)
        requires
            old(self).history@.len() <= old(self).max_history,
        ensures
            final(self).max_history == old(self).max_history,
            final(self).current_scan is None,
            final(self).history@.len() <= old(self).max_history,
            match old(self).current_scan {
                None => {
                    &&& r is None
                    &&& final(self).history == old(self).history
                },
                Some(s) => {
                    let m = ScanMetrics {
                        end_time: Some(epoch_s),
                        duration_ms: now_ms.saturating_sub(s.start_ms),
                        ..s.metrics
                    };
                    &&& r matches Some(out) && metrics_eq(out, m)
                    &&& final(self).history@ == (if old(self).history@.len()
                        >= old(self).max_history && old(self).max_history > 0 {
                        old(self).history@.drop_first().push(m)
                    } else if old(self).max_history == 0 {
                        old(self).history@
                    } else {
                        old(self).history@.push(m)
                    })
                },
            },
    {
        let mut current: Option<ScanSession> = None;
        std::mem::swap(&mut current, &mut self.current_scan);
        match current {
            Some(s) => {
                let mut m = s.metrics;
                m.end_time = Some(epoch_s);
                m.duration_ms = now_ms.saturating_sub(s.start_ms);
                let out = clone_metrics(&m);
                if self.max_history == 0 {
                    return Some(out);
                }
                if self.history.len() >= self.max_history {
                    self.history.remove(0);
                }
                self.history.push(m);
                return Some(out);
            },
            None => None,
        }
    }

    /// A copy of the open session's metrics, if a scan is in flight.
    pub fn get_current_metrics(&self) -> (r: Option<ScanMetrics>)
        ensures
            match self.current_scan {
                None => r is None,
                Some(s) => r matches Some(c) && metrics_eq(c, s.metrics),
            },
    {
        match &self.current_scan {
            Some(s) => Some(clone_metrics(&s.metrics)),
            None => None,
        }
    }

    /// A copy of the finished-scan history, oldest first.
    pub fn get_history(&self) -> (r: Vec<ScanMetrics>)
        ensures
            r@.len() == self.history@.len(),
            forall|i: int|
                0 <= i < r@.len() ==> metrics_eq(#[trigger] r@[i], self.history@[i]),
    {
        let mut r: Vec<ScanMetrics> = Vec::new();
        let mut i: usize = 0;
        while i < self.history.len()
            invariant
                i <= self.history@.len(),
                r@.len() == i,
                forall|j: int|
                    0 <= j < i ==> metrics_eq(#[trigger] r@[j], self.history@[j]),
            decreases self.history.len() - i,
        {
            r.push(clone_metrics(&self.history[i]));
            i = i + 1;
        }
        r
    }

    /// Forgets all finished scans.
    pub fn clear_history(&mut self)
        ensures
            final(self).max_history == old(self).max_history,
            final(self).current_scan == old(self).current_scan,
            final(self).history@ =~= Seq::<ScanMetrics>::empty(),
    {
        self.history.clear();
    }

    /// Summary statistics over the history: counts, averages (integer
    /// division), and extremes. All zero when the history is empty.
    pub fn get_summary(&self) -> (r: PerformanceSummary)
        ensures
            self.history@.len() == 0 ==> r == (PerformanceSummary {
                total_scans: 0,
                cache_hits: 0,
                avg_scan_duration_ms: 0,
                min_scan_duration_ms: 0,
                max_scan_duration_ms: 0,
                avg_io_time_ms: 0,
            }),
            self.history@.len() > 0 ==> {
                let h = self.history@;
                &&& r.total_scans == h.len()
                &&& r.cache_hits == count_hits(h)
                &&& r.avg_scan_duration_ms == sum_durations(h) / h.len() as int
                &&& r.min_scan_duration_ms == min_duration(h)
                &&& r.max_scan_duration_ms == max_duration(h)
                &&& r.avg_io_time_ms == sum_io(h) / h.len() as int
            },
    {
        let h = &self.history;
        let ghost hs = h@;
        if h.len() == 0 {
            return PerformanceSummary {
                total_scans: 0,
                cache_hits: 0,
                avg_scan_duration_ms: 0,
                min_scan_duration_ms: 0,
                max_scan_duration_ms: 0,
                avg_io_time_ms: 0,
            };
        }
        let mut hits: usize = 0;
        let mut dur: u128 = 0;
        let mut io: u128 = 0;
        let mut mn: u64 = u64::MAX;
        let mut mx: u64 = 0;
        let mut i: usize = 0;
        while i < h.len()
            invariant
                hs == h@,
                i <= hs.len(),
                hits == count_hits(hs.subrange(0, i as int)),
                dur == sum_durations(hs.subrange(0, i as int)),
                io == sum_io(hs.subrange(0, i as int)),
                mn == min_duration(hs.subrange(0, i as int)),
                mx == max_duration(hs.subrange(0, i as int)),
                hits <= i,
                dur <= i * (u64::MAX as int),
                io <= i * (u64::MAX as int),
            decreases h.len() - i,
        {
            proof {
                assert(hs.subrange(0, i + 1).drop_last() =~= hs.subrange(0, i as int));
                assert(hs.subrange(0, i + 1).last() == hs[i as int]);
                assert((i + 1) * (u64::MAX as int) == i * (u64::MAX as int) + u64::MAX as int)
                    by (nonlinear_arith);
            }
            let m = &h[i];
            if m.cache_hit {
                hits = hits + 1;
            }
            dur = dur + m.duration_ms as u128;
            io = io + m.io_phase_ms as u128;
            if m.duration_ms < mn {
                mn = m.duration_ms;
            }
            if m.duration_ms > mx {
                mx = m.duration_ms;
            }
            i = i + 1;
        }
        proof {
            assert(hs.subrange(0, hs.len() as int) =~= hs);
            lemma_sums_nonneg(hs);
            lemma_avg_bounded(dur as int, h@.len() as int, u64::MAX as int);
            lemma_avg_bounded(io as int, h@.len() as int, u64::MAX as int);
        }
        let n = h.len();
        PerformanceSummary {
            total_scans: n,
            cache_hits: hits,
            avg_scan_duration_ms: (dur / n as u128) as u64,
            min_scan_duration_ms: mn,
            max_scan_duration_ms: mx,
            avg_io_time_ms: (io / n as u128) as u64,
        }
    }
}

/// An average over `n` terms bounded by `bound` is bounded by `bound`.
pub proof fn lemma_avg_bounded(sum: int, n: int, bound: int)
    requires
        n >= 1,
        0 <= sum,
        sum <= n * bound,
        bound >= 0,
    ensures
        sum / n <= bound,
{
    vstd::arithmetic::div_mod::lemma_fundamental_div_mod(sum, n);
    if sum / n > bound {
        vstd::arithmetic::mul::lemma_mul_inequality(bound + 1, sum / n, n);
        assert((bound + 1) * n == bound * n + n) by (nonlinear_arith);
        assert(n * (sum / n) == (sum / n) * n) by (nonlinear_arith);
        assert(n * bound == bound * n) by (nonlinear_arith);
        assert(0 <= sum % n);
        assert(false);
    }
}

pub proof fn lemma_sums_nonneg(h: Seq<ScanMetrics>)
    ensures
        0 <= count_hits(h) <= h.len(),
        0 <= sum_durations(h) <= h.len() * (u64::MAX as int),
        0 <= sum_io(h) <= h.len() * (u64::MAX as int),
        0 <= max_duration(h) <= u64::MAX,
        0 <= min_duration(h) <= u64::MAX,
    decreases h.len(),
{
    if h.len() > 0 {
        lemma_sums_nonneg(h.drop_last());
        assert(h.len() * (u64::MAX as int) == (h.len() - 1) * (u64::MAX as int) + u64::MAX as int)
            by (nonlinear_arith);
    }
}

} // verus!
