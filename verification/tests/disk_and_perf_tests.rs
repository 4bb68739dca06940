use flashdir::disk_cache::{disk_hit_valid, rows_to_evict, ttl_cutoff, DiskCache};
use flashdir::item::{Item, ScanResult};
use flashdir::perf::PerformanceMonitor;

fn sample_result(path: &str, total: i64) -> ScanResult {
    ScanResult {
        items: vec![Item {
            path: "a".to_string(),
            name: "a".to_string(),
            size: total,
            size_formatted: flashdir::format::format_size(total),
            is_dir: false,
        }],
        total_size: total,
        total_size_formatted: flashdir::format::format_size(total),
        scan_time_ms: 3,
        path: path.to_string(),
        timing: None,
        perf_metrics: None,
    }
}

#[test]
fn disk_cache_round_trip() {
    let cache = DiskCache::open_in_memory().unwrap();
    let key = "/root".to_string();
    assert!(cache.insert(&key, &sample_result("/root", 123), 5, 1000));
    let hit = cache.get(&key, 5, 1001).expect("a fresh row must answer");
    assert_eq!(hit.total_size, 123);
    assert_eq!(hit.items.len(), 1);
    assert_eq!(hit.items[0].path, "a");
}

#[test]
fn disk_cache_stale_row_misses() {
    let cache = DiskCache::open_in_memory().unwrap();
    let key = "/root".to_string();
    cache.insert(&key, &sample_result("/root", 1), 5, 1000);
    assert!(cache.get(&key, 6, 1001).is_none(), "a newer root mtime must miss");
    assert!(cache.get(&key, 4, 1001).is_some(), "an older probe still hits");
}

#[test]
fn disk_cache_invalidate_clears_descendants() {
    let cache = DiskCache::open_in_memory().unwrap();
    cache.insert(&"/r".to_string(), &sample_result("/r", 1), 5, 1000);
    cache.insert(&"/r/sub".to_string(), &sample_result("/r/sub", 2), 5, 1000);
    cache.insert(&"/other".to_string(), &sample_result("/other", 3), 5, 1000);
    assert!(cache.invalidate(&"/r".to_string()));
    assert!(cache.get(&"/r".to_string(), 5, 1001).is_none());
    assert!(cache.get(&"/r/sub".to_string(), 5, 1001).is_none());
    assert!(cache.get(&"/other".to_string(), 5, 1001).is_some());
}

#[test]
fn disk_cache_clear_and_stats() {
    let cache = DiskCache::open_in_memory().unwrap();
    cache.insert(&"/a".to_string(), &sample_result("/a", 1), 5, 1000);
    cache.insert(&"/b".to_string(), &sample_result("/b", 2), 5, 1001);
    let stats = cache.get_stats();
    assert_eq!(stats.entry_count, 2);
    assert!(stats.total_size_bytes > 0);
    assert_eq!(stats.total_size_mb, stats.total_size_bytes / (1024 * 1024));
    assert_eq!(stats.oldest_entry_timestamp, Some(1000));
    assert!(cache.clear());
    assert_eq!(cache.get_stats().entry_count, 0);
}

#[test]
fn disk_cache_ttl_drops_old_rows() {
    let cache = DiskCache::open_in_memory().unwrap();
    cache.insert(&"/old".to_string(), &sample_result("/old", 1), 5, 1000);
    // Eight days later the row has aged out.
    let now = 1000 + 8 * 24 * 3600;
    cache.cleanup_old_entries(now);
    assert!(cache.get(&"/old".to_string(), 5, now).is_none());
}

#[test]
fn disk_decisions_are_exact() {
    assert!(disk_hit_valid(5, 5));
    assert!(disk_hit_valid(6, 5));
    assert!(!disk_hit_valid(4, 5));
    assert_eq!(ttl_cutoff(1_000_000), 1_000_000 - 604_800);
    // 600 MiB stored + 30 MiB incoming against a 500 MiB bound with a
    // quarter-bound slack: 255 MiB worth of rows leave.
    let mib = 1024 * 1024;
    assert_eq!(rows_to_evict(600 * mib, 30 * mib, 500 * mib), 255);
    // A fractional overshoot rounds up: one and a half mebibytes of
    // excess cost two rows.
    assert_eq!(rows_to_evict(376 * mib + mib / 2, 0, 500 * mib), 2);
    // Anything positive evicts at least one row.
    assert_eq!(rows_to_evict(0, 1, 500 * mib), 1);
}

#[test]
fn perf_monitor_tracks_a_session() {
    let mut m = PerformanceMonitor::new(3);
    let id = m.start_scan("/root", 100, 1000);
    assert_eq!(id.len(), 36, "scan identifiers are hyphenated UUIDs");
    m.start_io_phase(1000);
    m.end_io_phase(1250);
    m.start_compute_phase(1250);
    m.end_compute_phase(1300);
    m.update_io_stats(10, 2, 4096, 12);
    m.set_threads_used(8);
    let finished = m.end_scan(101, 1400).expect("an open session must close");
    assert_eq!(finished.io_phase_ms, 250);
    assert_eq!(finished.compute_phase_ms, 50);
    assert_eq!(finished.duration_ms, 400);
    assert_eq!(finished.files_scanned, 10);
    assert_eq!(finished.threads_used, 8);
    assert_eq!(finished.end_time, Some(101));
    assert!(m.get_current_metrics().is_none());
}

#[test]
fn perf_history_is_bounded() {
    let mut m = PerformanceMonitor::new(2);
    for i in 0..4 {
        m.start_scan("/p", i, 0);
        m.end_scan(i, (i as u64) * 10);
    }
    assert_eq!(m.get_history().len(), 2);
}

#[test]
fn perf_summary_aggregates() {
    let mut m = PerformanceMonitor::new(10);
    m.start_scan("/a", 0, 0);
    m.record_cache_hit(1);
    m.end_scan(0, 100);
    m.start_scan("/b", 0, 0);
    m.end_scan(0, 300);
    let s = m.get_summary();
    assert_eq!(s.total_scans, 2);
    assert_eq!(s.cache_hits, 1);
    assert_eq!(s.avg_scan_duration_ms, 200);
    assert_eq!(s.min_scan_duration_ms, 100);
    assert_eq!(s.max_scan_duration_ms, 300);
    let mut empty = PerformanceMonitor::new(5);
    assert_eq!(empty.get_summary().total_scans, 0);
    empty.clear_history();
}
