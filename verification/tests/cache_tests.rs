use flashdir::item::{ArcScanResult, Item, ScanResult};
use flashdir::mem_cache::{CacheEntry, ScanCache};
use std::sync::Arc;

fn tiny_result(path: &str, total: i64) -> ScanResult {
    ScanResult {
        items: Vec::new(),
        total_size: total,
        total_size_formatted: flashdir::format::format_size(total),
        scan_time_ms: 0,
        path: path.to_string(),
        timing: None,
        perf_metrics: None,
    }
}

fn one_byte_entry(mtime: i64) -> CacheEntry {
    CacheEntry {
        result: ArcScanResult {
            items: Arc::new(Vec::<Item>::new()),
            total_size: 1,
            total_size_formatted: "1 B".to_string(),
            scan_time_ms: 0,
            path: String::new(),
            timing: None,
        },
        dir_mtime: mtime,
        size: 1,
    }
}

#[test]
fn cache_get_returns_inserted_result() {
    let mut cache = ScanCache::new(4, 16);
    cache.insert("/root".to_string(), &tiny_result("/root", 42), 7);
    let hit = cache.get(&"/root".to_string()).expect("entry must be cached");
    assert_eq!(hit.dir_mtime, 7);
    assert_eq!(hit.result.total_size, 42);
}

#[test]
fn cache_miss_on_unknown_key() {
    let mut cache = ScanCache::new(4, 16);
    assert!(cache.get(&"/absent".to_string()).is_none());
}

#[test]
fn cap_eviction_removes_exactly_the_oldest() {
    // A cap-3 cache fed 4 one-byte entries keeps the newest three.
    let mut cache = ScanCache::new(3, 16);
    for (i, key) in ["a", "b", "c", "d"].iter().enumerate() {
        cache.insert_entry(key.to_string(), one_byte_entry(i as i64));
    }
    assert_eq!(cache.len(), 3);
    assert!(cache.get(&"a".to_string()).is_none(), "the oldest entry must be gone");
    assert!(cache.get(&"b".to_string()).is_some());
    assert!(cache.get(&"c".to_string()).is_some());
    assert!(cache.get(&"d".to_string()).is_some());
}

#[test]
fn recency_refresh_protects_an_entry() {
    let mut cache = ScanCache::new(2, 16);
    cache.insert_entry("a".to_string(), one_byte_entry(0));
    cache.insert_entry("b".to_string(), one_byte_entry(0));
    // Touch "a" so "b" becomes the least recently used entry.
    assert!(cache.get(&"a".to_string()).is_some());
    cache.insert_entry("c".to_string(), one_byte_entry(0));
    assert!(cache.get(&"a".to_string()).is_some());
    assert!(cache.get(&"b".to_string()).is_none());
}

#[test]
fn size_bound_evicts_until_the_new_entry_fits() {
    // The size bound is 1 MiB; three ~0.4 MiB entries cannot all stay.
    let mut cache = ScanCache::new(10, 1);
    let mut big = one_byte_entry(0);
    big.size = 400 * 1024;
    cache.insert_entry("a".to_string(), CacheEntry { size: 400 * 1024, ..big.clone() });
    cache.insert_entry("b".to_string(), CacheEntry { size: 400 * 1024, ..big.clone() });
    cache.insert_entry("c".to_string(), CacheEntry { size: 400 * 1024, ..big.clone() });
    assert_eq!(cache.len(), 2);
    assert!(cache.get(&"a".to_string()).is_none(), "the oldest entry is evicted first");
    assert!(cache.get(&"b".to_string()).is_some());
    assert!(cache.get(&"c".to_string()).is_some());
}

#[test]
fn oversized_entry_is_refused() {
    let mut cache = ScanCache::new(4, 1);
    let mut huge = one_byte_entry(0);
    huge.size = 2 * 1024 * 1024;
    cache.insert_entry("big".to_string(), huge);
    assert_eq!(cache.len(), 0);
}

#[test]
fn invalidate_removes_key_and_descendants() {
    let mut cache = ScanCache::new(8, 16);
    cache.insert_entry("/r".to_string(), one_byte_entry(0));
    cache.insert_entry("/r/sub".to_string(), one_byte_entry(0));
    cache.insert_entry("/other".to_string(), one_byte_entry(0));
    cache.invalidate("/r");
    assert!(cache.get(&"/r".to_string()).is_none());
    assert!(cache.get(&"/r/sub".to_string()).is_none());
    assert!(cache.get(&"/other".to_string()).is_some());
}

#[test]
fn memory_stats_report_occupancy() {
    let mut cache = ScanCache::new(5, 16);
    cache.insert_entry("a".to_string(), one_byte_entry(0));
    cache.insert_entry("b".to_string(), one_byte_entry(0));
    let stats = cache.stats();
    assert_eq!(stats.max_entries, 5);
    assert_eq!(stats.current_entries, 2);
    assert_eq!(stats.current_size_bytes, 2);
}
