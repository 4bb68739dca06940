use flashdir::disk_cache::DiskCache;
use flashdir::engine::{
    push_history, reversed_history, HistoryItem, ListedScanRequest, ListingCollector, ScanEngine,
    ScanError,
};
use flashdir::item::CacheSource;
use flashdir::walk::{DirListing, EntryKind, RawEntry};

fn file(name: &str, size: u64) -> RawEntry {
    RawEntry { name: name.to_string(), kind: EntryKind::File, size }
}

fn dir(name: &str) -> RawEntry {
    RawEntry { name: name.to_string(), kind: EntryKind::Dir, size: 0 }
}

fn symlink(name: &str) -> RawEntry {
    RawEntry { name: name.to_string(), kind: EntryKind::Symlink, size: 0 }
}

fn listing(path: &str, entries: Vec<RawEntry>) -> DirListing {
    DirListing { path: path.to_string(), entries }
}

fn engine() -> ScanEngine {
    ScanEngine::new(30, 200, 50, None)
}

fn scan(
    engine: &mut ScanEngine,
    key: &str,
    mtime: i64,
    force: bool,
    listings: Vec<DirListing>,
) -> Result<flashdir::item::ScanResult, ScanError> {
    engine.scan_listed(&key.to_string(), &key.to_string(), mtime, force, listings, 1000, 0)
}

#[test]
fn empty_directory_scans_to_nothing() {
    let mut e = engine();
    let r = scan(&mut e, "/root", 1, false, vec![listing("", vec![])]).unwrap();
    assert!(r.items.is_empty());
    assert_eq!(r.total_size, 0);
    assert_eq!(r.total_size_formatted, "0 B");
}

#[test]
fn two_files_at_root() {
    let mut e = engine();
    let r = scan(
        &mut e,
        "/root",
        1,
        false,
        vec![listing("", vec![file("a.bin", 1500), file("b.bin", 500)])],
    )
    .unwrap();
    let paths: Vec<&str> = r.items.iter().map(|i| i.path.as_str()).collect();
    assert_eq!(paths, vec!["a.bin", "b.bin"]);
    assert_eq!(r.total_size, 2000);
    assert_eq!(r.total_size_formatted, "1.95 KB");
    assert!(r.items.iter().all(|i| i.path != ""), "the root itself is never an item");
}

#[test]
fn nested_directories_sorted_by_descending_size() {
    let mut e = engine();
    let r = scan(
        &mut e,
        "/root",
        1,
        false,
        vec![
            listing("", vec![file("x", 2048), dir("sub")]),
            listing("sub", vec![file("y", 1024)]),
        ],
    )
    .unwrap();
    let view: Vec<(&str, i64)> = r.items.iter().map(|i| (i.path.as_str(), i.size)).collect();
    assert_eq!(view, vec![("x", 2048), ("sub", 1024), ("sub/y", 1024)]);
    assert_eq!(r.total_size, 3072);
    for w in r.items.windows(2) {
        assert!(w[0].size >= w[1].size, "sizes must never ascend");
    }
}

#[test]
fn symlink_is_skipped() {
    let mut e = engine();
    let r = scan(
        &mut e,
        "/root",
        1,
        false,
        vec![listing("", vec![file("a", 100), symlink("link")])],
    )
    .unwrap();
    assert!(r.items.iter().all(|i| i.name != "link"));
    assert_eq!(r.total_size, 100);
}

#[test]
fn blank_path_is_invalid_input() {
    let mut e = engine();
    let r = scan(&mut e, "", 1, false, vec![listing("", vec![])]);
    assert!(matches!(r, Err(ScanError::InvalidInput)));
    let mut e2 = engine();
    let r2 = e2.scan_listed(
        &"   ".to_string(),
        &"   ".to_string(),
        1,
        false,
        vec![listing("", vec![])],
        1000,
        0,
    );
    assert!(matches!(r2, Err(ScanError::InvalidInput)));
}

#[test]
fn second_scan_hits_memory() {
    let mut e = engine();
    let tree = || vec![listing("", vec![file("a", 1500), file("b", 500)])];
    let first = scan(&mut e, "/root", 5, false, tree()).unwrap();
    let p1 = first.perf_metrics.clone().unwrap();
    assert!(!p1.cache_hit);
    assert!(p1.cache_source.is_none());
    let second = scan(&mut e, "/root", 5, false, tree()).unwrap();
    let p2 = second.perf_metrics.clone().unwrap();
    assert!(p2.cache_hit);
    assert_eq!(p2.cache_source, Some(CacheSource::Memory));
    assert_eq!(second.scan_time_ms, 0);
    assert_eq!(first.items.len(), second.items.len());
    for (a, b) in first.items.iter().zip(second.items.iter()) {
        assert_eq!(a.path, b.path);
        assert_eq!(a.size, b.size);
        assert_eq!(a.size_formatted, b.size_formatted);
        assert_eq!(a.is_dir, b.is_dir);
    }
}

#[test]
fn newer_mtime_invalidates_memory_hit() {
    let mut e = engine();
    let r1 = scan(&mut e, "/root", 5, false, vec![listing("", vec![file("a", 1)])]).unwrap();
    assert_eq!(r1.total_size, 1);
    // The root changed: its mtime moved forward, so the cached entry is stale.
    let r2 = scan(&mut e, "/root", 6, false, vec![listing("", vec![file("a", 2)])]).unwrap();
    assert_eq!(r2.total_size, 2);
    assert!(!r2.perf_metrics.unwrap().cache_hit);
}

#[test]
fn forced_refresh_recomputes() {
    let mut e = engine();
    let r1 = scan(&mut e, "/root", 5, false, vec![listing("", vec![file("a", 1)])]).unwrap();
    assert_eq!(r1.total_size, 1);
    let r2 = scan(&mut e, "/root", 5, false, vec![listing("", vec![file("a", 9)])]).unwrap();
    assert_eq!(r2.total_size, 1, "an unforced rescan is served from cache");
    let r3 = scan(&mut e, "/root", 5, true, vec![listing("", vec![file("a", 9)])]).unwrap();
    assert_eq!(r3.total_size, 9, "a forced refresh bypasses and rebuilds the caches");
    assert!(!r3.perf_metrics.unwrap().cache_hit);
    let r4 = scan(&mut e, "/root", 5, false, vec![listing("", vec![file("a", 1)])]).unwrap();
    assert_eq!(r4.total_size, 9, "the rebuilt entry now serves unforced scans");
}

#[test]
fn disk_tier_survives_a_restart() {
    let disk = DiskCache::open_in_memory().expect("in-memory store must open");
    let mut e1 = ScanEngine::new(30, 200, 50, Some(disk));
    let tree = || vec![listing("", vec![file("a", 1500), file("b", 500)])];
    let first = scan(&mut e1, "/root", 5, false, tree()).unwrap();
    assert!(!first.perf_metrics.clone().unwrap().cache_hit);
    // A fresh engine with the same store stands for a restarted process:
    // its memory tier is empty, so the answer comes from disk.
    let disk = e1.into_disk();
    let mut e2 = ScanEngine::new(30, 200, 50, disk);
    let second = scan(&mut e2, "/root", 5, false, tree()).unwrap();
    let p2 = second.perf_metrics.clone().unwrap();
    assert!(p2.cache_hit);
    assert_eq!(p2.cache_source, Some(CacheSource::Disk));
    assert_eq!(second.scan_time_ms, 0);
    assert_eq!(second.total_size, first.total_size);
    assert_eq!(second.items.len(), first.items.len());
    for (a, b) in first.items.iter().zip(second.items.iter()) {
        assert_eq!(a.path, b.path);
        assert_eq!(a.size, b.size);
    }
    // And the write-back fills the new engine's memory tier.
    let third = scan(&mut e2, "/root", 5, false, tree()).unwrap();
    assert_eq!(third.perf_metrics.unwrap().cache_source, Some(CacheSource::Memory));
}

#[test]
fn error_messages_name_the_cause() {
    assert_eq!(ScanError::InvalidInput.message(), "path must not be empty");
    assert_eq!(ScanError::NotADirectory.message(), "path is not a directory");
}

#[test]
fn history_is_capped_and_reversed() {
    let mut h: Vec<HistoryItem> = Vec::new();
    for i in 0..25 {
        push_history(
            &mut h,
            HistoryItem {
                path: format!("/p{}", i),
                scan_time: i as i64,
                total_size: i as i64,
                size_format: "0 B".to_string(),
                item_count: 0,
            },
        );
    }
    assert_eq!(h.len(), 20);
    assert_eq!(h[0].path, "/p5", "the oldest lines beyond the cap are dropped");
    let r = reversed_history(&h);
    assert_eq!(r[0].path, "/p24");
    assert_eq!(r[19].path, "/p5");
}

#[test]
fn listing_collector_walks_a_tree() {
    let mut c = ListingCollector::new();
    let mut visited = Vec::new();
    while let Some(d) = c.next_dir() {
        visited.push(d.clone());
        let entries = match d.as_str() {
            "" => vec![file("x", 2048), dir("sub")],
            "sub" => vec![file("y", 1024)],
            _ => vec![],
        };
        c.supply(entries);
    }
    assert_eq!(visited, vec!["", "sub"]);
    let listings = c.into_listings();
    assert_eq!(listings.len(), 2);
    assert_eq!(listings[0].path, "");
    assert_eq!(listings[1].path, "sub");
    let out = flashdir::walk::walk_tree(listings);
    assert_eq!(out.files.len(), 2);
}

#[test]
fn probe_step_answers_without_a_walk() {
    let mut e = engine();
    let key = "/root".to_string();
    assert!(e.try_cached(&key, &key, 5, false, 0, 0).is_none(), "a cold cache misses");
    scan(&mut e, "/root", 5, false, vec![listing("", vec![file("a", 1500)])]).unwrap();
    let hit = e.try_cached(&key, &key, 5, false, 0, 0).expect("the scan must be cached");
    assert_eq!(hit.total_size, 1500);
    assert_eq!(hit.scan_time_ms, 0);
    assert_eq!(hit.perf_metrics.unwrap().cache_source, Some(CacheSource::Memory));
    assert!(e.try_cached(&key, &key, 5, true, 0, 0).is_none(), "a forced refresh bypasses");
    assert!(e.try_cached(&key, &key, 6, false, 0, 0).is_none(), "a newer root mtime misses");
}

#[test]
fn batch_keeps_successes_in_order() {
    let mut e = engine();
    let reqs = vec![
        ListedScanRequest {
            path: "/a".to_string(),
            canonical_key: "/a".to_string(),
            dir_mtime: 1,
            listings: vec![listing("", vec![file("x", 10)])],
        },
        ListedScanRequest {
            path: "   ".to_string(),
            canonical_key: "   ".to_string(),
            dir_mtime: 1,
            listings: vec![listing("", vec![])],
        },
        ListedScanRequest {
            path: "/b".to_string(),
            canonical_key: "/b".to_string(),
            dir_mtime: 1,
            listings: vec![listing("", vec![file("y", 20)])],
        },
    ];
    let results = e.scan_listed_batch(reqs, false, 0, 0);
    assert_eq!(results.len(), 2, "the blank request is dropped");
    assert_eq!(results[0].total_size, 10);
    assert_eq!(results[1].total_size, 20);
}
