//! Checks over generated trees: a deterministic linear-congruential
//! generator builds random `(path, size)` leaves, the listing table is
//! derived from them, and the scan's answers are compared against sums
//! computed independently of the library.
use flashdir::engine::ScanEngine;
use flashdir::item::ScanResult;
use flashdir::walk::{DirListing, EntryKind, RawEntry};
use std::collections::BTreeMap;

struct Lcg(u64);

impl Lcg {
    fn next(&mut self) -> u64 {
        self.0 = self.0.wrapping_mul(6364136223846793005).wrapping_add(1442695040888963407);
        self.0 >> 33
    }
}

/// Random leaves: up to three directory levels, sizes up to ~1 MiB.
fn gen_leaves(seed: u64, count: usize) -> Vec<(String, u64)> {
    let mut rng = Lcg(seed);
    let mut leaves = Vec::new();
    for i in 0..count {
        let depth = (rng.next() % 3) as usize;
        let mut path = String::new();
        for level in 0..depth {
            path.push_str(&format!("d{}_{}/", level, rng.next() % 3));
        }
        path.push_str(&format!("f{}", i));
        let size = rng.next() % (1024 * 1024);
        leaves.push((path, size));
    }
    leaves
}

/// The listing table a filesystem holding exactly these leaves shows.
fn listings_from_leaves(leaves: &[(String, u64)]) -> Vec<DirListing> {
    let mut dirs: BTreeMap<String, BTreeMap<String, RawEntry>> = BTreeMap::new();
    dirs.insert(String::new(), BTreeMap::new());
    for (path, size) in leaves {
        let parts: Vec<&str> = path.split('/').collect();
        let mut parent = String::new();
        for (i, part) in parts.iter().enumerate() {
            let is_leaf = i + 1 == parts.len();
            let entry = if is_leaf {
                RawEntry { name: part.to_string(), kind: EntryKind::File, size: *size }
            } else {
                RawEntry { name: part.to_string(), kind: EntryKind::Dir, size: 0 }
            };
            dirs.entry(parent.clone()).or_default().insert(part.to_string(), entry);
            if !is_leaf {
                let child = if parent.is_empty() {
                    part.to_string()
                } else {
                    format!("{}/{}", parent, part)
                };
                dirs.entry(child.clone()).or_default();
                parent = child;
            }
        }
    }
    dirs.into_iter()
        .map(|(path, entries)| DirListing { path, entries: into_entry_vec(entries) })
        .collect()
}

fn into_entry_vec(entries: BTreeMap<String, RawEntry>) -> Vec<RawEntry> {
    entries.into_values().collect()
}

fn scan_tree(leaves: &[(String, u64)]) -> ScanResult {
    let mut engine = ScanEngine::new(8, 64, 10, None);
    engine
        .scan_listed(
            &"/tree".to_string(),
            &"/tree".to_string(),
            1,
            false,
            listings_from_leaves(leaves),
            0,
            0,
        )
        .expect("a listed tree always scans")
}

#[test]
fn generated_total_equals_leaf_sum() {
    for seed in [1u64, 7, 42, 1234, 99999] {
        let leaves = gen_leaves(seed, 40);
        let result = scan_tree(&leaves);
        let expected: u64 = leaves.iter().map(|(_, s)| *s).sum();
        assert_eq!(result.total_size as u64, expected, "seed {}", seed);
    }
}

#[test]
fn generated_directory_sizes_are_prefix_sums() {
    for seed in [3u64, 17, 2024] {
        let leaves = gen_leaves(seed, 30);
        let result = scan_tree(&leaves);
        for item in result.items.iter().filter(|i| i.is_dir) {
            let prefix = format!("{}/", item.path);
            let expected: u64 =
                leaves.iter().filter(|(p, _)| p.starts_with(&prefix)).map(|(_, s)| *s).sum();
            assert_eq!(item.size as u64, expected, "seed {} dir {}", seed, item.path);
        }
    }
}

#[test]
fn generated_output_is_sorted_and_slash_clean() {
    for seed in [5u64, 11, 777] {
        let leaves = gen_leaves(seed, 25);
        let result = scan_tree(&leaves);
        for w in result.items.windows(2) {
            assert!(w[0].size >= w[1].size);
        }
        for item in &result.items {
            assert!(!item.path.contains('\\'));
        }
        let mut paths: Vec<&String> = result.items.iter().map(|i| &i.path).collect();
        let n = paths.len();
        paths.sort();
        paths.dedup();
        assert_eq!(paths.len(), n, "paths are unique within a result");
    }
}

#[test]
fn generated_rescans_are_idempotent() {
    for seed in [21u64, 8080] {
        let leaves = gen_leaves(seed, 20);
        let mut engine = ScanEngine::new(8, 64, 10, None);
        let key = "/tree".to_string();
        let first = engine
            .scan_listed(&key, &key, 1, false, listings_from_leaves(&leaves), 0, 0)
            .unwrap();
        let second = engine
            .scan_listed(&key, &key, 1, false, listings_from_leaves(&leaves), 0, 0)
            .unwrap();
        assert!(second.perf_metrics.unwrap().cache_hit);
        assert_eq!(first.items.len(), second.items.len());
        for (a, b) in first.items.iter().zip(second.items.iter()) {
            assert_eq!(a.path, b.path);
            assert_eq!(a.size, b.size);
            assert_eq!(a.size_formatted, b.size_formatted);
        }
    }
}
