use flashdir::walk::{walk_tree, DirListing, EntryKind, RawEntry};

fn file(name: &str, size: u64) -> RawEntry {
    RawEntry { name: name.to_string(), kind: EntryKind::File, size }
}

fn dir(name: &str) -> RawEntry {
    RawEntry { name: name.to_string(), kind: EntryKind::Dir, size: 0 }
}

fn symlink(name: &str) -> RawEntry {
    RawEntry { name: name.to_string(), kind: EntryKind::Symlink, size: 0 }
}

fn listing(path: &str, entries: Vec<RawEntry>) -> DirListing {
    DirListing { path: path.to_string(), entries }
}

#[test]
fn walk_empty_root() {
    let out = walk_tree(vec![listing("", vec![])]);
    assert!(out.items.is_empty());
    assert!(out.files.is_empty());
}

#[test]
fn walk_two_files() {
    let out = walk_tree(vec![listing("", vec![file("a.bin", 1500), file("b.bin", 500)])]);
    assert_eq!(out.items.len(), 2);
    assert_eq!(out.items[0].path, "a.bin");
    assert_eq!(out.items[0].size, 1500);
    assert!(!out.items[0].is_dir);
    assert_eq!(out.items[1].path, "b.bin");
    assert_eq!(out.files.len(), 2);
}

#[test]
fn walk_nested_directories() {
    let out = walk_tree(vec![
        listing("", vec![file("x", 2048), dir("sub")]),
        listing("sub", vec![file("y", 1024)]),
    ]);
    let paths: Vec<&str> = out.items.iter().map(|i| i.path.as_str()).collect();
    assert_eq!(paths, vec!["x", "sub", "sub/y"]);
    let dir_item = out.items.iter().find(|i| i.path == "sub").unwrap();
    assert!(dir_item.is_dir);
    assert_eq!(dir_item.size, 0, "directory sizes are filled in by the aggregator");
    assert_eq!(out.files.len(), 2);
}

#[test]
fn walk_skips_symlinks() {
    let out = walk_tree(vec![listing("", vec![file("a", 10), symlink("link")])]);
    assert_eq!(out.items.len(), 1);
    assert_eq!(out.items[0].path, "a");
}

#[test]
fn walk_normalizes_backslashes() {
    let out = walk_tree(vec![listing("", vec![file("odd\\name", 7)])]);
    assert_eq!(out.items[0].path, "odd/name");
    assert!(!out.items[0].path.contains('\\'));
}

#[test]
fn walk_missing_listing_contributes_nothing() {
    // `sub` is announced but its listing is absent: an unreadable
    // directory leaves its subtree out without failing the walk.
    let out = walk_tree(vec![listing("", vec![dir("sub"), file("a", 3)])]);
    assert_eq!(out.items.len(), 2);
    assert_eq!(out.files.len(), 1);
}

#[test]
fn walk_ignores_listing_cycles() {
    // A listing that names the root again is consumed at most once.
    let out = walk_tree(vec![
        listing("", vec![dir("sub")]),
        listing("sub", vec![dir("sub")]),
    ]);
    assert_eq!(out.items.len(), 2);
}

#[test]
fn scan_stats_counters() {
    let mut stats = flashdir::walk::ScanStats::new();
    stats.record_file(100);
    stats.record_file(50);
    stats.record_dir();
    let snap = stats.snapshot();
    assert_eq!(snap.files, 2);
    assert_eq!(snap.dirs, 1);
    assert_eq!(snap.bytes, 150);
}
