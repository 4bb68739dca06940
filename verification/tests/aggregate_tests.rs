use flashdir::aggregate::{finalize_items, sort_items_desc, total_size};
use flashdir::item::Item;
use flashdir::walk::{walk_tree, DirListing, EntryKind, RawEntry};

fn file(name: &str, size: u64) -> RawEntry {
    RawEntry { name: name.to_string(), kind: EntryKind::File, size }
}

fn dir(name: &str) -> RawEntry {
    RawEntry { name: name.to_string(), kind: EntryKind::Dir, size: 0 }
}

fn listing(path: &str, entries: Vec<RawEntry>) -> DirListing {
    DirListing { path: path.to_string(), entries }
}

#[test]
fn total_is_sum_of_leaf_sizes() {
    let out = walk_tree(vec![
        listing("", vec![file("x", 2048), dir("sub")]),
        listing("sub", vec![file("y", 1024), file("z", 1)]),
    ]);
    assert_eq!(total_size(&out.files), 3073);
}

#[test]
fn directory_weighs_files_below_it() {
    let out = walk_tree(vec![
        listing("", vec![file("x", 2048), dir("sub")]),
        listing("sub", vec![file("y", 1024), dir("deep")]),
        listing("sub/deep", vec![file("w", 8)]),
    ]);
    let finalized = finalize_items(&out.items, &out.files);
    let sub = finalized.iter().find(|i| i.path == "sub").unwrap();
    assert_eq!(sub.size, 1032);
    let deep = finalized.iter().find(|i| i.path == "sub/deep").unwrap();
    assert_eq!(deep.size, 8);
    // "subtle" starts with "sub" but not at a slash boundary: it must
    // not be counted below "sub".
    let out2 = walk_tree(vec![listing("", vec![file("subtle", 100), dir("sub")]), listing(
        "sub",
        vec![file("y", 5)],
    )]);
    let finalized2 = finalize_items(&out2.items, &out2.files);
    let sub2 = finalized2.iter().find(|i| i.path == "sub").unwrap();
    assert_eq!(sub2.size, 5);
}

#[test]
fn formatted_sizes_are_attached() {
    let out = walk_tree(vec![listing("", vec![file("x", 1536)])]);
    let finalized = finalize_items(&out.items, &out.files);
    assert_eq!(finalized[0].size_formatted, "1.50 KB");
}

fn plain_item(path: &str, size: i64) -> Item {
    Item {
        path: path.to_string(),
        name: path.to_string(),
        size,
        size_formatted: String::new(),
        is_dir: false,
    }
}

#[test]
fn sort_is_descending() {
    let v = vec![plain_item("a", 5), plain_item("b", 50), plain_item("c", 7)];
    let sorted = sort_items_desc(&v);
    let sizes: Vec<i64> = sorted.iter().map(|i| i.size).collect();
    assert_eq!(sizes, vec![50, 7, 5]);
}

#[test]
fn sort_keeps_tie_order() {
    let v = vec![plain_item("first", 10), plain_item("second", 10), plain_item("big", 20)];
    let sorted = sort_items_desc(&v);
    let paths: Vec<&str> = sorted.iter().map(|i| i.path.as_str()).collect();
    assert_eq!(paths, vec!["big", "first", "second"]);
}
