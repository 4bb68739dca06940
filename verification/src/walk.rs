//! The directory walker. The filesystem is presented to it as directory
//! listings (one vector of raw entries per directory); it keeps a queue of
//! directories still to visit, emits one item per non-symlink entry, and
//! collects the per-file sizes the aggregator needs. Every listing is
//! consumed at most once, so the walk ends even on pathological inputs;
//! a directory whose listing is missing contributes nothing, mirroring the
//! policy that unreadable directories are skipped.
use vstd::prelude::*;

verus! {

use crate::item::{Item, ItemView};
use crate::pathutil::{
    chars_of, forward_slash_only, join_rel, normalize_chars, normalize_path_separator,
    string_of,
};

/// What a directory entry is, as the directory metadata reports it;
/// symlinks are recognized here and never followed.
#[derive(Clone, Copy, Debug, PartialEq, Eq, Structural)]
pub enum EntryKind {
    File,
    Dir,
    Symlink,
}

/// One raw directory entry: its basename, kind, and (for files) the
/// size the directory metadata reported.
#[derive(Clone, Debug)]
pub struct RawEntry {
    pub name: String,
    pub kind: EntryKind,
    pub size: u64,
}

/// The listing of one directory, keyed by its root-relative path
/// (empty string for the root itself).
#[derive(Clone, Debug)]
pub struct DirListing {
    pub path: String,
    pub entries: Vec<RawEntry>,
}

/// A file the walker saw: its relative path and raw size.
#[derive(Clone, Debug)]
pub struct FileEntry {
    pub path: String,
    pub size: u64,
}

/// The ghost form of a [`FileEntry`].
#[verifier::ext_equal]
pub ghost struct FileView {
    pub path: Seq<char>,
    pub size: u64,
}

impl View for FileEntry {
    type V = FileView;

    open spec fn view(&self) -> FileView {
        FileView { path: self.path@, size: self.size }
    }
}

/// The ghost form of a walk's output.
#[verifier::ext_equal]
pub ghost struct WalkModel {
    pub items: Seq<ItemView>,
    pub files: Seq<FileView>,
}

/// An entry the walker keeps: anything that is not a symlink and has a
/// non-empty name.
pub open spec fn included(e: RawEntry) -> bool {
    e.kind != EntryKind::Symlink && e.name@.len() > 0
}

/// The relative path an entry gets: its parent's path joined with its
/// separator-normalized name.
pub open spec fn rel_path_of(dir: Seq<char>, e: RawEntry) -> Seq<char> {
    join_rel(dir, normalize_chars(e.name@))
}

/// A file size clamped into `i64`.
pub open spec fn clamp_i64(s: u64) -> int {
    if s > i64::MAX as u64 {
        i64::MAX as int
    } else {
        s as int
    }
}

/// The item emitted for one kept entry. Directory sizes start at zero;
/// the aggregator fills them in, together with the formatted size.
pub open spec fn item_of(dir: Seq<char>, e: RawEntry) -> ItemView {
    ItemView {
        path: rel_path_of(dir, e),
        name: e.name@,
        size: if e.kind == EntryKind::Dir {
            0
        } else {
            clamp_i64(e.size)
        },
        size_formatted: Seq::<char>::empty(),
        is_dir: e.kind == EntryKind::Dir,
    }
}

/// The items a listing contributes, in listing order.
pub open spec fn items_of(dir: Seq<char>, entries: Seq<RawEntry>) -> Seq<ItemView>
    decreases entries.len(),
{
    if entries.len() == 0 {
        Seq::empty()
    } else {
        items_of(dir, entries.drop_last()) + (if included(entries.last()) {
            seq![item_of(dir, entries.last())]
        } else {
            Seq::empty()
        })
    }
}

/// The files a listing contributes, in listing order.
pub open spec fn files_of(dir: Seq<char>, entries: Seq<RawEntry>) -> Seq<FileView>
    decreases entries.len(),
{
    if entries.len() == 0 {
        Seq::empty()
    } else {
        files_of(dir, entries.drop_last()) + (if included(entries.last()) && entries.last().kind
            != EntryKind::Dir {
            seq![FileView { path: rel_path_of(dir, entries.last()), size: entries.last().size }]
        } else {
            Seq::empty()
        })
    }
}

/// The subdirectory paths a listing pushes onto the queue, in listing order.
pub open spec fn subdirs_of(dir: Seq<char>, entries: Seq<RawEntry>) -> Seq<Seq<char>>
    decreases entries.len(),
{
    if entries.len() == 0 {
        Seq::empty()
    } else {
        subdirs_of(dir, entries.drop_last()) + (if included(entries.last()) && entries.last().kind
            == EntryKind::Dir {
            seq![rel_path_of(dir, entries.last())]
        } else {
            Seq::empty()
        })
    }
}

/// The index of the first listing for `dir`, or -1 when there is none.
pub open spec fn find_listing(ls: Seq<DirListing>, dir: Seq<char>) -> int
    decreases ls.len(),
{
    if ls.len() == 0 {
        -1
    } else if ls[0].path@ == dir {
        0
    } else {
        let r = find_listing(ls.drop_first(), dir);
        if r == -1 {
            -1
        } else {
            r + 1
        }
    }
}

pub proof fn lemma_find_listing(ls: Seq<DirListing>, dir: Seq<char>)
    ensures
        -1 <= find_listing(ls, dir) < ls.len(),
        find_listing(ls, dir) >= 0 ==> ls[find_listing(ls, dir)].path@ == dir,
        find_listing(ls, dir) >= 0 ==> forall|j: int|
            0 <= j < find_listing(ls, dir) ==> ls[j].path@ != dir,
        find_listing(ls, dir) == -1 ==> forall|j: int| 0 <= j < ls.len() ==> ls[j].path@ != dir,
    decreases ls.len(),
{
    if ls.len() > 0 && ls[0].path@ != dir {
        lemma_find_listing(ls.drop_first(), dir);
        assert(forall|j: int| 1 <= j < ls.len() ==> ls[j] == ls.drop_first()[j - 1]);
    }
}

/// What the walk produces from the listings `ls`, starting from the queue
/// `pending`: the head of the queue is looked up, its listing (if any,
/// counted once) contributes its items and files, and its subdirectories
/// join the back of the queue.
pub open spec fn walk_from(ls: Seq<DirListing>, pending: Seq<Seq<char>>) -> WalkModel
    decreases ls.len(), pending.len(),
{
    if pending.len() == 0 {
        WalkModel { items: Seq::empty(), files: Seq::empty() }
    } else {
        let dir = pending[0];
        let idx = find_listing(ls, dir);
        if !(0 <= idx < ls.len()) {
            walk_from(ls, pending.drop_first())
        } else {
            let entries = ls[idx].entries@;
            let rest = walk_from(
                ls.remove(idx),
                pending.drop_first() + subdirs_of(dir, entries),
            );
            WalkModel {
                items: items_of(dir, entries) + rest.items,
                files: files_of(dir, entries) + rest.files,
            }
        }
    }
}

/// The whole-tree walk: the queue starts with the root's empty relative
/// path.
pub open spec fn walk_model(ls: Seq<DirListing>) -> WalkModel {
    walk_from(ls, seq![Seq::<char>::empty()])
}

/// The ghost sequence of item views held by an item vector.
pub open spec fn items_view(s: Seq<Item>) -> Seq<ItemView> {
    s.map_values(|x: Item| x@)
}

/// The ghost sequence of file views held by a file vector.
pub open spec fn files_view(s: Seq<FileEntry>) -> Seq<FileView> {
    s.map_values(|x: FileEntry| x@)
}

/// The ghost sequence of character strings held by a string vector.
pub open spec fn strs_view(s: Seq<String>) -> Seq<Seq<char>> {
    s.map_values(|x: String| x@)
}

/// Joins a directory path and an entry name into the entry's relative
/// path, normalizing the name's separators.
pub fn join_and_normalize(dir: &str, name: &str) -> (r: String)
    ensures
        r@ == join_rel(dir@, normalize_chars(name@)),
{
    let normalized = normalize_path_separator(name);
    if dir.is_empty() {
        return normalized;
    }
    let mut out = chars_of(dir);
    out.push('/');
    let tail = chars_of(normalized.as_str());
    let mut i: usize = 0;
    while i < tail.len()
        invariant
            tail@ == normalize_chars(name@),
            i <= tail.len(),
            out@ == dir@ + seq!['/'] + tail@.subrange(0, i as int),
        decreases tail.len() - i,
    {
        out.push(tail[i]);
        proof {
            assert(out@ =~~= dir@ + seq!['/'] + tail@.subrange(0, i + 1));
        }
        i = i + 1;
    }
    proof {
        assert(tail@.subrange(0, tail@.len() as int) =~~= tail@);
        assert(out@ =~~= join_rel(dir@, normalize_chars(name@)));
    }
    string_of(&out)
}

/// Processes the listing of `dir`: emits one item per kept entry, records
/// files, and queues subdirectories.
pub fn process_listing(
    dir: &String,
    entries: &Vec<RawEntry>,
    pending: &mut Vec<String>,
    items: &mut Vec<Item>,
    files: &mut Vec<FileEntry>,
)
    ensures
        strs_view(final(pending)@) == strs_view(old(pending)@) + subdirs_of(dir@, entries@),
        items_view(final(items)@) == items_view(old(items)@) + items_of(dir@, entries@),
        files_view(final(files)@) == files_view(old(files)@) + files_of(dir@, entries@),
{
    let ghost all = entries@;
    let mut i: usize = 0;
    while i < entries.len()
        invariant
            entries@ == all,
            i <= all.len(),
            strs_view(pending@) == strs_view(old(pending)@) + subdirs_of(
                dir@,
                all.subrange(0, i as int),
            ),
            items_view(items@) == items_view(old(items)@) + items_of(
                dir@,
                all.subrange(0, i as int),
            ),
            files_view(files@) == files_view(old(files)@) + files_of(
                dir@,
                all.subrange(0, i as int),
            ),
        decreases entries.len() - i,
    {
        let ghost prefix = all.subrange(0, i as int);
        let ghost prefix1 = all.subrange(0, i + 1);
        proof {
            assert(prefix1.drop_last() =~~= prefix);
            assert(prefix1.last() == all[i as int]);
        }
        let e = &entries[i];
        let ghost pend_before = pending@;
        let ghost items_before = items@;
        let ghost files_before = files@;
        let keep = match e.kind {
            EntryKind::Symlink => false,
            _ => !e.name.as_str().is_empty(),
        };
        if keep {
            let rel = join_and_normalize(dir.as_str(), e.name.as_str());
            let is_dir = match e.kind {
                EntryKind::Dir => true,
                _ => false,
            };
            if is_dir {
                pending.push(rel.clone());
                items.push(
                    Item {
                        path: rel,
                        name: e.name.clone(),
                        size: 0,
                        size_formatted: String::new(),
                        is_dir: true,
                    },
                );
                proof {
                    assert(strs_view(pending@) =~~= strs_view(pend_before).push(
                        rel_path_of(dir@, *e),
                    ));
                    assert(strs_view(pending@) =~~= strs_view(old(pending)@) + subdirs_of(
                        dir@,
                        prefix,
                    ) + seq![rel_path_of(dir@, *e)]);
                    assert(items_view(items@) =~~= items_view(items_before).push(
                        item_of(dir@, *e),
                    ));
                    assert(items_view(items@) =~~= items_view(old(items)@) + items_of(dir@, prefix)
                        + seq![item_of(dir@, *e)]);
                }
            } else {
                files.push(FileEntry { path: rel.clone(), size: e.size });
                let size: i64 = if e.size > i64::MAX as u64 {
                    i64::MAX
                } else {
                    e.size as i64
                };
                items.push(
                    Item {
                        path: rel,
                        name: e.name.clone(),
                        size,
                        size_formatted: String::new(),
                        is_dir: false,
                    },
                );
                proof {
                    assert(files_view(files@) =~~= files_view(files_before).push(
                        FileView { path: rel_path_of(dir@, *e), size: e.size },
                    ));
                    assert(files_view(files@) =~~= files_view(old(files)@) + files_of(dir@, prefix)
                        + seq![FileView { path: rel_path_of(dir@, *e), size: e.size }]);
                    assert(items_view(items@) =~~= items_view(items_before).push(
                        item_of(dir@, *e),
                    ));
                    assert(items_view(items@) =~~= items_view(old(items)@) + items_of(dir@, prefix)
                        + seq![item_of(dir@, *e)]);
                }
            }
        }
        proof {
            assert(strs_view(pending@) =~~= strs_view(old(pending)@) + subdirs_of(dir@, prefix1));
            assert(items_view(items@) =~~= items_view(old(items)@) + items_of(dir@, prefix1));
            assert(files_view(files@) =~~= files_view(old(files)@) + files_of(dir@, prefix1));
        }
        i = i + 1;
    }
    proof {
        assert(all.subrange(0, all.len() as int) =~~= all);
    }
}

/// The index of the first listing for `dir`, if any.
pub fn find_listing_index(ls: &Vec<DirListing>, dir: &String) -> (r: Option<usize>)
    ensures
        match r {
            Some(i) => i < ls@.len() && find_listing(ls@, dir@) == i,
            None => find_listing(ls@, dir@) == -1,
        },
{
    proof {
        lemma_find_listing(ls@, dir@);
    }
    let mut i: usize = 0;
    while i < ls.len()
        invariant
            i <= ls@.len(),
            forall|j: int| 0 <= j < i ==> ls@[j].path@ != dir@,
            -1 <= find_listing(ls@, dir@) < ls@.len(),
            find_listing(ls@, dir@) >= 0 ==> ls@[find_listing(ls@, dir@)].path@ == dir@,
            find_listing(ls@, dir@) >= 0 ==> forall|j: int|
                0 <= j < find_listing(ls@, dir@) ==> ls@[j].path@ != dir@,
            find_listing(ls@, dir@) == -1 ==> forall|j: int|
                0 <= j < ls@.len() ==> ls@[j].path@ != dir@,
        decreases ls.len() - i,
    {
        if ls[i].path.eq(dir) {
            return Some(i);
        }
        i = i + 1;
    }
    None
}

/// The walker's output: one item per kept entry, and the files with their
/// sizes for the aggregator.
pub struct WalkOutput {
    pub items: Vec<Item>,
    pub files: Vec<FileEntry>,
}

/// Walks the whole tree of `listings` from the root and returns every
/// emitted item and file, exactly as [`walk_model`] describes.
pub fn walk_tree(listings: Vec<DirListing>) -> (out: WalkOutput)
    ensures
        items_view(out.items@) == walk_model(listings@).items,
        files_view(out.files@) == walk_model(listings@).files,
{
    let ghost model = walk_model(listings@);
    let mut ls = listings;
    let mut pending: Vec<String> = Vec::new();
    pending.push(String::new());
    let mut items: Vec<Item> = Vec::new();
    let mut files: Vec<FileEntry> = Vec::new();
    proof {
        assert(strs_view(pending@) =~~= seq![Seq::<char>::empty()]);
        assert(items_view(items@) =~~= Seq::<ItemView>::empty());
        assert(files_view(files@) =~~= Seq::<FileView>::empty());
    }
    while pending.len() > 0
        invariant
            model.items == items_view(items@) + walk_from(ls@, strs_view(pending@)).items,
            model.files == files_view(files@) + walk_from(ls@, strs_view(pending@)).files,
        decreases ls@.len(), pending@.len(),
    {
        let ghost ls0 = ls@;
        let ghost pend0 = strs_view(pending@);
        let dir = pending.remove(0);
        proof {
            assert(strs_view(pending@) =~~= pend0.drop_first());
            assert(dir@ == pend0[0]);
        }
        match find_listing_index(&ls, &dir) {
            Some(idx) => {
                let listing = ls.remove(idx);
                proof {
                    lemma_find_listing(ls0, dir@);
                    assert(listing.entries@ == ls0[idx as int].entries@);
                    assert(ls@ =~~= ls0.remove(idx as int));
                }
                process_listing(&dir, &listing.entries, &mut pending, &mut items, &mut files);
                proof {
                    assert(strs_view(pending@) =~~= pend0.drop_first() + subdirs_of(
                        dir@,
                        listing.entries@,
                    ));
                    assert(walk_from(ls0, pend0).items == items_of(dir@, listing.entries@)
                        + walk_from(ls@, strs_view(pending@)).items);
                    assert(model.items =~~= items_view(items@) + walk_from(
                        ls@,
                        strs_view(pending@),
                    ).items);
                    assert(model.files =~~= files_view(files@) + walk_from(
                        ls@,
                        strs_view(pending@),
                    ).files);
                }
            },
            None => {
                proof {
                    assert(walk_from(ls0, pend0) == walk_from(ls@, strs_view(pending@)));
                }
            },
        }
    }
    proof {
        assert(walk_from(ls@, strs_view(pending@)).items =~~= Seq::<ItemView>::empty());
        assert(walk_from(ls@, strs_view(pending@)).files =~~= Seq::<FileView>::empty());
        assert(items_view(items@) =~~= model.items);
        assert(files_view(files@) =~~= model.files);
    }
    WalkOutput { items, files }
}

/// A symlink entry contributes nothing to a listing: not an item, not a
/// file, and nothing on the queue — even if its target is a directory
/// inside the tree.
pub proof fn lemma_symlink_ignored(dir: Seq<char>, entries: Seq<RawEntry>, e: RawEntry)
    requires
        e.kind == EntryKind::Symlink,
    ensures
        items_of(dir, entries.push(e)) == items_of(dir, entries),
        files_of(dir, entries.push(e)) == files_of(dir, entries),
        subdirs_of(dir, entries.push(e)) == subdirs_of(dir, entries),
{
    assert(entries.push(e).drop_last() =~= entries);
    assert(entries.push(e).last() == e);
    assert(items_of(dir, entries.push(e)) =~= items_of(dir, entries));
    assert(files_of(dir, entries.push(e)) =~= files_of(dir, entries));
    assert(subdirs_of(dir, entries.push(e)) =~= subdirs_of(dir, entries));
}

/// Every item a listing emits has a forward-slash-only path when its
/// directory's path is.
pub proof fn lemma_items_of_forward_slash(dir: Seq<char>, entries: Seq<RawEntry>)
    requires
        forward_slash_only(dir),
    ensures
        forall|j: int|
            0 <= j < items_of(dir, entries).len() ==> forward_slash_only(
                #[trigger] items_of(dir, entries)[j].path,
            ),
    decreases entries.len(),
{
    if entries.len() > 0 {
        lemma_items_of_forward_slash(dir, entries.drop_last());
        let pre = items_of(dir, entries.drop_last());
        let cur = items_of(dir, entries);
        if included(entries.last()) {
            crate::pathutil::lemma_normalize_forward_slash_only(entries.last().name@);
            let p = rel_path_of(dir, entries.last());
            let nn = normalize_chars(entries.last().name@);
            assert forall|i2: int| 0 <= i2 < p.len() implies p[i2] != crate::pathutil::backslash()
            by {
                if dir.len() > 0 {
                    assert(p == dir + seq!['/'] + nn);
                    if i2 < dir.len() {
                        assert(p[i2] == dir[i2]);
                    } else if i2 == dir.len() {
                        assert(p[i2] == '/');
                    } else {
                        assert(p[i2] == nn[i2 - dir.len() - 1]);
                    }
                }
            }
            assert(forward_slash_only(p));
        }
        assert forall|j: int| 0 <= j < cur.len() implies forward_slash_only(
            #[trigger] cur[j].path,
        ) by {
            if j < pre.len() {
                assert(cur[j] == pre[j]);
            } else {
                assert(cur[j] == item_of(dir, entries.last()));
            }
        }
    } else {
        assert(items_of(dir, entries).len() == 0);
    }
}

/// Every queued subdirectory path is forward-slash-only when its
/// directory's path is.
pub proof fn lemma_subdirs_of_forward_slash(dir: Seq<char>, entries: Seq<RawEntry>)
    requires
        forward_slash_only(dir),
    ensures
        forall|j: int|
            0 <= j < subdirs_of(dir, entries).len() ==> forward_slash_only(
                #[trigger] subdirs_of(dir, entries)[j],
            ),
    decreases entries.len(),
{
    if entries.len() > 0 {
        lemma_subdirs_of_forward_slash(dir, entries.drop_last());
        let pre = subdirs_of(dir, entries.drop_last());
        let cur = subdirs_of(dir, entries);
        if included(entries.last()) && entries.last().kind == EntryKind::Dir {
            crate::pathutil::lemma_normalize_forward_slash_only(entries.last().name@);
            let p = rel_path_of(dir, entries.last());
            let nn = normalize_chars(entries.last().name@);
            assert forall|i2: int| 0 <= i2 < p.len() implies p[i2] != crate::pathutil::backslash()
            by {
                if dir.len() > 0 {
                    assert(p == dir + seq!['/'] + nn);
                    if i2 < dir.len() {
                        assert(p[i2] == dir[i2]);
                    } else if i2 == dir.len() {
                        assert(p[i2] == '/');
                    } else {
                        assert(p[i2] == nn[i2 - dir.len() - 1]);
                    }
                }
            }
            assert(forward_slash_only(p));
        }
        assert forall|j: int| 0 <= j < cur.len() implies forward_slash_only(#[trigger] cur[j]) by {
            if j < pre.len() {
                assert(cur[j] == pre[j]);
            } else {
                assert(cur[j] == rel_path_of(dir, entries.last()));
            }
        }
    } else {
        assert(subdirs_of(dir, entries).len() == 0);
    }
}

/// No path the walk emits contains a backslash, as long as no queued
/// path does.
pub proof fn lemma_walk_from_forward_slash(ls: Seq<DirListing>, pending: Seq<Seq<char>>)
    requires
        forall|j: int| 0 <= j < pending.len() ==> forward_slash_only(#[trigger] pending[j]),
    ensures
        forall|j: int|
            0 <= j < walk_from(ls, pending).items.len() ==> forward_slash_only(
                #[trigger] walk_from(ls, pending).items[j].path,
            ),
    decreases ls.len(), pending.len(),
{
    if pending.len() > 0 {
        let dir = pending[0];
        let idx = find_listing(ls, dir);
        if !(0 <= idx < ls.len()) {
            assert forall|j: int| 0 <= j < pending.drop_first().len() implies forward_slash_only(
                #[trigger] pending.drop_first()[j],
            ) by {
                assert(pending.drop_first()[j] == pending[j + 1]);
            }
            lemma_walk_from_forward_slash(ls, pending.drop_first());
            assert forall|j: int| 0 <= j < walk_from(ls, pending).items.len() implies
                forward_slash_only(#[trigger] walk_from(ls, pending).items[j].path) by {
                assert(walk_from(ls, pending).items[j] == walk_from(
                    ls,
                    pending.drop_first(),
                ).items[j]);
            }
        } else {
            let entries = ls[idx].entries@;
            lemma_items_of_forward_slash(dir, entries);
            lemma_subdirs_of_forward_slash(dir, entries);
            let rest_pending = pending.drop_first() + subdirs_of(dir, entries);
            assert forall|j: int| 0 <= j < rest_pending.len() implies forward_slash_only(
                #[trigger] rest_pending[j],
            ) by {
                if j < pending.drop_first().len() {
                    assert(rest_pending[j] == pending.drop_first()[j]);
                    assert(pending.drop_first()[j] == pending[j + 1]);
                } else {
                    assert(rest_pending[j] == subdirs_of(dir, entries)[j - pending.drop_first().len()]);
                }
            }
            lemma_walk_from_forward_slash(ls.remove(idx), rest_pending);
            let here = items_of(dir, entries);
            let rest = walk_from(ls.remove(idx), rest_pending).items;
            assert forall|j: int| 0 <= j < walk_from(ls, pending).items.len() implies
                forward_slash_only(#[trigger] walk_from(ls, pending).items[j].path) by {
                if j < here.len() {
                    assert(walk_from(ls, pending).items[j] == here[j]);
                } else {
                    assert(walk_from(ls, pending).items[j] == rest[j - here.len()]);
                }
            }
        }
    }
}

/// The forward-slash invariant of a whole walk: no emitted item's path
/// holds a backslash.
pub proof fn lemma_walk_model_forward_slash(ls: Seq<DirListing>)
    ensures
        forall|j: int|
            0 <= j < walk_model(ls).items.len() ==> forward_slash_only(
                #[trigger] walk_model(ls).items[j].path,
            ),
{
    let pending = seq![Seq::<char>::empty()];
    assert(forall|j: int| 0 <= j < pending.len() ==> forward_slash_only(#[trigger] pending[j]));
    lemma_walk_from_forward_slash(ls, pending);
}

/// The sum of the file sizes a single listing contributes.
pub open spec fn listing_sum(l: DirListing) -> int {
    crate::aggregate::sum_files(files_of(l.path@, l.entries@))
}

/// The sum of the file sizes over all listings: the sum over the
/// tree's leaves.
pub open spec fn listings_sum(ls: Seq<DirListing>) -> int
    decreases ls.len(),
{
    if ls.len() == 0 {
        0
    } else {
        listings_sum(ls.drop_last()) + listing_sum(ls.last())
    }
}

/// Listing `l` announces the directory path `p`.
pub open spec fn announces(l: DirListing, p: Seq<char>) -> bool {
    subdirs_of(l.path@, l.entries@).contains(p)
}

/// No two listings describe the same directory.
pub open spec fn distinct_listing_paths(ls: Seq<DirListing>) -> bool {
    forall|i: int, j: int| 0 <= i < j < ls.len() ==> ls[i].path@ != ls[j].path@
}

/// Every listing is within the walk's reach: its path is queued, or
/// some listing announces it.
pub open spec fn covered(ls: Seq<DirListing>, pending: Seq<Seq<char>>) -> bool {
    forall|i: int|
        0 <= i < ls.len() ==> pending.contains(#[trigger] ls[i].path@) || exists|j: int|
            0 <= j < ls.len() && announces(#[trigger] ls[j], ls[i].path@)
}

/// File sums add over concatenation.
pub proof fn lemma_sum_files_concat(a: Seq<FileView>, b: Seq<FileView>)
    ensures
        crate::aggregate::sum_files(a + b) == crate::aggregate::sum_files(a)
            + crate::aggregate::sum_files(b),
    decreases b.len(),
{
    if b.len() == 0 {
        assert(a + b =~= a);
    } else {
        assert((a + b).drop_last() =~= a + b.drop_last());
        assert((a + b).last() == b.last());
        lemma_sum_files_concat(a, b.drop_last());
    }
}

/// Removing one listing subtracts exactly its contribution.
pub proof fn lemma_listings_sum_remove(ls: Seq<DirListing>, i: int)
    requires
        0 <= i < ls.len(),
    ensures
        listings_sum(ls.remove(i)) == listings_sum(ls) - listing_sum(ls[i]),
    decreases ls.len(),
{
    if i == ls.len() - 1 {
        assert(ls.remove(i) =~= ls.drop_last());
    } else {
        assert(ls.remove(i).drop_last() =~= ls.drop_last().remove(i));
        assert(ls.remove(i).last() == ls.last());
        lemma_listings_sum_remove(ls.drop_last(), i);
    }
}

/// An announced directory path is strictly longer than its announcer's.
pub proof fn lemma_subdirs_longer(dir: Seq<char>, entries: Seq<RawEntry>)
    ensures
        forall|j: int|
            0 <= j < subdirs_of(dir, entries).len() ==> (#[trigger] subdirs_of(
                dir,
                entries,
            )[j]).len() > dir.len(),
    decreases entries.len(),
{
    if entries.len() > 0 {
        lemma_subdirs_longer(dir, entries.drop_last());
        let pre = subdirs_of(dir, entries.drop_last());
        let cur = subdirs_of(dir, entries);
        assert forall|j: int| 0 <= j < cur.len() implies (#[trigger] cur[j]).len() > dir.len() by {
            if j < pre.len() {
                assert(cur[j] == pre[j]);
            } else {
                assert(cur[j] == rel_path_of(dir, entries.last()));
                assert(included(entries.last()));
                assert(normalize_chars(entries.last().name@).len() == entries.last().name@.len());
            }
        }
    }
}

/// In a nonempty listing set, some listing is announced by nobody:
/// announcements strictly lengthen paths, so one with a shortest path
/// has no announcer.
pub proof fn lemma_unannounced_exists(ls: Seq<DirListing>) -> (i: int)
    requires
        ls.len() > 0,
    ensures
        0 <= i < ls.len(),
        forall|j: int| 0 <= j < ls.len() ==> !announces(#[trigger] ls[j], ls[i].path@),
{
    let shortest = lemma_exists_shortest(ls);
    assert forall|j: int| 0 <= j < ls.len() implies !announces(
        #[trigger] ls[j],
        ls[shortest].path@,
    ) by {
        if announces(ls[j], ls[shortest].path@) {
            lemma_subdirs_longer(ls[j].path@, ls[j].entries@);
            let sd = subdirs_of(ls[j].path@, ls[j].entries@);
            let k = choose|k: int| 0 <= k < sd.len() && sd[k] == ls[shortest].path@;
            assert(ls[shortest].path@.len() > ls[j].path@.len());
        }
    }
    shortest
}

/// Some listing has a path no longer than any other's.
pub proof fn lemma_exists_shortest(ls: Seq<DirListing>) -> (i: int)
    requires
        ls.len() > 0,
    ensures
        0 <= i < ls.len(),
        forall|k: int| 0 <= k < ls.len() ==> (#[trigger] ls[k].path@).len() >= ls[i].path@.len(),
    decreases ls.len(),
{
    if ls.len() == 1 {
        0
    } else {
        let i0 = lemma_exists_shortest(ls.drop_last());
        assert(ls.drop_last()[i0] == ls[i0]);
        if ls.last().path@.len() < ls[i0].path@.len() {
            let w = ls.len() - 1;
            assert forall|k: int| 0 <= k < ls.len() implies (#[trigger] ls[k].path@).len()
                >= ls[w].path@.len() by {
                if k < ls.len() - 1 {
                    assert(ls.drop_last()[k] == ls[k]);
                    assert(ls.drop_last()[k].path@.len() >= ls.drop_last()[i0].path@.len());
                }
            }
            w
        } else {
            assert forall|k: int| 0 <= k < ls.len() implies (#[trigger] ls[k].path@).len()
                >= ls[i0].path@.len() by {
                if k < ls.len() - 1 {
                    assert(ls.drop_last()[k] == ls[k]);
                    assert(ls.drop_last()[k].path@.len() >= ls.drop_last()[i0].path@.len());
                }
            }
            i0
        }
    }
}

/// A walk reaches every covered listing: when no two listings share a
/// path and each one is queued or announced, the files the walk emits
/// sum to the files of all listings — the tree's leaves, each counted
/// once.
pub proof fn lemma_walk_covers_tree(ls: Seq<DirListing>, pending: Seq<Seq<char>>)
    requires
        distinct_listing_paths(ls),
        covered(ls, pending),
    ensures
        crate::aggregate::sum_files(walk_from(ls, pending).files) == listings_sum(ls),
    decreases ls.len(), pending.len(),
{
    if pending.len() == 0 {
        if ls.len() > 0 {
            let u = lemma_unannounced_exists(ls);
            assert(pending.contains(ls[u].path@) || exists|j: int|
                0 <= j < ls.len() && announces(#[trigger] ls[j], ls[u].path@));
            assert(false);
        }
    } else {
        let dir = pending[0];
        let idx = find_listing(ls, dir);
        lemma_find_listing(ls, dir);
        if !(0 <= idx < ls.len()) {
            assert forall|i: int|
                0 <= i < ls.len() implies pending.drop_first().contains(#[trigger] ls[i].path@)
                || exists|j: int| 0 <= j < ls.len() && announces(#[trigger] ls[j], ls[i].path@) by {
                if pending.contains(ls[i].path@) {
                    let k = choose|k: int| 0 <= k < pending.len() && pending[k] == ls[i].path@;
                    assert(ls[i].path@ != dir);
                    assert(k >= 1);
                    assert(pending.drop_first()[k - 1] == ls[i].path@);
                    assert(pending.drop_first().contains(ls[i].path@));
                }
            }
            lemma_walk_covers_tree(ls, pending.drop_first());
        } else {
            let entries = ls[idx].entries@;
            let ls2 = ls.remove(idx);
            let subs = subdirs_of(dir, entries);
            let pending2 = pending.drop_first() + subs;
            assert forall|a: int, b: int|
                0 <= a < b < ls2.len() implies ls2[a].path@ != ls2[b].path@ by {
                let a0 = if a < idx {
                    a
                } else {
                    a + 1
                };
                let b0 = if b < idx {
                    b
                } else {
                    b + 1
                };
                assert(ls2[a] == ls[a0] && ls2[b] == ls[b0]);
            }
            assert forall|i: int|
                0 <= i < ls2.len() implies pending2.contains(#[trigger] ls2[i].path@) || exists|
                j: int,
            | 0 <= j < ls2.len() && announces(#[trigger] ls2[j], ls2[i].path@) by {
                let i0 = if i < idx {
                    i
                } else {
                    i + 1
                };
                assert(ls2[i] == ls[i0]);
                assert(ls[i0].path@ != ls[idx].path@);
                assert(ls[i0].path@ != dir);
                if pending.contains(ls[i0].path@) {
                    let k = choose|k: int| 0 <= k < pending.len() && pending[k] == ls[i0].path@;
                    assert(k >= 1);
                    assert(pending2[k - 1] == pending.drop_first()[k - 1]);
                    assert(pending2[k - 1] == ls[i0].path@);
                    assert(pending2.contains(ls2[i].path@));
                } else {
                    let j = choose|j: int| 0 <= j < ls.len() && announces(ls[j], ls[i0].path@);
                    if j == idx {
                        let k = choose|k: int| 0 <= k < subs.len() && subs[k] == ls[i0].path@;
                        assert(pending2[pending.drop_first().len() + k] == subs[k]);
                        assert(pending2.contains(ls2[i].path@));
                    } else {
                        let j2 = if j < idx {
                            j
                        } else {
                            j - 1
                        };
                        assert(ls2[j2] == ls[j]);
                        assert(announces(ls2[j2], ls2[i].path@));
                    }
                }
            }
            lemma_walk_covers_tree(ls2, pending2);
            lemma_sum_files_concat(files_of(dir, entries), walk_from(ls2, pending2).files);
            lemma_listings_sum_remove(ls, idx);
            assert(ls[idx].path@ == dir);
            assert(listing_sum(ls[idx]) == crate::aggregate::sum_files(files_of(dir, entries)));
        }
    }
}

/// The tree's shape as a generator produces it: one listing per
/// directory, the root present, every other directory announced by its
/// parent.
pub open spec fn tree_ok(ls: Seq<DirListing>) -> bool {
    &&& distinct_listing_paths(ls)
    &&& covered(ls, seq![Seq::<char>::empty()])
}

/// Over any well-formed tree, the walk's file total is the sum over
/// every listing's files: the sum of the sizes of all leaves.
pub proof fn lemma_walk_total_is_leaf_sum(ls: Seq<DirListing>)
    requires
        tree_ok(ls),
    ensures
        crate::aggregate::sum_files(walk_model(ls).files) == listings_sum(ls),
{
    lemma_walk_covers_tree(ls, seq![Seq::<char>::empty()]);
}

/// No forward slash anywhere in `s`.
pub open spec fn slash_free(s: Seq<char>) -> bool {
    forall|i: int| 0 <= i < s.len() ==> s[i] != '/'
}

/// The names of a listing, as a real directory reports them: every kept
/// entry's normalized name is free of separators, and no two kept
/// entries share a normalized name.
pub open spec fn names_ok(entries: Seq<RawEntry>) -> bool {
    &&& forall|i: int|
        0 <= i < entries.len() && included(#[trigger] entries[i]) ==> slash_free(
            normalize_chars(entries[i].name@),
        )
    &&& forall|i: int, j: int|
        0 <= i < j < entries.len() && included(entries[i]) && included(entries[j])
            ==> normalize_chars(entries[i].name@) != normalize_chars(entries[j].name@)
}

/// Every listing's names are well formed.
pub open spec fn listings_names_ok(ls: Seq<DirListing>) -> bool {
    forall|i: int| 0 <= i < ls.len() ==> names_ok((#[trigger] ls[i]).entries@)
}

/// The position of the last `/` in `s`, or -1.
pub open spec fn last_slash(s: Seq<char>) -> int
    decreases s.len(),
{
    if s.len() == 0 {
        -1
    } else if s.last() == '/' {
        s.len() - 1
    } else {
        last_slash(s.drop_last())
    }
}

/// The directory part of a relative path: everything before the last
/// `/`, or the root's empty path when there is none.
pub open spec fn parent_of(s: Seq<char>) -> Seq<char> {
    if last_slash(s) < 0 {
        Seq::empty()
    } else {
        s.subrange(0, last_slash(s))
    }
}

pub proof fn lemma_last_slash_none(s: Seq<char>)
    requires
        slash_free(s),
    ensures
        last_slash(s) == -1,
    decreases s.len(),
{
    if s.len() > 0 {
        lemma_last_slash_none(s.drop_last());
    }
}

pub proof fn lemma_last_slash_append_free(s: Seq<char>, b: Seq<char>)
    requires
        slash_free(b),
    ensures
        last_slash(s + b) == last_slash(s),
    decreases b.len(),
{
    if b.len() == 0 {
        assert(s + b =~= s);
    } else {
        assert((s + b).drop_last() =~= s + b.drop_last());
        assert((s + b).last() == b.last());
        lemma_last_slash_append_free(s, b.drop_last());
    }
}

/// The parent of a joined path is the directory it was joined under.
pub proof fn lemma_parent_of_join(dir: Seq<char>, nn: Seq<char>)
    requires
        nn.len() > 0,
        slash_free(nn),
    ensures
        parent_of(join_rel(dir, nn)) == dir,
        join_rel(dir, nn).len() > 0,
{
    if dir.len() == 0 {
        lemma_last_slash_none(nn);
    } else {
        let s = dir + seq!['/'] + nn;
        lemma_last_slash_append_free(dir + seq!['/'], nn);
        assert((dir + seq!['/']).last() == '/');
        assert(last_slash(dir + seq!['/']) == dir.len());
        assert(s.subrange(0, dir.len() as int) =~= dir);
    }
}

/// For one directory, the joined path determines the name.
pub proof fn lemma_join_rel_injective(dir: Seq<char>, a: Seq<char>, b: Seq<char>)
    requires
        join_rel(dir, a) == join_rel(dir, b),
    ensures
        a == b,
{
    if dir.len() > 0 {
        let sa = dir + seq!['/'] + a;
        let sb = dir + seq!['/'] + b;
        assert(sa.len() == sb.len());
        assert forall|i: int| 0 <= i < a.len() implies a[i] == b[i] by {
            assert(sa[dir.len() + 1 + i] == a[i]);
            assert(sb[dir.len() + 1 + i] == b[i]);
        }
        assert(a =~= b);
    }
}

/// Which kept entry an emitted item came from: its path is that entry's
/// relative path.
pub proof fn lemma_items_of_provenance(dir: Seq<char>, entries: Seq<RawEntry>, a: int) -> (j: int)
    requires
        0 <= a < items_of(dir, entries).len(),
    ensures
        0 <= j < entries.len(),
        included(entries[j]),
        items_of(dir, entries)[a].path == rel_path_of(dir, entries[j]),
    decreases entries.len(),
{
    let pre = items_of(dir, entries.drop_last());
    if a < pre.len() {
        let j = lemma_items_of_provenance(dir, entries.drop_last(), a);
        assert(entries[j] == entries.drop_last()[j]);
        assert(items_of(dir, entries)[a] == pre[a]);
        j
    } else {
        assert(included(entries.last()));
        assert(entries[entries.len() - 1] == entries.last());
        assert(items_of(dir, entries)[a] == item_of(dir, entries.last()));
        entries.len() - 1
    }
}

/// The items one listing emits have pairwise distinct paths: each is
/// the join of the directory with a distinct normalized name.
pub proof fn lemma_items_of_unique(dir: Seq<char>, entries: Seq<RawEntry>, a: int, b: int)
    requires
        names_ok(entries),
        0 <= a < b < items_of(dir, entries).len(),
    ensures
        items_of(dir, entries)[a].path != items_of(dir, entries)[b].path,
    decreases entries.len(),
{
    let pre = items_of(dir, entries.drop_last());
    if b < pre.len() {
        assert(names_ok(entries.drop_last()));
        lemma_items_of_unique(dir, entries.drop_last(), a, b);
        assert(items_of(dir, entries)[a] == pre[a]);
        assert(items_of(dir, entries)[b] == pre[b]);
    } else {
        assert(included(entries.last()));
        assert(items_of(dir, entries)[b] == item_of(dir, entries.last()));
        assert(items_of(dir, entries)[a] == pre[a]);
        let j = lemma_items_of_provenance(dir, entries.drop_last(), a);
        assert(entries[j] == entries.drop_last()[j]);
        assert(normalize_chars(entries[j].name@) != normalize_chars(entries.last().name@));
        if items_of(dir, entries)[a].path == items_of(dir, entries)[b].path {
            lemma_join_rel_injective(
                dir,
                normalize_chars(entries[j].name@),
                normalize_chars(entries.last().name@),
            );
            assert(false);
        }
    }
}

/// Distinct listing paths survive removing one listing.
pub proof fn lemma_distinct_listings_remove(ls: Seq<DirListing>, idx: int)
    requires
        distinct_listing_paths(ls),
        0 <= idx < ls.len(),
    ensures
        distinct_listing_paths(ls.remove(idx)),
        listings_names_ok(ls) ==> listings_names_ok(ls.remove(idx)),
{
    let r = ls.remove(idx);
    assert forall|a: int, b: int| 0 <= a < b < r.len() implies r[a].path@ != r[b].path@ by {
        let a0 = if a < idx {
            a
        } else {
            a + 1
        };
        let b0 = if b < idx {
            b
        } else {
            b + 1
        };
        assert(r[a] == ls[a0] && r[b] == ls[b0]);
    }
    if listings_names_ok(ls) {
        assert forall|i: int| 0 <= i < r.len() implies names_ok((#[trigger] r[i]).entries@) by {
            let i0 = if i < idx {
                i
            } else {
                i + 1
            };
            assert(r[i] == ls[i0]);
        }
    }
}

/// The listing a walk item belongs to: the item's path is nonempty and
/// its directory part is that listing's path.
pub proof fn lemma_walk_from_parent(ls: Seq<DirListing>, pending: Seq<Seq<char>>, a: int) -> (i:
    int)
    requires
        listings_names_ok(ls),
        0 <= a < walk_from(ls, pending).items.len(),
    ensures
        0 <= i < ls.len(),
        parent_of(walk_from(ls, pending).items[a].path) == ls[i].path@,
        walk_from(ls, pending).items[a].path.len() > 0,
    decreases ls.len(), pending.len(),
{
    let dir = pending[0];
    let idx = find_listing(ls, dir);
    lemma_find_listing(ls, dir);
    if !(0 <= idx < ls.len()) {
        let i = lemma_walk_from_parent(ls, pending.drop_first(), a);
        assert(walk_from(ls, pending).items == walk_from(ls, pending.drop_first()).items);
        i
    } else {
        let entries = ls[idx].entries@;
        let ls2 = ls.remove(idx);
        let rest_pending = pending.drop_first() + subdirs_of(dir, entries);
        let here = items_of(dir, entries);
        let rest = walk_from(ls2, rest_pending).items;
        let whole = walk_from(ls, pending).items;
        assert(whole == here + rest);
        if a < here.len() {
            assert(whole[a] == here[a]);
            assert(names_ok(entries));
            let j = lemma_items_of_provenance(dir, entries, a);
            lemma_parent_of_join(dir, normalize_chars(entries[j].name@));
            idx
        } else {
            assert(whole[a] == rest[a - here.len()]);
            assert forall|k: int| 0 <= k < ls2.len() implies names_ok(
                (#[trigger] ls2[k]).entries@,
            ) by {
                let k0 = if k < idx {
                    k
                } else {
                    k + 1
                };
                assert(ls2[k] == ls[k0]);
            }
            let i2 = lemma_walk_from_parent(ls2, rest_pending, a - here.len());
            let i0 = if i2 < idx {
                i2
            } else {
                i2 + 1
            };
            assert(ls2[i2] == ls[i0]);
            i0
        }
    }
}

/// Every path the walk emits is nonempty — the root is never an item —
/// and no two emitted paths are equal: within one listing the names
/// differ, and across listings the paths' directory parts differ.
pub proof fn lemma_walk_from_unique(ls: Seq<DirListing>, pending: Seq<Seq<char>>, a: int, b: int)
    requires
        distinct_listing_paths(ls),
        listings_names_ok(ls),
        0 <= a < b < walk_from(ls, pending).items.len(),
    ensures
        walk_from(ls, pending).items[a].path != walk_from(ls, pending).items[b].path,
    decreases ls.len(), pending.len(),
{
    let dir = pending[0];
    let idx = find_listing(ls, dir);
    lemma_find_listing(ls, dir);
    if !(0 <= idx < ls.len()) {
        assert(walk_from(ls, pending).items == walk_from(ls, pending.drop_first()).items);
        lemma_walk_from_unique(ls, pending.drop_first(), a, b);
    } else {
        let entries = ls[idx].entries@;
        let ls2 = ls.remove(idx);
        let rest_pending = pending.drop_first() + subdirs_of(dir, entries);
        lemma_distinct_listings_remove(ls, idx);
        let here = items_of(dir, entries);
        let rest = walk_from(ls2, rest_pending).items;
        let whole = walk_from(ls, pending).items;
        assert(whole == here + rest);
        assert(names_ok(entries));
        if b < here.len() {
            assert(whole[a] == here[a] && whole[b] == here[b]);
            lemma_items_of_unique(dir, entries, a, b);
        } else if a >= here.len() {
            assert(whole[a] == rest[a - here.len()] && whole[b] == rest[b - here.len()]);
            lemma_walk_from_unique(ls2, rest_pending, a - here.len(), b - here.len());
        } else {
            assert(whole[a] == here[a] && whole[b] == rest[b - here.len()]);
            let j = lemma_items_of_provenance(dir, entries, a);
            lemma_parent_of_join(dir, normalize_chars(entries[j].name@));
            assert(parent_of(whole[a].path) == dir);
            let i2 = lemma_walk_from_parent(ls2, rest_pending, b - here.len());
            let i0 = if i2 < idx {
                i2
            } else {
                i2 + 1
            };
            assert(ls2[i2] == ls[i0]);
            assert(i0 != idx);
            assert(ls[i0].path@ != ls[idx].path@);
            assert(parent_of(whole[b].path) != dir);
        }
    }
}

/// Spec section three's invariants of the whole walk: the root is never
/// emitted and no path occurs twice, for any tree whose listings have
/// distinct paths and well-formed names.
pub proof fn lemma_walk_model_unique(ls: Seq<DirListing>)
    requires
        distinct_listing_paths(ls),
        listings_names_ok(ls),
    ensures
        forall|a: int, b: int|
            0 <= a < b < walk_model(ls).items.len() ==> walk_model(ls).items[a].path
                != walk_model(ls).items[b].path,
        forall|a: int|
            0 <= a < walk_model(ls).items.len() ==> (#[trigger] walk_model(
                ls,
            ).items[a]).path.len() > 0,
{
    let pending = seq![Seq::<char>::empty()];
    assert forall|a: int, b: int|
        0 <= a < b < walk_model(ls).items.len() implies walk_model(ls).items[a].path
        != walk_model(ls).items[b].path by {
        lemma_walk_from_unique(ls, pending, a, b);
    }
    assert forall|a: int| 0 <= a < walk_model(ls).items.len() implies (#[trigger] walk_model(
        ls,
    ).items[a]).path.len() > 0 by {
        lemma_walk_from_parent(ls, pending, a);
    }
}

/// Counters the walker updates as it goes; saturating, so they are
/// meaningful even if a counter would overflow.
pub struct ScanStats {
    pub files_scanned: u64,
    pub dirs_scanned: u64,
    pub bytes_read: u64,
}

/// A point-in-time copy of the walk counters.
pub struct StatsSnapshot {
    pub files: u64,
    pub dirs: u64,
    pub bytes: u64,
}

impl ScanStats {
    /// Fresh counters, all zero.
    pub fn new() -> (s: ScanStats)
        ensures
            s.files_scanned == 0,
            s.dirs_scanned == 0,
            s.bytes_read == 0,
    {
        ScanStats { files_scanned: 0, dirs_scanned: 0, bytes_read: 0 }
    }

    /// Counts one file of `size` bytes.
    pub fn record_file(&mut self, size: u64)
        ensures
            final(self).files_scanned == old(self).files_scanned.saturating_add(1),
            final(self).bytes_read == old(self).bytes_read.saturating_add(size),
            final(self).dirs_scanned == old(self).dirs_scanned,
    {
        self.files_scanned = self.files_scanned.saturating_add(1);
        self.bytes_read = self.bytes_read.saturating_add(size);
    }

    /// Counts one directory.
    pub fn record_dir(&mut self)
        ensures
            final(self).dirs_scanned == old(self).dirs_scanned.saturating_add(1),
            final(self).files_scanned == old(self).files_scanned,
            final(self).bytes_read == old(self).bytes_read,
    {
        self.dirs_scanned = self.dirs_scanned.saturating_add(1);
    }

    /// The counters as one snapshot value.
    pub fn snapshot(&self) -> (r: StatsSnapshot)
        ensures
            r.files == self.files_scanned,
            r.dirs == self.dirs_scanned,
            r.bytes == self.bytes_read,
    {
        StatsSnapshot {
            files: self.files_scanned,
            dirs: self.dirs_scanned,
            bytes: self.bytes_read,
        }
    }
}

} // verus!
