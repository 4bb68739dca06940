//! The aggregator: total size over files, per-directory sizes (a directory
//! weighs the sum of the files below it), formatted sizes, and the
//! descending-size order of the final item list.
use vstd::prelude::*;

verus! {

use crate::format::{format_size, spec_format_size};
use crate::item::{clone_item, Item, ItemView};
use crate::pathutil::{check_dir_contains, dir_contains};
use crate::walk::{clamp_i64, files_view, items_view, FileEntry, FileView};

/// The sum of the (clamped) sizes of all files, the scan's `total_size`.
pub open spec fn sum_files(files: Seq<FileView>) -> int
    decreases files.len(),
{
    if files.len() == 0 {
        0
    } else {
        sum_files(files.drop_last()) + clamp_i64(files.last().size)
    }
}

/// The size a directory with path `d` gets: the sum of the sizes of the
/// files lying below it.
pub open spec fn dir_size(d: Seq<char>, files: Seq<FileView>) -> int
    decreases files.len(),
{
    if files.len() == 0 {
        0
    } else {
        dir_size(d, files.drop_last()) + (if dir_contains(d, files.last().path) {
            clamp_i64(files.last().size)
        } else {
            0
        })
    }
}

pub proof fn lemma_sum_files_nonneg(files: Seq<FileView>)
    ensures
        0 <= sum_files(files),
    decreases files.len(),
{
    if files.len() > 0 {
        lemma_sum_files_nonneg(files.drop_last());
    }
}

/// A directory's size is bounded by the total: it sums a subset of the
/// same non-negative file sizes.
pub proof fn lemma_dir_size_bounds(d: Seq<char>, files: Seq<FileView>)
    ensures
        0 <= dir_size(d, files) <= sum_files(files),
    decreases files.len(),
{
    if files.len() > 0 {
        lemma_dir_size_bounds(d, files.drop_last());
    }
}

pub proof fn lemma_sum_files_prefix(files: Seq<FileView>, i: int)
    requires
        0 <= i <= files.len(),
    ensures
        sum_files(files.subrange(0, i)) <= sum_files(files),
    decreases files.len() - i,
{
    if i == files.len() {
        assert(files.subrange(0, i) =~= files);
    } else {
        assert(files.subrange(0, i + 1).drop_last() =~= files.subrange(0, i));
        lemma_sum_files_prefix(files, i + 1);
    }
}

/// Sums the file sizes. The caller bounds the true total, which a real
/// filesystem cannot exceed anyway; partial sums then never overflow.
pub fn total_size(files: &Vec<FileEntry>) -> (t: i64)
    requires
        sum_files(files_view(files@)) <= i64::MAX,
    ensures
        t == sum_files(files_view(files@)),
{
    let ghost fv = files_view(files@);
    let mut acc: i64 = 0;
    let mut i: usize = 0;
    while i < files.len()
        invariant
            fv == files_view(files@),
            sum_files(fv) <= i64::MAX,
            i <= files@.len(),
            fv.len() == files@.len(),
            acc == sum_files(fv.subrange(0, i as int)),
        decreases files.len() - i,
    {
        proof {
            assert(fv.subrange(0, i + 1).drop_last() =~= fv.subrange(0, i as int));
            assert(fv.subrange(0, i + 1).last() == fv[i as int]);
            lemma_sum_files_nonneg(fv.subrange(0, i as int));
            lemma_sum_files_prefix(fv, i + 1);
        }
        let s = files[i].size;
        let c: i64 = if s > i64::MAX as u64 {
            i64::MAX
        } else {
            s as i64
        };
        acc = acc + c;
        i = i + 1;
    }
    proof {
        assert(fv.subrange(0, fv.len() as int) =~= fv);
    }
    acc
}

pub proof fn lemma_dir_size_prefix(d: Seq<char>, files: Seq<FileView>, i: int)
    requires
        0 <= i <= files.len(),
    ensures
        dir_size(d, files.subrange(0, i)) <= dir_size(d, files),
    decreases files.len() - i,
{
    if i == files.len() {
        assert(files.subrange(0, i) =~= files);
    } else {
        assert(files.subrange(0, i + 1).drop_last() =~= files.subrange(0, i));
        lemma_dir_size_bounds(d, files.subrange(0, i));
        lemma_dir_size_prefix(d, files, i + 1);
    }
}

/// The size of the directory `d`: the sum over the files below it.
pub fn compute_dir_size(d: &String, files: &Vec<FileEntry>) -> (t: i64)
    requires
        sum_files(files_view(files@)) <= i64::MAX,
    ensures
        t == dir_size(d@, files_view(files@)),
{
    let ghost fv = files_view(files@);
    let mut acc: i64 = 0;
    let mut i: usize = 0;
    while i < files.len()
        invariant
            fv == files_view(files@),
            sum_files(fv) <= i64::MAX,
            i <= files@.len(),
            fv.len() == files@.len(),
            acc == dir_size(d@, fv.subrange(0, i as int)),
        decreases files.len() - i,
    {
        proof {
            assert(fv.subrange(0, i + 1).drop_last() =~= fv.subrange(0, i as int));
            assert(fv.subrange(0, i + 1).last() == fv[i as int]);
            lemma_dir_size_bounds(d@, fv.subrange(0, i as int));
            lemma_dir_size_bounds(d@, fv.subrange(0, i + 1));
            lemma_dir_size_bounds(d@, fv);
            lemma_dir_size_prefix(d@, fv, i + 1);
            lemma_sum_files_nonneg(fv);
        }
        if check_dir_contains(d.as_str(), files[i].path.as_str()) {
            let s = files[i].size;
            let c: i64 = if s > i64::MAX as u64 {
                i64::MAX
            } else {
                s as i64
            };
            acc = acc + c;
        }
        i = i + 1;
    }
    proof {
        assert(fv.subrange(0, fv.len() as int) =~= fv);
    }
    acc
}

/// An item once the aggregator is done with it: directories carry their
/// computed size, and every item carries its formatted size.
pub open spec fn finalize_item(iv: ItemView, files: Seq<FileView>) -> ItemView {
    let size = if iv.is_dir {
        dir_size(iv.path, files)
    } else {
        iv.size
    };
    ItemView {
        path: iv.path,
        name: iv.name,
        size,
        size_formatted: spec_format_size(size),
        is_dir: iv.is_dir,
    }
}

/// The whole item list, finalized.
pub open spec fn finalized(items: Seq<ItemView>, files: Seq<FileView>) -> Seq<ItemView> {
    items.map_values(|iv: ItemView| finalize_item(iv, files))
}

/// Fills in directory sizes and formatted sizes for every item.
pub fn finalize_items(items: &Vec<Item>, files: &Vec<FileEntry>) -> (out: Vec<Item>)
    requires
        sum_files(files_view(files@)) <= i64::MAX,
        forall|j: int| 0 <= j < items@.len() ==> (#[trigger] items@[j]@.size) <= i64::MAX,
    ensures
        items_view(out@) == finalized(items_view(items@), files_view(files@)),
{
    let ghost fv = files_view(files@);
    let ghost goal = finalized(items_view(items@), fv);
    let mut out: Vec<Item> = Vec::new();
    let mut i: usize = 0;
    while i < items.len()
        invariant
            fv == files_view(files@),
            goal == finalized(items_view(items@), fv),
            sum_files(fv) <= i64::MAX,
            forall|j: int| 0 <= j < items@.len() ==> (#[trigger] items@[j]@.size) <= i64::MAX,
            i <= items@.len(),
            goal.len() == items@.len(),
            items_view(out@) == goal.subrange(0, i as int),
        decreases items.len() - i,
    {
        let it = &items[i];
        let size: i64 = if it.is_dir {
            compute_dir_size(&it.path, files)
        } else {
            it.size
        };
        let formatted = format_size(size);
        let ghost out_before = out@;
        out.push(
            Item {
                path: it.path.clone(),
                name: it.name.clone(),
                size,
                size_formatted: formatted,
                is_dir: it.is_dir,
            },
        );
        proof {
            assert(items_view(items@)[i as int] == items@[i as int]@);
            assert(goal[i as int] == finalize_item(items@[i as int]@, fv));
            assert(out@.last()@ =~~= finalize_item(items@[i as int]@, fv));
            assert(items_view(out@) =~~= items_view(out_before).push(
                finalize_item(items@[i as int]@, fv),
            ));
            assert(items_view(out@) =~~= goal.subrange(0, i + 1));
        }
        i = i + 1;
    }
    proof {
        assert(goal.subrange(0, goal.len() as int) =~= goal);
        assert(items_view(out@) =~~= goal);
    }
    out
}

/// Descending order by size: no later item is larger.
pub open spec fn sorted_desc(s: Seq<ItemView>) -> bool {
    forall|i: int, j: int| 0 <= i < j < s.len() ==> s[i].size >= s[j].size
}

/// Where an item of size `x.size` goes in the sorted list `out`: after
/// every item at least as large, before the first strictly smaller one.
/// Equal sizes keep their earlier-inserted neighbors in front, which
/// makes the sort stable.
pub open spec fn insert_desc(out: Seq<ItemView>, x: ItemView) -> Seq<ItemView>
    decreases out.len(),
{
    if out.len() == 0 {
        seq![x]
    } else if out.first().size < x.size {
        seq![x] + out
    } else {
        seq![out.first()] + insert_desc(out.drop_first(), x)
    }
}

/// Stable insertion sort by descending size, as a function.
pub open spec fn sort_desc_spec(s: Seq<ItemView>) -> Seq<ItemView>
    decreases s.len(),
{
    if s.len() == 0 {
        Seq::empty()
    } else {
        insert_desc(sort_desc_spec(s.drop_last()), s.last())
    }
}

pub proof fn lemma_insert_desc_len(out: Seq<ItemView>, x: ItemView)
    ensures
        insert_desc(out, x).len() == out.len() + 1,
    decreases out.len(),
{
    if out.len() > 0 && !(out.first().size < x.size) {
        lemma_insert_desc_len(out.drop_first(), x);
    }
}

/// Inserting splits the list at the first strictly smaller element.
pub proof fn lemma_insert_desc_split(out: Seq<ItemView>, x: ItemView, pos: int)
    requires
        0 <= pos <= out.len(),
        forall|j: int| 0 <= j < pos ==> out[j].size >= x.size,
        pos < out.len() ==> out[pos].size < x.size,
    ensures
        insert_desc(out, x) == out.subrange(0, pos) + seq![x] + out.subrange(pos, out.len() as int),
    decreases out.len(),
{
    if out.len() == 0 {
        assert(insert_desc(out, x) =~= out.subrange(0, pos) + seq![x] + out.subrange(
            pos,
            out.len() as int,
        ));
    } else if out.first().size < x.size {
        assert(pos == 0);
        assert(insert_desc(out, x) =~= out.subrange(0, pos) + seq![x] + out.subrange(
            pos,
            out.len() as int,
        ));
    } else {
        assert(pos >= 1);
        lemma_insert_desc_split(out.drop_first(), x, pos - 1);
        assert(out.drop_first().subrange(0, pos - 1) =~= out.subrange(1, pos));
        assert(out.drop_first().subrange(pos - 1, out.drop_first().len() as int) =~= out.subrange(
            pos,
            out.len() as int,
        ));
        assert(insert_desc(out, x) =~= out.subrange(0, pos) + seq![x] + out.subrange(
            pos,
            out.len() as int,
        ));
    }
}

/// Every element of an inserted list is either `x` or one of the old
/// elements.
pub proof fn lemma_insert_desc_member(out: Seq<ItemView>, x: ItemView, i: int)
    requires
        0 <= i < insert_desc(out, x).len(),
    ensures
        insert_desc(out, x)[i] == x || out.contains(insert_desc(out, x)[i]),
    decreases out.len(),
{
    lemma_insert_desc_len(out, x);
    if out.len() == 0 {
    } else if out.first().size < x.size {
        if i > 0 {
            assert(insert_desc(out, x)[i] == out[i - 1]);
        }
    } else {
        if i == 0 {
            assert(insert_desc(out, x)[0] == out.first());
            assert(out.contains(out[0]));
        } else {
            lemma_insert_desc_member(out.drop_first(), x, i - 1);
            assert(insert_desc(out, x)[i] == insert_desc(out.drop_first(), x)[i - 1]);
            if insert_desc(out.drop_first(), x)[i - 1] != x {
                let e = insert_desc(out.drop_first(), x)[i - 1];
                let k = choose|k: int|
                    0 <= k < out.drop_first().len() && out.drop_first()[k] == e;
                assert(out[k + 1] == e);
                assert(out.contains(out[k + 1]));
            }
        }
    }
}

/// Inserting into a descending list keeps it descending.
pub proof fn lemma_insert_desc_sorted(out: Seq<ItemView>, x: ItemView)
    requires
        sorted_desc(out),
    ensures
        sorted_desc(insert_desc(out, x)),
    decreases out.len(),
{
    if out.len() == 0 {
    } else if out.first().size < x.size {
        assert forall|i: int, j: int|
            0 <= i < j < insert_desc(out, x).len() implies insert_desc(out, x)[i].size
            >= insert_desc(out, x)[j].size by {
            if i > 0 {
                assert(insert_desc(out, x)[i] == out[i - 1]);
                assert(insert_desc(out, x)[j] == out[j - 1]);
            } else {
                assert(insert_desc(out, x)[j] == out[j - 1]);
                assert(out[j - 1].size <= out.first().size || j - 1 == 0);
            }
        }
    } else {
        assert(sorted_desc(out.drop_first()));
        lemma_insert_desc_sorted(out.drop_first(), x);
        lemma_insert_desc_len(out.drop_first(), x);
        let r = insert_desc(out, x);
        let inner = insert_desc(out.drop_first(), x);
        assert forall|i: int, j: int| 0 <= i < j < r.len() implies r[i].size >= r[j].size by {
            if i == 0 {
                assert(r[0] == out.first());
                assert(r[j] == inner[j - 1]);
                lemma_insert_desc_member(out.drop_first(), x, j - 1);
            } else {
                assert(r[i] == inner[i - 1]);
                assert(r[j] == inner[j - 1]);
            }
        }
    }
}

/// Sorting rearranges: the multiset of items is unchanged.
pub proof fn lemma_insert_desc_multiset(out: Seq<ItemView>, x: ItemView)
    ensures
        insert_desc(out, x).to_multiset() =~= out.to_multiset().insert(x),
    decreases out.len(),
{
    broadcast use vstd::seq_lib::group_to_multiset_ensures;

    if out.len() == 0 {
        assert(insert_desc(out, x) =~= Seq::<ItemView>::empty().push(x));
        assert(out =~= Seq::<ItemView>::empty());
    } else if out.first().size < x.size {
        lemma_insert_desc_split(out, x, 0);
        let r = insert_desc(out, x);
        assert(r.remove(0) =~= out);
        assert(r.to_multiset().remove(r[0]) =~= out.to_multiset());
        assert(r.to_multiset().contains(r[0]));
        assert(r.to_multiset() =~= out.to_multiset().insert(x));
    } else {
        lemma_insert_desc_multiset(out.drop_first(), x);
        let r = insert_desc(out, x);
        let inner = insert_desc(out.drop_first(), x);
        assert(r.remove(0) =~= inner);
        assert(r.to_multiset().remove(r[0]) =~= inner.to_multiset());
        assert(r.to_multiset().contains(r[0]));
        assert(out.remove(0) =~= out.drop_first());
        assert(out.to_multiset().remove(out[0]) =~= out.drop_first().to_multiset());
        assert(out.to_multiset().contains(out[0]));
        assert(r.to_multiset() =~= inner.to_multiset().insert(out[0]));
        assert(out.drop_first().to_multiset().insert(x).insert(out[0]) =~= out.to_multiset().insert(
            x,
        ));
    }
}

/// The sorted list is a permutation of the input (ties keep their
/// relative order by construction of [`insert_desc`]).
pub proof fn lemma_sort_desc_multiset(s: Seq<ItemView>)
    ensures
        sort_desc_spec(s).to_multiset() =~= s.to_multiset(),
        sort_desc_spec(s).len() == s.len(),
    decreases s.len(),
{
    broadcast use vstd::seq_lib::group_to_multiset_ensures;

    if s.len() == 0 {
        assert(sort_desc_spec(s) =~= Seq::<ItemView>::empty());
        assert(s =~= Seq::<ItemView>::empty());
    } else {
        lemma_sort_desc_multiset(s.drop_last());
        lemma_insert_desc_multiset(sort_desc_spec(s.drop_last()), s.last());
        lemma_insert_desc_len(sort_desc_spec(s.drop_last()), s.last());
        assert(s.drop_last().push(s.last()) =~= s);
        assert(s.drop_last().push(s.last()).to_multiset() =~= s.drop_last().to_multiset().insert(
            s.last(),
        ));
    }
}

/// The sorted list is in descending order by size.
pub proof fn lemma_sort_desc_sorted(s: Seq<ItemView>)
    ensures
        sorted_desc(sort_desc_spec(s)),
    decreases s.len(),
{
    if s.len() > 0 {
        lemma_sort_desc_sorted(s.drop_last());
        lemma_insert_desc_sorted(sort_desc_spec(s.drop_last()), s.last());
    }
}

/// Sorts the items by descending size with a stable insertion sort.
pub fn sort_items_desc(v: &Vec<Item>) -> (out: Vec<Item>)
    ensures
        items_view(out@) == sort_desc_spec(items_view(v@)),
        sorted_desc(items_view(out@)),
{
    let mut out: Vec<Item> = Vec::new();
    let mut i: usize = 0;
    proof {
        assert(items_view(out@) =~= Seq::<ItemView>::empty());
        assert(items_view(v@.subrange(0, 0)) =~= Seq::<ItemView>::empty());
    }
    while i < v.len()
        invariant
            i <= v@.len(),
            items_view(out@) == sort_desc_spec(items_view(v@.subrange(0, i as int))),
            out@.len() == i,
        decreases v.len() - i,
    {
        proof {
            lemma_sort_desc_sorted(items_view(v@.subrange(0, i as int)));
        }
        let x = clone_item(&v[i]);
        let mut pos: usize = 0;
        while pos < out.len() && out[pos].size >= x.size
            invariant
                pos <= out@.len(),
                x == v@[i as int],
                items_view(out@) == sort_desc_spec(items_view(v@.subrange(0, i as int))),
                forall|j: int| 0 <= j < pos ==> items_view(out@)[j].size >= x@.size,
            decreases out.len() - pos,
        {
            proof {
                assert(items_view(out@)[pos as int] == out@[pos as int]@);
            }
            pos = pos + 1;
        }
        let ghost out0 = items_view(out@);
        proof {
            assert(pos < out@.len() ==> items_view(out@)[pos as int] == out@[pos as int]@);
        }
        out.insert(pos, x);
        proof {
            lemma_insert_desc_split(out0, x@, pos as int);
            assert(items_view(out@) =~~= out0.subrange(0, pos as int) + seq![x@] + out0.subrange(
                pos as int,
                out0.len() as int,
            ));
            assert(items_view(out@) =~~= insert_desc(out0, x@));
            assert(items_view(v@.subrange(0, i + 1)).drop_last() =~= items_view(
                v@.subrange(0, i as int),
            ));
            assert(items_view(v@.subrange(0, i + 1)).last() == v@[i as int]@);
        }
        i = i + 1;
    }
    proof {
        assert(v@.subrange(0, v@.len() as int) =~= v@);
        lemma_sort_desc_sorted(items_view(v@));
    }
    out
}

} // verus!
