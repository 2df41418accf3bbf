//! Building the flattened tree from a directory listing, and the incremental
//! single-entry updates the change reconciler performs on it.
use vstd::prelude::*;
use vstd::pervasive::VecAdditionalExecFns;
use crate::path::{
    RelPath, path_lt, clone_rel_path, clone_bytes, path_less, path_eq, lemma_path_lt_connected,
    lemma_path_lt_trans,
};
use crate::types::{
    FileEntry, FileStatus, EntryModel, entries_view, entry_wf, entries_wf, lemma_wf_paths_unique,
};

verus! {

/// One item of a directory listing: a path relative to the overlay root,
/// whether it is a directory, and whether the corresponding base path exists.
/// The caller walks the filesystem; this crate only ever sees these values.
pub struct ScanItem {
    pub rel: RelPath,
    pub is_dir: bool,
    pub in_base: bool,
}

/// Mathematical image of a `ScanItem`.
pub ghost struct ScanItemModel {
    pub path: Seq<Seq<u8>>,
    pub is_dir: bool,
    pub in_base: bool,
}

impl View for ScanItem {
    type V = ScanItemModel;

    open spec fn view(&self) -> ScanItemModel {
        ScanItemModel { path: self.rel@, is_dir: self.is_dir, in_base: self.in_base }
    }
}

/// The models of a sequence of scan items.
pub open spec fn items_view(s: Seq<ScanItem>) -> Seq<ScanItemModel> {
    Seq::new(s.len(), |i: int| s[i]@)
}

/// A listing is acceptable input when every path is non-empty and no path
/// occurs twice, which any walk of a real directory tree satisfies.
pub open spec fn scan_input_wf(items: Seq<ScanItemModel>) -> bool {
    &&& forall|i: int| 0 <= i < items.len() ==> (#[trigger] items[i]).path.len() >= 1
    &&& forall|i: int, j: int|
        0 <= i < j < items.len() ==> (#[trigger] items[i]).path != (#[trigger] items[j]).path
}

/// The entry a listing item becomes: name and depth derived from the path,
/// status from presence in the base, all flags cleared.
pub open spec fn mk_entry(it: ScanItemModel) -> EntryModel {
    EntryModel {
        path: it.path,
        name: it.path.last(),
        is_dir: it.is_dir,
        depth: (it.path.len() - 1) as nat,
        status: if it.in_base {
            FileStatus::Modified
        } else {
            FileStatus::New
        },
        selected: false,
        collapsed: false,
    }
}

/// Index at which an entry with path `p` belongs in `s`: directly before the
/// first entry whose path sorts after `p`.
pub open spec fn insert_pos(s: Seq<EntryModel>, p: Seq<Seq<u8>>) -> int
    decreases s.len(),
{
    if s.len() == 0 {
        0
    } else if path_lt(p, s[0].path) {
        0
    } else {
        1 + insert_pos(s.drop_first(), p)
    }
}

/// `s` with `e` inserted at its sorted position.
pub open spec fn insert_sorted(s: Seq<EntryModel>, e: EntryModel) -> Seq<EntryModel>
    decreases s.len(),
{
    if s.len() == 0 {
        seq![e]
    } else if path_lt(e.path, s[0].path) {
        seq![e] + s
    } else {
        seq![s[0]] + insert_sorted(s.drop_first(), e)
    }
}

/// The tree a listing builds: entries inserted one by one at their sorted
/// positions.
pub open spec fn spec_build(items: Seq<ScanItemModel>) -> Seq<EntryModel>
    decreases items.len(),
{
    if items.len() == 0 {
        Seq::empty()
    } else {
        insert_sorted(spec_build(items.drop_last()), mk_entry(items.last()))
    }
}

/// Some entry of `s` carries path `p`.
pub open spec fn has_path(s: Seq<EntryModel>, p: Seq<Seq<u8>>) -> bool {
    exists|i: int| 0 <= i < s.len() && (#[trigger] s[i]).path == p
}

pub proof fn lemma_insert_pos_bounds(s: Seq<EntryModel>, p: Seq<Seq<u8>>)
    ensures
        0 <= insert_pos(s, p) <= s.len(),
        forall|j: int| 0 <= j < insert_pos(s, p) ==> !path_lt(p, (#[trigger] s[j]).path),
        insert_pos(s, p) < s.len() ==> path_lt(p, s[insert_pos(s, p)].path),
    decreases s.len(),
{
    if s.len() == 0 {
    } else if path_lt(p, s[0].path) {
    } else {
        lemma_insert_pos_bounds(s.drop_first(), p);
        let k = insert_pos(s, p);
        assert forall|j: int| 0 <= j < k implies !path_lt(p, (#[trigger] s[j]).path) by {
            if j > 0 {
                assert(s[j] == s.drop_first()[j - 1]);
            }
        }
        if k < s.len() {
            assert(s[k] == s.drop_first()[k - 1]);
        }
    }
}

/// Only one index satisfies the placement conditions, so an executable
/// search that finds them lands exactly on `insert_pos`.
pub proof fn lemma_insert_pos_unique(s: Seq<EntryModel>, p: Seq<Seq<u8>>, k: int)
    requires
        0 <= k <= s.len(),
        forall|j: int| 0 <= j < k ==> !path_lt(p, (#[trigger] s[j]).path),
        k < s.len() ==> path_lt(p, s[k].path),
    ensures
        k == insert_pos(s, p),
    decreases s.len(),
{
    if s.len() == 0 {
    } else if path_lt(p, s[0].path) {
        if k > 0 {
            assert(!path_lt(p, s[0].path));
        }
    } else {
        assert(k > 0) by {
            if k == 0 {
                assert(path_lt(p, s[0].path));
            }
        }
        assert forall|j: int| 0 <= j < k - 1 implies !path_lt(
            p,
            (#[trigger] s.drop_first()[j]).path,
        ) by {
            assert(s.drop_first()[j] == s[j + 1]);
        }
        if k - 1 < s.drop_first().len() {
            assert(s.drop_first()[k - 1] == s[k]);
        }
        lemma_insert_pos_unique(s.drop_first(), p, k - 1);
    }
}

/// `insert_sorted` splits `s` at `insert_pos` and puts the new entry between
/// the halves.
pub proof fn lemma_insert_sorted_split(s: Seq<EntryModel>, e: EntryModel)
    ensures
        insert_sorted(s, e) == s.subrange(0, insert_pos(s, e.path)) + seq![e] + s.subrange(
            insert_pos(s, e.path),
            s.len() as int,
        ),
    decreases s.len(),
{
    lemma_insert_pos_bounds(s, e.path);
    if s.len() == 0 {
        assert(insert_sorted(s, e) =~= s.subrange(0, 0) + seq![e] + s.subrange(0, 0));
    } else if path_lt(e.path, s[0].path) {
        assert(insert_sorted(s, e) =~= s.subrange(0, 0) + seq![e] + s.subrange(0, s.len() as int));
    } else {
        lemma_insert_sorted_split(s.drop_first(), e);
        let p = insert_pos(s, e.path);
        assert(insert_sorted(s.drop_first(), e) == s.drop_first().subrange(0, p - 1) + seq![e]
            + s.drop_first().subrange(p - 1, s.len() - 1));
        assert(insert_sorted(s, e) =~= s.subrange(0, p) + seq![e] + s.subrange(
            p,
            s.len() as int,
        )) by {
            assert forall|j: int| 0 <= j < s.drop_first().len() implies s.drop_first()[j] == s[j
                + 1] by {}
        }
    }
}

/// Inserting a fresh path at its sorted position keeps the sequence sorted
/// and well formed.
pub proof fn lemma_insert_sorted_wf(s: Seq<EntryModel>, e: EntryModel)
    requires
        entries_wf(s),
        entry_wf(e),
        !has_path(s, e.path),
    ensures
        entries_wf(insert_sorted(s, e)),
        insert_sorted(s, e).len() == s.len() + 1,
{
    lemma_insert_pos_bounds(s, e.path);
    lemma_insert_sorted_split(s, e);
    let p = insert_pos(s, e.path);
    let t = insert_sorted(s, e);
    assert(t.len() == s.len() + 1);
    assert forall|j: int| 0 <= j < t.len() implies entry_wf(#[trigger] t[j]) by {
        if j < p {
            assert(t[j] == s[j]);
        } else if j == p {
            assert(t[j] == e);
        } else {
            assert(t[j] == s[j - 1]);
        }
    }
    assert forall|j: int| 0 <= j < s.len() implies t[if j < p {
        j
    } else {
        j + 1
    }] == s[j] by {}
    assert forall|j: int| 0 <= j < p implies path_lt((#[trigger] s[j]).path, e.path) by {
        lemma_path_lt_connected(s[j].path, e.path);
        if s[j].path == e.path {
            assert(has_path(s, e.path));
        }
    }
    assert forall|j: int| p <= j < s.len() implies path_lt(e.path, (#[trigger] s[j]).path) by {
        if j > p {
            lemma_path_lt_trans(e.path, s[p].path, s[j].path);
        }
    }
    assert forall|i: int, j: int| 0 <= i < j < t.len() implies path_lt(
        (#[trigger] t[i]).path,
        (#[trigger] t[j]).path,
    ) by {
        if i < p && j < p {
            assert(t[i] == s[i] && t[j] == s[j]);
        } else if i < p && j == p {
            assert(t[i] == s[i] && t[j] == e);
        } else if i < p && j > p {
            assert(t[i] == s[i] && t[j] == s[j - 1]);
        } else if i == p && j > p {
            assert(t[i] == e && t[j] == s[j - 1]);
        } else if i > p && j > p {
            assert(t[i] == s[i - 1] && t[j] == s[j - 1]);
        }
    }
}

/// The paths present after an insertion are the old ones plus the new one.
pub proof fn lemma_insert_sorted_has_path(s: Seq<EntryModel>, e: EntryModel, q: Seq<Seq<u8>>)
    ensures
        has_path(insert_sorted(s, e), q) == (q == e.path || has_path(s, q)),
{
    lemma_insert_sorted_split(s, e);
    lemma_insert_pos_bounds(s, e.path);
    let p = insert_pos(s, e.path);
    let t = insert_sorted(s, e);
    if q == e.path {
        assert(t[p] == e);
        assert(has_path(t, q));
    } else if has_path(s, q) {
        let i = choose|i: int| 0 <= i < s.len() && (#[trigger] s[i]).path == q;
        if i < p {
            assert(t[i] == s[i]);
        } else {
            assert(t[i + 1] == s[i]);
        }
        assert(has_path(t, q));
    } else {
        if has_path(t, q) {
            let i = choose|i: int| 0 <= i < t.len() && (#[trigger] t[i]).path == q;
            if i < p {
                assert(t[i] == s[i]);
                assert(has_path(s, q));
            } else if i == p {
                assert(t[i] == e);
            } else {
                assert(t[i] == s[i - 1]);
                assert(has_path(s, q));
            }
        }
    }
}

/// What `spec_build` makes of a well-formed listing: a well-formed tree, one
/// entry per item, holding exactly the listed paths.
pub proof fn lemma_spec_build_wf(items: Seq<ScanItemModel>)
    requires
        scan_input_wf(items),
    ensures
        entries_wf(spec_build(items)),
        spec_build(items).len() == items.len(),
        forall|q: Seq<Seq<u8>>|
            #[trigger] has_path(spec_build(items), q) == exists|i: int|
                0 <= i < items.len() && (#[trigger] items[i]).path == q,
    decreases items.len(),
{
    if items.len() == 0 {
    } else {
        let prev = items.drop_last();
        let e = mk_entry(items.last());
        assert(scan_input_wf(prev)) by {
            assert forall|i: int| 0 <= i < prev.len() implies (#[trigger] prev[i]).path.len()
                >= 1 by {
                assert(prev[i] == items[i]);
            }
            assert forall|i: int, j: int| 0 <= i < j < prev.len() implies (#[trigger] prev[i]).path
                != (#[trigger] prev[j]).path by {
                assert(prev[i] == items[i] && prev[j] == items[j]);
            }
        }
        lemma_spec_build_wf(prev);
        assert(entry_wf(e)) by {
            assert(items.last().path.len() >= 1);
        }
        assert(!has_path(spec_build(prev), e.path)) by {
            if has_path(spec_build(prev), e.path) {
                let i = choose|i: int| 0 <= i < prev.len() && (#[trigger] prev[i]).path == e.path;
                assert(items[i].path == items[items.len() - 1].path);
            }
        }
        lemma_insert_sorted_wf(spec_build(prev), e);
        assert forall|q: Seq<Seq<u8>>| #[trigger] has_path(spec_build(items), q) == (exists|i: int|
            0 <= i < items.len() && (#[trigger] items[i]).path == q) by {
            lemma_insert_sorted_has_path(spec_build(prev), e, q);
            if has_path(spec_build(items), q) {
                if q == e.path {
                    assert(items[items.len() - 1].path == q);
                } else {
                    let i = choose|i: int|
                        0 <= i < prev.len() && (#[trigger] prev[i]).path == q;
                    assert(items[i].path == q);
                }
            } else {
                if exists|i: int| 0 <= i < items.len() && (#[trigger] items[i]).path == q {
                    let i = choose|i: int|
                        0 <= i < items.len() && (#[trigger] items[i]).path == q;
                    if i < items.len() - 1 {
                        assert(prev[i].path == q);
                    } else {
                        assert(q == e.path);
                    }
                }
            }
        }
    }
}

/// First index of `files` whose path sorts after `rel`, or the length when
/// none does.
fn find_insert_pos(files: &Vec<FileEntry>, rel: &RelPath) -> (r: usize)
    ensures
        r as int == insert_pos(entries_view(files@), rel@),
{
    let ghost s = entries_view(files@);
    let mut j: usize = 0;
    while j < files.len()
        invariant
            0 <= j <= files.len(),
            s == entries_view(files@),
            s.len() == files@.len(),
            forall|k: int| 0 <= k < j ==> !path_lt(rel@, (#[trigger] s[k]).path),
        decreases files.len() - j,
    {
        assert(s[j as int].path == files@[j as int]@.path);
        if path_less(rel, &files[j].path) {
            proof {
                lemma_insert_pos_unique(s, rel@, j as int);
            }
            return j;
        }
        j += 1;
    }
    proof {
        lemma_insert_pos_unique(s, rel@, files@.len() as int);
    }
    j
}

/// Index of the entry with path `rel`, when the tree holds one.
pub(crate) fn find_path_index(files: &Vec<FileEntry>, rel: &RelPath) -> (r: Option<usize>)
    ensures
        match r {
            Some(idx) => 0 <= idx < files@.len() && entries_view(files@)[idx as int].path == rel@,
            None => !has_path(entries_view(files@), rel@),
        },
{
    let ghost s = entries_view(files@);
    let mut j: usize = 0;
    while j < files.len()
        invariant
            0 <= j <= files.len(),
            s == entries_view(files@),
            s.len() == files@.len(),
            forall|k: int| 0 <= k < j ==> (#[trigger] s[k]).path != rel@,
        decreases files.len() - j,
    {
        assert(s[j as int].path == files@[j as int]@.path);
        if path_eq(&files[j].path, rel) {
            return Some(j);
        }
        j += 1;
    }
    None
}

/// Builds the flattened, ordered tree from a directory listing.
///
/// The result is depth-first pre-order with siblings sorted by path: exactly
/// the listing's entries, each classified against the base, sorted by the
/// component-wise path order, with name and depth derived from the path and
/// all selection and collapse flags cleared.
pub fn scan_directory(items: &Vec<ScanItem>) -> (r: Vec<FileEntry>)
    requires
        scan_input_wf(items_view(items@)),
    ensures
        entries_view(r@) == spec_build(items_view(items@)),
        entries_wf(entries_view(r@)),
{
    let ghost all = items_view(items@);
    let mut out: Vec<FileEntry> = Vec::new();
    proof {
        assert(entries_view(out@) =~= spec_build(all.subrange(0, 0)));
        lemma_spec_build_wf(all.subrange(0, 0));
    }
    let mut i: usize = 0;
    while i < items.len()
        invariant
            0 <= i <= items.len(),
            all == items_view(items@),
            all.len() == items@.len(),
            scan_input_wf(all),
            entries_view(out@) == spec_build(all.subrange(0, i as int)),
            entries_wf(entries_view(out@)),
        decreases items.len() - i,
    {
        let ghost prefix = all.subrange(0, i as int);
        let ghost prefix1 = all.subrange(0, i + 1);
        proof {
            assert(all[i as int] == items@[i as int]@);
            assert(all[i as int].path.len() >= 1);
            assert(items@[i as int]@.path == items@[i as int].rel@);
            assert(prefix1.drop_last() =~= prefix);
            assert(prefix1.last() == all[i as int]);
        }
        let it = &items[i];
        assert(it.rel@.len() >= 1);
        assert(it.rel@.len() == it.rel.components@.len());
        let depth: usize = it.rel.components.len() - 1;
        let e = FileEntry {
            path: clone_rel_path(&it.rel),
            name: clone_bytes(it.rel.last_component()),
            is_dir: it.is_dir,
            depth,
            status: if it.in_base {
                FileStatus::Modified
            } else {
                FileStatus::New
            },
            selected: false,
            collapsed: false,
        };
        proof {
            assert(e@ == mk_entry(all[i as int]));
        }
        let ghost before = entries_view(out@);
        let pos = find_insert_pos(&out, &e.path);
        proof {
            lemma_insert_pos_bounds(before, e@.path);
            lemma_insert_sorted_split(before, e@);
            assert(scan_input_wf(prefix1)) by {
                assert forall|a: int| 0 <= a < prefix1.len() implies (
                #[trigger] prefix1[a]).path.len() >= 1 by {
                    assert(prefix1[a] == all[a]);
                }
                assert forall|a: int, b: int| 0 <= a < b < prefix1.len() implies (
                #[trigger] prefix1[a]).path != (#[trigger] prefix1[b]).path by {
                    assert(prefix1[a] == all[a] && prefix1[b] == all[b]);
                }
            }
            lemma_spec_build_wf(prefix1);
            assert(!has_path(before, e@.path)) by {
                lemma_spec_build_wf(prefix);
                if has_path(before, e@.path) {
                    let k = choose|k: int|
                        0 <= k < prefix.len() && (#[trigger] prefix[k]).path == e@.path;
                    assert(all[k].path == all[i as int].path);
                }
            }
            lemma_insert_sorted_wf(before, e@);
        }
        out.insert(pos, e);
        proof {
            assert(entries_view(out@) =~= insert_sorted(before, e@)) by {
                assert(out@ == out@.subrange(0, out@.len() as int));
                assert forall|k: int| 0 <= k < out@.len() implies entries_view(out@)[k]
                    == insert_sorted(before, e@)[k] by {
                    let p = insert_pos(before, e@.path);
                    if k < p {
                        assert(out@[k] == out@.subrange(0, p)[k]);
                    }
                }
            }
            assert(spec_build(prefix1) == insert_sorted(spec_build(prefix), mk_entry(all[i as int])));
        }
        i += 1;
    }
    proof {
        assert(all.subrange(0, all.len() as int) =~= all);
    }
    out
}

/// The tree after the reconciler learns that `p` now denotes an existing
/// file: the entry with that path reclassified in place, its selection kept,
/// or a fresh file entry inserted at its sorted position.
pub open spec fn spec_update_or_add(
    s: Seq<EntryModel>,
    p: Seq<Seq<u8>>,
    in_base: bool,
) -> Seq<EntryModel> {
    let m = mk_entry(ScanItemModel { path: p, is_dir: false, in_base });
    if has_path(s, p) {
        let i = choose|i: int| 0 <= i < s.len() && (#[trigger] s[i]).path == p;
        s.update(i, EntryModel { selected: s[i].selected, ..m })
    } else {
        insert_sorted(s, m)
    }
}

/// Updates the entry for a path a change notification reported as an
/// existing file, or inserts one at its sorted position. An updated entry is
/// reclassified and keeps its `selected` flag; a fresh entry starts with all
/// flags cleared.
pub fn update_or_add_file(files: &mut Vec<FileEntry>, rel: &RelPath, in_base: bool)
    requires
        rel@.len() >= 1,
        entries_wf(entries_view(old(files)@)),
    ensures
        entries_view(final(files)@) == spec_update_or_add(entries_view(old(files)@), rel@, in_base),
        entries_wf(entries_view(final(files)@)),
        final(files)@.len() >= old(files)@.len(),
{
    let ghost s = entries_view(old(files)@);
    let ghost m = mk_entry(ScanItemModel { path: rel@, is_dir: false, in_base });
    assert(rel@.len() == rel.components@.len());
    let depth: usize = rel.components.len() - 1;
    let entry = FileEntry {
        path: clone_rel_path(rel),
        name: clone_bytes(rel.last_component()),
        is_dir: false,
        depth,
        status: if in_base {
            FileStatus::Modified
        } else {
            FileStatus::New
        },
        selected: false,
        collapsed: false,
    };
    proof {
        assert(entry@ == m);
    }
    match find_path_index(files, rel) {
        Some(idx) => {
            let was_selected = files[idx].selected;
            let updated = FileEntry { selected: was_selected, ..entry };
            files.set(idx, updated);
            proof {
                let ci = choose|i: int| 0 <= i < s.len() && (#[trigger] s[i]).path == rel@;
                assert(ci == idx as int) by {
                    if ci != idx as int {
                        lemma_wf_paths_unique(s, ci, idx as int);
                    }
                }
                assert(entries_view(files@) =~= s.update(
                    idx as int,
                    EntryModel { selected: s[idx as int].selected, ..m },
                ));
                let t = entries_view(files@);
                assert(entries_wf(t)) by {
                    assert forall|a: int, b: int| 0 <= a < b < t.len() implies path_lt(
                        (#[trigger] t[a]).path,
                        (#[trigger] t[b]).path,
                    ) by {
                        assert(t[a].path == s[a].path && t[b].path == s[b].path);
                    }
                    assert forall|a: int| 0 <= a < t.len() implies entry_wf(#[trigger] t[a]) by {
                        if a != idx as int {
                            assert(t[a] == s[a]);
                        }
                    }
                }
            }
        },
        None => {
            let pos = find_insert_pos(files, &entry.path);
            proof {
                lemma_insert_pos_bounds(s, entry@.path);
                lemma_insert_sorted_split(s, entry@);
                lemma_insert_sorted_wf(s, entry@);
            }
            files.insert(pos, entry);
            proof {
                assert(entries_view(files@) =~= insert_sorted(s, m)) by {
                    assert forall|k: int| 0 <= k < files@.len() implies entries_view(files@)[k]
                        == insert_sorted(s, m)[k] by {
                        let p = insert_pos(s, m.path);
                        if k < p {
                            assert(files@[k] == old(files)@[k]);
                        }
                    }
                }
            }
        },
    }
}

/// Removes the entry with exactly the given path, reporting the index it
/// held, or leaves the tree unchanged when no entry carries the path.
pub fn remove_file_from_list(files: &mut Vec<FileEntry>, rel: &RelPath) -> (r: Option<usize>)
    requires
        entries_wf(entries_view(old(files)@)),
    ensures
        match r {
            Some(idx) => {
                &&& 0 <= idx < old(files)@.len()
                &&& entries_view(old(files)@)[idx as int].path == rel@
                &&& entries_view(final(files)@) == entries_view(old(files)@).remove(idx as int)
            },
            None => {
                &&& !has_path(entries_view(old(files)@), rel@)
                &&& entries_view(final(files)@) == entries_view(old(files)@)
            },
        },
        entries_wf(entries_view(final(files)@)),
        final(files)@.len() <= old(files)@.len(),
{
    let ghost s = entries_view(old(files)@);
    match find_path_index(files, rel) {
        Some(idx) => {
            files.remove(idx);
            proof {
                assert(entries_view(files@) =~= s.remove(idx as int));
                let t = entries_view(files@);
                assert(entries_wf(t)) by {
                    assert forall|a: int| 0 <= a < t.len() implies entry_wf(#[trigger] t[a]) by {
                        if a < idx as int {
                            assert(t[a] == s[a]);
                        } else {
                            assert(t[a] == s[a + 1]);
                        }
                    }
                    assert forall|a: int, b: int| 0 <= a < b < t.len() implies path_lt(
                        (#[trigger] t[a]).path,
                        (#[trigger] t[b]).path,
                    ) by {
                        if b < idx as int {
                            assert(t[a] == s[a] && t[b] == s[b]);
                        } else if a < idx as int {
                            assert(t[a] == s[a] && t[b] == s[b + 1]);
                        } else {
                            assert(t[a] == s[a + 1] && t[b] == s[b + 1]);
                        }
                    }
                }
            }
            Some(idx)
        },
        None => {
            proof {
                assert(entries_view(files@) =~= s);
            }
            None
        },
    }
}

} // verus!

