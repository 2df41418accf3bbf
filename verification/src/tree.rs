//! The overlay tree: the ordered entry sequence, the cursor, and every
//! mutation the review screen performs on them.
use vstd::prelude::*;
use vstd::pervasive::VecAdditionalExecFns;
use crate::path::{
    RelPath, path_lt, is_prefix_of, is_ancestor_of, clone_rel_path, path_eq, path_starts_with,
    lemma_path_lt_asym, lemma_ancestor_lt, lemma_between_prefix, lemma_prefix_not_equal_ancestor,
};
use crate::types::{
    FileEntry, EntryModel, entries_view, entry_wf, entries_wf, clone_entry, lemma_wf_paths_unique,
};
use crate::file_operations::{
    ScanItem, ScanItemModel, items_view, scan_input_wf, spec_build, spec_update_or_add, has_path,
    scan_directory, find_path_index, update_or_add_file, remove_file_from_list,
    lemma_spec_build_wf,
};

verus! {

/// Mathematical image of an `OverlayTree`.
pub ghost struct TreeModel {
    pub entries: Seq<EntryModel>,
    pub cursor: Option<int>,
    pub pending: Seq<Seq<Seq<u8>>>,
}

/// The stateful overlay tree: the flattened entry sequence, the cursor among
/// them, and the queue of changed paths awaiting reconciliation.
pub struct OverlayTree {
    pub files: Vec<FileEntry>,
    pub cursor: Option<usize>,
    pub pending: Vec<RelPath>,
}

impl View for OverlayTree {
    type V = TreeModel;

    open spec fn view(&self) -> TreeModel {
        TreeModel {
            entries: entries_view(self.files@),
            cursor: match self.cursor {
                Some(c) => Some(c as int),
                None => None,
            },
            pending: Seq::new(self.pending@.len(), |i: int| self.pending@[i]@),
        }
    }
}

/// No path waits in the queue twice.
pub open spec fn pending_dedup(p: Seq<Seq<Seq<u8>>>) -> bool {
    forall|i: int, j: int| 0 <= i < j < p.len() ==> #[trigger] p[i] != #[trigger] p[j]
}

/// Entry `j` is a collapsed directory above entry `i`.
pub open spec fn hides(s: Seq<EntryModel>, j: int, i: int) -> bool {
    s[j].is_dir && s[j].collapsed && is_ancestor_of(s[j].path, s[i].path)
}

/// An entry is hidden exactly when some collapsed directory stands on its
/// ancestor chain.
pub open spec fn entry_hidden(s: Seq<EntryModel>, i: int) -> bool {
    exists|j: int| 0 <= j < i && #[trigger] hides(s, j, i)
}

/// The visible projection of the first `n` entries, each with its index in
/// the backing sequence.
pub open spec fn visible_upto(s: Seq<EntryModel>, n: int) -> Seq<(int, EntryModel)>
    decreases n,
{
    if n <= 0 {
        Seq::empty()
    } else if entry_hidden(s, n - 1) {
        visible_upto(s, n - 1)
    } else {
        visible_upto(s, n - 1).push((n - 1, s[n - 1]))
    }
}

/// The visible projection used for rendering and cursor movement.
pub open spec fn spec_visible(s: Seq<EntryModel>) -> Seq<(int, EntryModel)> {
    visible_upto(s, s.len() as int)
}

/// The models of an indexed entry sequence.
pub open spec fn visible_pairs_view(v: Seq<(usize, FileEntry)>) -> Seq<(int, EntryModel)> {
    Seq::new(v.len(), |i: int| (v[i].0 as int, v[i].1@))
}

/// Visible indices are in range, strictly increasing, and tagged with the
/// entry they index.
pub proof fn lemma_visible_upto_bounds(s: Seq<EntryModel>, n: int)
    requires
        0 <= n <= s.len(),
    ensures
        visible_upto(s, n).len() <= n,
        forall|k: int|
            0 <= k < visible_upto(s, n).len() ==> 0 <= (#[trigger] visible_upto(s, n)[k]).0 < n
                && visible_upto(s, n)[k].1 == s[visible_upto(s, n)[k].0],
        forall|k1: int, k2: int|
            0 <= k1 < k2 < visible_upto(s, n).len() ==> (#[trigger] visible_upto(s, n)[k1]).0 < (
            #[trigger] visible_upto(s, n)[k2]).0,
    decreases n,
{
    if n > 0 {
        lemma_visible_upto_bounds(s, n - 1);
    }
}

impl OverlayTree {
    /// Every tree this crate hands out satisfies this: a well-formed entry
    /// sequence, a cursor that points inside it, and a deduplicated queue.
    pub open spec fn wf(&self) -> bool {
        &&& entries_wf(self@.entries)
        &&& match self@.cursor {
            Some(c) => 0 <= c < self@.entries.len(),
            None => true,
        }
        &&& pending_dedup(self@.pending)
    }

    /// A tree over an already-built entry sequence, with the cursor on the
    /// first entry when there is one.
    pub fn new(files: Vec<FileEntry>) -> (r: OverlayTree)
        requires
            entries_wf(entries_view(files@)),
        ensures
            r.wf(),
            r@.entries == entries_view(files@),
            r@.cursor == (if files@.len() > 0 {
                Some(0int)
            } else {
                None::<int>
            }),
            r@.pending.len() == 0,
    {
        let cursor: Option<usize> = if files.len() > 0 {
            Some(0)
        } else {
            None
        };
        OverlayTree { files, cursor, pending: Vec::new() }
    }

    /// The entry under the cursor.
    pub fn entry_at_cursor(&self) -> (r: Option<&FileEntry>)
        requires
            self.wf(),
        ensures
            match self@.cursor {
                Some(c) => r matches Some(e) && e@ == self@.entries[c],
                None => r is None,
            },
    {
        match self.cursor {
            Some(c) => {
                assert(self@.entries[c as int] == self.files@[c as int]@);
                Some(&self.files[c])
            },
            None => None,
        }
    }

    /// Whether entry `idx` is hidden by a collapsed ancestor directory.
    fn is_hidden(&self, idx: usize) -> (r: bool)
        requires
            self.wf(),
            idx < self.files.len(),
        ensures
            r == entry_hidden(self@.entries, idx as int),
    {
        let ghost s = self@.entries;
        let mut j: usize = 0;
        while j < idx
            invariant
                0 <= j <= idx < self.files.len(),
                s == self@.entries,
                s.len() == self.files@.len(),
                self.wf(),
                forall|k: int| 0 <= k < j ==> !#[trigger] hides(s, k, idx as int),
            decreases idx - j,
        {
            assert(s[j as int] == self.files@[j as int]@);
            assert(s[idx as int] == self.files@[idx as int]@);
            if self.files[j].is_dir && self.files[j].collapsed && path_starts_with(
                &self.files[idx].path,
                &self.files[j].path,
            ) {
                proof {
                    lemma_wf_paths_unique(s, j as int, idx as int);
                    lemma_prefix_not_equal_ancestor(s[j as int].path, s[idx as int].path);
                    assert(hides(s, j as int, idx as int));
                }
                return true;
            }
            assert(!hides(s, j as int, idx as int));
            j += 1;
        }
        false
    }

    /// The visible entries with their indices in the backing sequence: every
    /// entry not under a collapsed directory, in tree order.
    pub fn get_visible_files(&self) -> (r: Vec<(usize, FileEntry)>)
        requires
            self.wf(),
        ensures
            visible_pairs_view(r@) == spec_visible(self@.entries),
    {
        let ghost s = self@.entries;
        let mut out: Vec<(usize, FileEntry)> = Vec::new();
        proof {
            assert(visible_pairs_view(out@) =~= visible_upto(s, 0));
        }
        let mut i: usize = 0;
        while i < self.files.len()
            invariant
                0 <= i <= self.files.len(),
                s == self@.entries,
                s.len() == self.files@.len(),
                self.wf(),
                visible_pairs_view(out@) == visible_upto(s, i as int),
            decreases self.files.len() - i,
        {
            let ghost before = out@;
            if !self.is_hidden(i) {
                assert(s[i as int] == self.files@[i as int]@);
                out.push((i, clone_entry(&self.files[i])));
                proof {
                    assert(visible_pairs_view(out@) =~= visible_upto(s, i + 1)) by {
                        assert forall|k: int| 0 <= k < out@.len() implies visible_pairs_view(out@)[k]
                            == visible_upto(s, i + 1)[k] by {
                            if k < before.len() {
                                assert(out@[k] == before[k]);
                                assert(visible_pairs_view(before)[k] == visible_upto(
                                    s,
                                    i as int,
                                )[k]);
                            }
                        }
                    }
                }
            }
            i += 1;
        }
        out
    }

    /// The entries marked for apply: every selected file, in tree order;
    /// directories only cascade and are never handed to the commit engine.
    pub fn get_selected_files(&self) -> (r: Vec<FileEntry>)
        ensures
            entries_view(r@) == spec_selected_files(self@.entries),
    {
        let ghost s = self@.entries;
        let mut out: Vec<FileEntry> = Vec::new();
        proof {
            assert(entries_view(out@) =~= selected_upto(s, 0));
        }
        let mut i: usize = 0;
        while i < self.files.len()
            invariant
                0 <= i <= self.files.len(),
                s == self@.entries,
                s.len() == self.files@.len(),
                entries_view(out@) == selected_upto(s, i as int),
            decreases self.files.len() - i,
        {
            let ghost before = out@;
            assert(s[i as int] == self.files@[i as int]@);
            if self.files[i].selected && !self.files[i].is_dir {
                out.push(clone_entry(&self.files[i]));
                proof {
                    assert(entries_view(out@) =~= selected_upto(s, i + 1)) by {
                        assert forall|k: int| 0 <= k < out@.len() implies entries_view(out@)[k]
                            == selected_upto(s, i + 1)[k] by {
                            if k < before.len() {
                                assert(out@[k] == before[k]);
                                assert(entries_view(before)[k] == selected_upto(s, i as int)[k]);
                            }
                        }
                    }
                }
            }
            i += 1;
        }
        out
    }

    /// Queues a changed path for the next reconciliation pass, once.
    pub fn note_changed_path(&mut self, rel: RelPath)
        requires
            old(self).wf(),
        ensures
            final(self).wf(),
            final(self)@.entries == old(self)@.entries,
            final(self)@.cursor == old(self)@.cursor,
            final(self)@.pending == (if pending_has(old(self)@.pending, rel@) {
                old(self)@.pending
            } else {
                old(self)@.pending.push(rel@)
            }),
    {
        let ghost p = self@.pending;
        let mut i: usize = 0;
        while i < self.pending.len()
            invariant
                0 <= i <= self.pending.len(),
                p == self@.pending,
                p.len() == self.pending@.len(),
                self.wf(),
                forall|k: int| 0 <= k < i ==> #[trigger] p[k] != rel@,
            decreases self.pending.len() - i,
        {
            assert(p[i as int] == self.pending@[i as int]@);
            if path_eq(&self.pending[i], &rel) {
                assert(pending_has(p, rel@));
                return ;
            }
            i += 1;
        }
        assert(!pending_has(p, rel@));
        self.pending.push(rel);
        proof {
            assert(self@.pending =~= p.push(rel@));
            assert(pending_dedup(self@.pending)) by {
                assert forall|a: int, b: int| 0 <= a < b < self@.pending.len() implies (
                #[trigger] self@.pending[a]) != (#[trigger] self@.pending[b]) by {
                    if b < p.len() {
                        assert(self@.pending[a] == p[a] && self@.pending[b] == p[b]);
                    } else {
                        assert(self@.pending[a] == p[a] && self@.pending[b] == rel@);
                    }
                }
            }
        }
    }

    /// Hands the queued batch to the caller and empties the queue.
    pub fn take_pending_paths(&mut self) -> (r: Vec<RelPath>)
        requires
            old(self).wf(),
        ensures
            final(self).wf(),
            final(self)@.entries == old(self)@.entries,
            final(self)@.cursor == old(self)@.cursor,
            final(self)@.pending.len() == 0,
            Seq::new(r@.len(), |i: int| r@[i]@) == old(self)@.pending,
    {
        let ghost p = self@.pending;
        let mut out: Vec<RelPath> = Vec::new();
        let mut i: usize = 0;
        while i < self.pending.len()
            invariant
                0 <= i <= self.pending.len(),
                p == self@.pending,
                p.len() == self.pending@.len(),
                self.wf(),
                out@.len() == i,
                forall|k: int| 0 <= k < i ==> #[trigger] out@[k]@ == p[k],
            decreases self.pending.len() - i,
        {
            assert(p[i as int] == self.pending@[i as int]@);
            out.push(clone_rel_path(&self.pending[i]));
            i += 1;
        }
        self.pending.clear();
        proof {
            assert(Seq::new(out@.len(), |i: int| out@[i]@) =~= p);
            assert(self@.pending =~= Seq::<Seq<Seq<u8>>>::empty());
        }
        out
    }
}

/// The visible projection holds backing index `c`.
pub open spec fn visible_has_index(vis: Seq<(int, EntryModel)>, c: int) -> bool {
    exists|p: int| 0 <= p < vis.len() && (#[trigger] vis[p]).0 == c
}

/// The position of backing index `c` within the visible projection.
pub open spec fn visible_position(vis: Seq<(int, EntryModel)>, c: int) -> int {
    choose|p: int| 0 <= p < vis.len() && (#[trigger] vis[p]).0 == c
}

/// Where the cursor lands on a downward step: the next visible entry,
/// wrapping to the first; from nowhere, or from a hidden entry, to the first
/// visible entry; unchanged when nothing is visible.
pub open spec fn spec_next_cursor(s: Seq<EntryModel>, cur: Option<int>) -> Option<int> {
    let vis = spec_visible(s);
    if vis.len() == 0 {
        cur
    } else {
        match cur {
            Some(c) => if visible_has_index(vis, c) {
                let p = visible_position(vis, c);
                if p == vis.len() - 1 {
                    Some(vis[0].0)
                } else {
                    Some(vis[p + 1].0)
                }
            } else {
                Some(vis[0].0)
            },
            None => Some(vis[0].0),
        }
    }
}

/// Where the cursor lands on an upward step: the previous visible entry,
/// wrapping to the last; from nowhere, or from a hidden entry, to the first
/// visible entry; unchanged when nothing is visible.
pub open spec fn spec_previous_cursor(s: Seq<EntryModel>, cur: Option<int>) -> Option<int> {
    let vis = spec_visible(s);
    if vis.len() == 0 {
        cur
    } else {
        match cur {
            Some(c) => if visible_has_index(vis, c) {
                let p = visible_position(vis, c);
                if p == 0 {
                    Some(vis[vis.len() - 1].0)
                } else {
                    Some(vis[p - 1].0)
                }
            } else {
                Some(vis[0].0)
            },
            None => Some(vis[0].0),
        }
    }
}

/// Only one visible position carries a given backing index.
pub proof fn lemma_visible_position_unique(s: Seq<EntryModel>, p: int, c: int)
    requires
        0 <= p < spec_visible(s).len(),
        spec_visible(s)[p].0 == c,
    ensures
        visible_has_index(spec_visible(s), c),
        visible_position(spec_visible(s), c) == p,
{
    lemma_visible_upto_bounds(s, s.len() as int);
    let vis = spec_visible(s);
    assert(visible_has_index(vis, c));
    let q = visible_position(vis, c);
    if q < p {
        assert(vis[q].0 < vis[p].0);
    } else if p < q {
        assert(vis[p].0 < vis[q].0);
    }
}

impl OverlayTree {
    /// Position of backing index `current` within the visible list, if it is
    /// visible.
    fn find_visible_position(visible: &Vec<(usize, FileEntry)>, current: usize, Ghost(
        s,
    ): Ghost<Seq<EntryModel>>) -> (r: Option<usize>)
        requires
            visible_pairs_view(visible@) == spec_visible(s),
        ensures
            match r {
                Some(p) => 0 <= p < spec_visible(s).len() && spec_visible(s)[p as int].0
                    == current as int,
                None => !visible_has_index(spec_visible(s), current as int),
            },
    {
        let ghost vis = spec_visible(s);
        let mut p: usize = 0;
        while p < visible.len()
            invariant
                0 <= p <= visible.len(),
                vis == spec_visible(s),
                visible_pairs_view(visible@) == vis,
                vis.len() == visible@.len(),
                forall|k: int| 0 <= k < p ==> (#[trigger] vis[k]).0 != current as int,
            decreases visible.len() - p,
        {
            assert(vis[p as int].0 == visible@[p as int].0 as int);
            if visible[p].0 == current {
                return Some(p);
            }
            p += 1;
        }
        None
    }

    /// Moves the cursor down among the visible entries, wrapping at the end.
    pub fn next(&mut self)
        requires
            old(self).wf(),
        ensures
            final(self).wf(),
            final(self)@.entries == old(self)@.entries,
            final(self)@.pending == old(self)@.pending,
            final(self)@.cursor == spec_next_cursor(old(self)@.entries, old(self)@.cursor),
    {
        let ghost s = self@.entries;
        let ghost vis = spec_visible(s);
        let visible = self.get_visible_files();
        if visible.len() == 0 {
            return ;
        }
        proof {
            lemma_visible_upto_bounds(s, s.len() as int);
            assert(vis[0].0 == visible@[0].0 as int);
        }
        let next_idx: usize = match self.cursor {
            Some(current) => {
                match Self::find_visible_position(&visible, current, Ghost(s)) {
                    Some(p) => {
                        proof {
                            lemma_visible_position_unique(s, p as int, current as int);
                        }
                        if p >= visible.len() - 1 {
                            visible[0].0
                        } else {
                            assert(vis[p + 1].0 == visible@[p as int + 1].0 as int);
                            visible[p + 1].0
                        }
                    },
                    None => visible[0].0,
                }
            },
            None => visible[0].0,
        };
        self.cursor = Some(next_idx);
    }

    /// Moves the cursor up among the visible entries, wrapping at the start.
    pub fn previous(&mut self)
        requires
            old(self).wf(),
        ensures
            final(self).wf(),
            final(self)@.entries == old(self)@.entries,
            final(self)@.pending == old(self)@.pending,
            final(self)@.cursor == spec_previous_cursor(old(self)@.entries, old(self)@.cursor),
    {
        let ghost s = self@.entries;
        let ghost vis = spec_visible(s);
        let visible = self.get_visible_files();
        if visible.len() == 0 {
            return ;
        }
        proof {
            lemma_visible_upto_bounds(s, s.len() as int);
            assert(vis[0].0 == visible@[0].0 as int);
            assert(vis[vis.len() - 1].0 == visible@[visible@.len() - 1].0 as int);
        }
        let prev_idx: usize = match self.cursor {
            Some(current) => {
                match Self::find_visible_position(&visible, current, Ghost(s)) {
                    Some(p) => {
                        proof {
                            lemma_visible_position_unique(s, p as int, current as int);
                        }
                        if p == 0 {
                            visible[visible.len() - 1].0
                        } else {
                            assert(vis[p - 1].0 == visible@[p as int - 1].0 as int);
                            visible[p - 1].0
                        }
                    },
                    None => visible[0].0,
                }
            },
            None => visible[0].0,
        };
        self.cursor = Some(prev_idx);
    }

    /// Puts the cursor on the first visible entry.
    pub fn jump_to_first(&mut self)
        requires
            old(self).wf(),
        ensures
            final(self).wf(),
            final(self)@.entries == old(self)@.entries,
            final(self)@.pending == old(self)@.pending,
            final(self)@.cursor == (if spec_visible(old(self)@.entries).len() == 0 {
                old(self)@.cursor
            } else {
                Some(spec_visible(old(self)@.entries)[0].0)
            }),
    {
        let ghost s = self@.entries;
        let visible = self.get_visible_files();
        if visible.len() == 0 {
            return ;
        }
        proof {
            lemma_visible_upto_bounds(s, s.len() as int);
            assert(spec_visible(s)[0].0 == visible@[0].0 as int);
        }
        self.cursor = Some(visible[0].0);
    }

    /// Puts the cursor on the last visible entry.
    pub fn jump_to_last(&mut self)
        requires
            old(self).wf(),
        ensures
            final(self).wf(),
            final(self)@.entries == old(self)@.entries,
            final(self)@.pending == old(self)@.pending,
            final(self)@.cursor == (if spec_visible(old(self)@.entries).len() == 0 {
                old(self)@.cursor
            } else {
                Some(spec_visible(old(self)@.entries).last().0)
            }),
    {
        let ghost s = self@.entries;
        let visible = self.get_visible_files();
        if visible.len() == 0 {
            return ;
        }
        proof {
            lemma_visible_upto_bounds(s, s.len() as int);
            assert(spec_visible(s)[spec_visible(s).len() - 1].0 == visible@[visible@.len()
                - 1].0 as int);
        }
        self.cursor = Some(visible[visible.len() - 1].0);
    }
}

/// `e` with its selection mark set to `v`.
pub open spec fn with_selected(e: EntryModel, v: bool) -> EntryModel {
    EntryModel { selected: v, ..e }
}

/// What toggling selection under the cursor does to the entry sequence.
///
/// On a directory the new mark cascades downward over the whole descendant
/// block, files and directories alike. Deselecting a file additionally
/// clears the mark on every ancestor directory, since a directory may not
/// stay marked while one of its descendants is not. Selecting a file touches
/// only that file.
pub open spec fn spec_toggle_selection(s: Seq<EntryModel>, c: int) -> Seq<EntryModel>
    recommends
        0 <= c < s.len(),
{
    if s[c].is_dir {
        let v = !s[c].selected;
        Seq::new(
            s.len(),
            |i: int|
                if i == c || is_ancestor_of(s[c].path, s[i].path) {
                    with_selected(s[i], v)
                } else {
                    s[i]
                },
        )
    } else if s[c].selected {
        Seq::new(
            s.len(),
            |i: int|
                if i == c {
                    with_selected(s[i], false)
                } else if s[i].is_dir && is_ancestor_of(s[i].path, s[c].path) {
                    with_selected(s[i], false)
                } else {
                    s[i]
                },
        )
    } else {
        s.update(c, with_selected(s[c], true))
    }
}

/// The entry sequence midway through a directory cascade: the mark set on
/// the directory at `c` and on every entry strictly between `c` and `j`.
spec fn dir_cascade_upto(s: Seq<EntryModel>, c: int, j: int, v: bool) -> Seq<EntryModel> {
    Seq::new(
        s.len(),
        |k: int|
            if k == c || (c < k < j) {
                with_selected(s[k], v)
            } else {
                s[k]
            },
    )
}

/// The entry sequence midway through a file deselection: the file at `c`
/// unmarked and every ancestor directory before `i` unmarked.
spec fn file_clear_upto(s: Seq<EntryModel>, c: int, i: int) -> Seq<EntryModel> {
    Seq::new(
        s.len(),
        |k: int|
            if k == c {
                with_selected(s[k], false)
            } else if k < i && s[k].is_dir && is_ancestor_of(s[k].path, s[c].path) {
                with_selected(s[k], false)
            } else {
                s[k]
            },
    )
}

/// Sets the selection mark of one entry.
fn set_selected(files: &mut Vec<FileEntry>, i: usize, v: bool)
    requires
        i < old(files).len(),
    ensures
        entries_view(final(files)@) == entries_view(old(files)@).update(
            i as int,
            with_selected(entries_view(old(files)@)[i as int], v),
        ),
{
    let e = clone_entry(&files[i]);
    let updated = FileEntry { selected: v, ..e };
    files.set(i, updated);
    proof {
        assert(entries_view(files@) =~= entries_view(old(files)@).update(
            i as int,
            with_selected(entries_view(old(files)@)[i as int], v),
        ));
    }
}

impl OverlayTree {
    /// First index past the cursor's descendant block: every entry strictly
    /// between the cursor and the result is a descendant of the cursor's
    /// entry, and no entry at or past the result is.
    fn descendant_block_end(&self, c: usize) -> (r: usize)
        requires
            self.wf(),
            c < self.files.len(),
        ensures
            c < r <= self.files.len(),
            forall|k: int|
                c < k < r ==> is_ancestor_of(
                    self@.entries[c as int].path,
                    (#[trigger] self@.entries[k]).path,
                ),
            forall|k: int|
                r <= k < self@.entries.len() ==> !is_ancestor_of(
                    self@.entries[c as int].path,
                    (#[trigger] self@.entries[k]).path,
                ),
    {
        let ghost s = self@.entries;
        let dir_depth = self.files[c].depth;
        let mut i: usize = c + 1;
        let mut past_block = false;
        while i < self.files.len() && !past_block
            invariant
                c < i <= self.files.len(),
                s == self@.entries,
                s.len() == self.files@.len(),
                self.wf(),
                dir_depth == s[c as int].depth,
                forall|k: int|
                    c < k < i ==> is_ancestor_of(
                        s[c as int].path,
                        (#[trigger] s[k]).path,
                    ),
                past_block ==> i < self.files.len() && !is_ancestor_of(
                    s[c as int].path,
                    s[i as int].path,
                ),
            decreases self.files.len() - i + (if past_block {
                0int
            } else {
                1int
            }),
        {
            assert(s[i as int] == self.files@[i as int]@);
            assert(s[c as int] == self.files@[c as int]@);
            if self.files[i].depth > dir_depth && path_starts_with(
                &self.files[i].path,
                &self.files[c].path,
            ) {
                proof {
                    assert(s[i as int].path.len() > s[c as int].path.len());
                    assert(is_ancestor_of(s[c as int].path, s[i as int].path));
                }
                i += 1;
            } else {
                proof {
                    assert(!is_ancestor_of(s[c as int].path, s[i as int].path)) by {
                        if is_ancestor_of(s[c as int].path, s[i as int].path) {
                            assert(s[i as int].path.len() > s[c as int].path.len());
                            assert(s[i as int].depth > s[c as int].depth);
                            assert(is_prefix_of(s[c as int].path, s[i as int].path));
                        }
                    }
                }
                past_block = true;
            }
        }
        proof {
            if past_block {
                let i0 = i as int;
                assert forall|k: int| i0 <= k < s.len() implies !is_ancestor_of(
                    s[c as int].path,
                    (#[trigger] s[k]).path,
                ) by {
                    if k > i0 && is_ancestor_of(s[c as int].path, s[k].path) {
                        lemma_between_prefix(s[c as int].path, s[i0].path, s[k].path);
                        lemma_wf_paths_unique(s, c as int, i0);
                        lemma_prefix_not_equal_ancestor(s[c as int].path, s[i0].path);
                    }
                }
            }
        }
        i
    }

    /// Toggles the selection mark under the cursor, cascading as the rules
    /// of the tree demand; does nothing when no entry holds the cursor.
    pub fn toggle_selection(&mut self)
        requires
            old(self).wf(),
        ensures
            final(self).wf(),
            final(self)@.cursor == old(self)@.cursor,
            final(self)@.pending == old(self)@.pending,
            final(self)@.entries == (match old(self)@.cursor {
                Some(c) => spec_toggle_selection(old(self)@.entries, c),
                None => old(self)@.entries,
            }),
    {
        let ghost s = self@.entries;
        let c: usize = match self.cursor {
            Some(c) => c,
            None => {
                return ;
            },
        };
        assert(s[c as int] == self.files@[c as int]@);
        let entry_is_dir = self.files[c].is_dir;
        let entry_selected = self.files[c].selected;
        if entry_is_dir {
            let v = !entry_selected;
            let end = self.descendant_block_end(c);
            set_selected(&mut self.files, c, v);
            proof {
                assert(entries_view(self.files@) =~= dir_cascade_upto(s, c as int, c + 1, v));
            }
            let mut j: usize = c + 1;
            while j < end
                invariant
                    c < j <= end <= self.files@.len(),
                    s.len() == self.files@.len(),
                    self.cursor == old(self).cursor,
                    self.pending@ == old(self).pending@,
                    forall|k: int|
                        c < k < end ==> is_ancestor_of(
                            s[c as int].path,
                            (#[trigger] s[k]).path,
                        ),
                    forall|k: int|
                        end <= k < s.len() ==> !is_ancestor_of(
                            s[c as int].path,
                            (#[trigger] s[k]).path,
                        ),
                    entries_view(self.files@) == dir_cascade_upto(s, c as int, j as int, v),
                decreases end - j,
            {
                let ghost before = entries_view(self.files@);
                set_selected(&mut self.files, j, v);
                proof {
                    assert(before[j as int] == s[j as int]);
                    assert(entries_view(self.files@) =~= dir_cascade_upto(s, c as int, j + 1, v));
                }
                j += 1;
            }
            proof {
                let ghost ci = c as int;
                assert forall|k: int|
                    0 <= k < s.len() && k != ci && !(ci < k && k < end) implies !is_ancestor_of(
                    s[ci].path,
                    (#[trigger] s[k]).path,
                ) by {
                    if k < ci && is_ancestor_of(s[ci].path, s[k].path) {
                        lemma_ancestor_lt(s[ci].path, s[k].path);
                        lemma_path_lt_asym(s[k].path, s[ci].path);
                    }
                }
                assert(!is_ancestor_of(s[c as int].path, s[c as int].path));
                assert(entries_view(self.files@) =~= spec_toggle_selection(s, c as int));
                assert(entries_wf(entries_view(self.files@))) by {
                    let t = entries_view(self.files@);
                    assert forall|a: int| 0 <= a < t.len() implies entry_wf(#[trigger] t[a]) by {
                        assert(t[a].path == s[a].path && t[a].name == s[a].name && t[a].depth
                            == s[a].depth && t[a].is_dir == s[a].is_dir && t[a].collapsed
                            == s[a].collapsed);
                    }
                    assert forall|a: int, b: int| 0 <= a < b < t.len() implies path_lt(
                        (#[trigger] t[a]).path,
                        (#[trigger] t[b]).path,
                    ) by {
                        assert(t[a].path == s[a].path && t[b].path == s[b].path);
                    }
                }
            }
        } else {
            let v = !entry_selected;
            let ghost target = spec_toggle_selection(s, c as int);
            set_selected(&mut self.files, c, v);
            if !v {
                proof {
                    assert(entries_view(self.files@) =~= file_clear_upto(s, c as int, 0));
                    assert(entries_view(self.files@)[c as int] == self.files@[c as int]@);
                }
                let file_path = clone_rel_path(&self.files[c].path);
                assert(file_path@ == s[c as int].path);
                let mut i: usize = 0;
                while i < c
                    invariant
                        0 <= i <= c < s.len(),
                        s.len() == self.files@.len(),
                        self.cursor == old(self).cursor,
                        self.pending@ == old(self).pending@,
                        entries_wf(s),
                        file_path@ == s[c as int].path,
                        entries_view(self.files@) == file_clear_upto(s, c as int, i as int),
                    decreases c - i,
                {
                    let ghost before = entries_view(self.files@);
                    assert(before[i as int] == s[i as int]);
                    assert(s[i as int] == self.files@[i as int]@);
                    if self.files[i].is_dir && path_starts_with(&file_path, &self.files[i].path) {
                        proof {
                            lemma_wf_paths_unique(s, i as int, c as int);
                            lemma_prefix_not_equal_ancestor(s[i as int].path, s[c as int].path);
                        }
                        set_selected(&mut self.files, i, false);
                    }
                    proof {
                        assert(entries_view(self.files@) =~= file_clear_upto(s, c as int, i + 1));
                    }
                    i += 1;
                }
                proof {
                    let ghost ci = c as int;
                    assert forall|k: int| ci < k < s.len() implies !(s[k].is_dir
                        && is_ancestor_of((#[trigger] s[k]).path, s[ci].path)) by {
                        if is_ancestor_of(s[k].path, s[c as int].path) {
                            lemma_ancestor_lt(s[k].path, s[c as int].path);
                            lemma_path_lt_asym(s[c as int].path, s[k].path);
                        }
                    }
                    assert(entries_view(self.files@) =~= target);
                }
            } else {
                proof {
                    assert(entries_view(self.files@) =~= target);
                }
            }
            proof {
                assert(entries_wf(entries_view(self.files@))) by {
                    let t = entries_view(self.files@);
                    assert forall|a: int| 0 <= a < t.len() implies entry_wf(#[trigger] t[a]) by {
                        assert(t[a].path == s[a].path && t[a].name == s[a].name && t[a].depth
                            == s[a].depth && t[a].is_dir == s[a].is_dir && t[a].collapsed
                            == s[a].collapsed);
                    }
                    assert forall|a: int, b: int| 0 <= a < b < t.len() implies path_lt(
                        (#[trigger] t[a]).path,
                        (#[trigger] t[b]).path,
                    ) by {
                        assert(t[a].path == s[a].path && t[b].path == s[b].path);
                    }
                }
            }
        }
    }
}

/// Toggling selection on an unselected directory marks it and its whole
/// descendant block; toggling it again leaves the block entirely unmarked,
/// and entries outside the block are never touched.
pub proof fn lemma_toggle_directory_twice(s: Seq<EntryModel>, c: int)
    requires
        entries_wf(s),
        0 <= c < s.len(),
        s[c].is_dir,
        !s[c].selected,
    ensures
        spec_toggle_selection(s, c).len() == s.len(),
        spec_toggle_selection(spec_toggle_selection(s, c), c).len() == s.len(),
        forall|i: int|
            0 <= i < s.len() && (i == c || is_ancestor_of(s[c].path, s[i].path)) ==> (
            #[trigger] spec_toggle_selection(s, c)[i]).selected,
        forall|i: int|
            0 <= i < s.len() && (i == c || is_ancestor_of(s[c].path, s[i].path)) ==> !(
            #[trigger] spec_toggle_selection(spec_toggle_selection(s, c), c)[i]).selected,
        forall|i: int|
            0 <= i < s.len() && !(i == c || is_ancestor_of(s[c].path, s[i].path)) ==> (
            #[trigger] spec_toggle_selection(spec_toggle_selection(s, c), c)[i]) == s[i]
                && spec_toggle_selection(s, c)[i] == s[i],
{
    let once = spec_toggle_selection(s, c);
    let twice = spec_toggle_selection(once, c);
    assert(once[c].selected);
    assert(once[c].is_dir);
    assert forall|i: int| 0 <= i < s.len() implies (#[trigger] once[i]).path == s[i].path by {}
    assert forall|i: int|
        0 <= i < s.len() && (i == c || is_ancestor_of(s[c].path, s[i].path)) implies !(
    #[trigger] twice[i]).selected by {
        assert(once[c].path == s[c].path && once[i].path == s[i].path);
    }
    assert forall|i: int|
        0 <= i < s.len() && !(i == c || is_ancestor_of(s[c].path, s[i].path)) implies (
    #[trigger] twice[i]) == s[i] && once[i] == s[i] by {
        assert(once[c].path == s[c].path && once[i].path == s[i].path);
    }
}

/// Deselecting a file clears the mark on every directory of its ancestor
/// chain — including one that a directory-wide cascade had marked — and
/// leaves every other entry as it was.
pub proof fn lemma_deselect_file_clears_ancestors(s: Seq<EntryModel>, c: int)
    requires
        entries_wf(s),
        0 <= c < s.len(),
        !s[c].is_dir,
        s[c].selected,
    ensures
        spec_toggle_selection(s, c).len() == s.len(),
        !spec_toggle_selection(s, c)[c].selected,
        forall|i: int|
            0 <= i < s.len() && s[i].is_dir && is_ancestor_of(s[i].path, s[c].path) ==> !(
            #[trigger] spec_toggle_selection(s, c)[i]).selected,
        forall|i: int|
            0 <= i < s.len() && i != c && !(s[i].is_dir && is_ancestor_of(s[i].path, s[c].path))
                ==> (#[trigger] spec_toggle_selection(s, c)[i]) == s[i],
{
}

/// `e` with its collapse flag set to `v`.
pub open spec fn with_collapsed(e: EntryModel, v: bool) -> EntryModel {
    EntryModel { collapsed: v, ..e }
}

/// Entry `i` is the parent directory of entry `c`.
pub open spec fn is_parent_dir(s: Seq<EntryModel>, i: int, c: int) -> bool {
    s[i].is_dir && s[i].path == s[c].path.drop_last()
}

/// The tree holds the parent directory of entry `c` before it.
pub open spec fn has_parent_dir(s: Seq<EntryModel>, c: int) -> bool {
    exists|i: int| 0 <= i < c && #[trigger] is_parent_dir(s, i, c)
}

/// The index of the parent directory of entry `c`.
pub open spec fn parent_dir_index(s: Seq<EntryModel>, c: int) -> int {
    choose|i: int| 0 <= i < c && #[trigger] is_parent_dir(s, i, c)
}

/// Sets the collapse flag of one entry.
fn set_collapsed(files: &mut Vec<FileEntry>, i: usize, v: bool)
    requires
        i < old(files).len(),
    ensures
        entries_view(final(files)@) == entries_view(old(files)@).update(
            i as int,
            with_collapsed(entries_view(old(files)@)[i as int], v),
        ),
{
    let e = clone_entry(&files[i]);
    let updated = FileEntry { collapsed: v, ..e };
    files.set(i, updated);
    proof {
        assert(entries_view(files@) =~= entries_view(old(files)@).update(
            i as int,
            with_collapsed(entries_view(old(files)@)[i as int], v),
        ));
    }
}

impl OverlayTree {
    /// Moves the cursor to the parent directory of the entry under it, when
    /// the tree holds that parent; otherwise leaves everything unchanged.
    fn move_to_parent(&mut self)
        requires
            old(self).wf(),
        ensures
            final(self).wf(),
            final(self)@.entries == old(self)@.entries,
            final(self)@.pending == old(self)@.pending,
            final(self)@.cursor == (match old(self)@.cursor {
                Some(c) => if has_parent_dir(old(self)@.entries, c) {
                    Some(parent_dir_index(old(self)@.entries, c))
                } else {
                    old(self)@.cursor
                },
                None => old(self)@.cursor,
            }),
    {
        let ghost s = self@.entries;
        let c: usize = match self.cursor {
            Some(c) => c,
            None => {
                return ;
            },
        };
        assert(s[c as int] == self.files@[c as int]@);
        let current_depth = self.files[c].depth;
        let parent_depth: usize = if current_depth > 0 {
            current_depth - 1
        } else {
            0
        };
        let mut i: usize = c;
        while i > 0
            invariant
                0 <= i <= c < s.len(),
                s == self@.entries,
                s.len() == self.files@.len(),
                self.wf(),
                self.cursor == old(self).cursor,
                self@.entries == old(self)@.entries,
                self@.pending == old(self)@.pending,
                old(self)@.cursor == Some(c as int),
                current_depth == s[c as int].depth,
                parent_depth == (if s[c as int].depth > 0 {
                    s[c as int].depth - 1
                } else {
                    0
                }),
                forall|k: int| i <= k < c ==> !#[trigger] is_parent_dir(s, k, c as int),
            decreases i,
        {
            i -= 1;
            assert(s[i as int] == self.files@[i as int]@);
            if self.files[i].is_dir && self.files[i].depth == parent_depth && path_starts_with(
                &self.files[c].path,
                &self.files[i].path,
            ) {
                proof {
                    lemma_wf_paths_unique(s, i as int, c as int);
                    if s[c as int].depth == 0 {
                        assert(s[i as int].path =~= s[c as int].path);
                        assert(false);
                    }
                    assert(s[i as int].path =~= s[c as int].path.drop_last());
                    assert(is_parent_dir(s, i as int, c as int));
                    let w = parent_dir_index(s, c as int);
                    if w != i as int {
                        lemma_wf_paths_unique(s, w, i as int);
                    }
                }
                self.cursor = Some(i);
                return ;
            }
            proof {
                assert(!is_parent_dir(s, i as int, c as int)) by {
                    if is_parent_dir(s, i as int, c as int) {
                        assert(s[i as int].path.len() == s[c as int].path.len() - 1);
                        assert(s[i as int].path == s[c as int].path.subrange(
                            0,
                            s[c as int].path.len() - 1,
                        ));
                        assert(is_prefix_of(s[i as int].path, s[c as int].path));
                    }
                }
            }
        }
        assert(!has_parent_dir(s, c as int));
    }

    /// Collapses the directory under the cursor, hiding its descendants; on
    /// a file or an already-collapsed directory, moves the cursor to the
    /// enclosing directory instead.
    pub fn collapse_directory(&mut self)
        requires
            old(self).wf(),
        ensures
            final(self).wf(),
            final(self)@.pending == old(self)@.pending,
            match old(self)@.cursor {
                Some(c) => if old(self)@.entries[c].is_dir && !old(self)@.entries[c].collapsed {
                    final(self)@.entries == old(self)@.entries.update(
                        c,
                        with_collapsed(old(self)@.entries[c], true),
                    ) && final(self)@.cursor == old(self)@.cursor
                } else {
                    final(self)@.entries == old(self)@.entries && final(self)@.cursor == (
                    if has_parent_dir(old(self)@.entries, c) {
                        Some(parent_dir_index(old(self)@.entries, c))
                    } else {
                        old(self)@.cursor
                    })
                },
                None => final(self)@.entries == old(self)@.entries && final(self)@.cursor
                    == old(self)@.cursor,
            },
    {
        let ghost s = self@.entries;
        let c: usize = match self.cursor {
            Some(c) => c,
            None => {
                return ;
            },
        };
        assert(s[c as int] == self.files@[c as int]@);
        if self.files[c].is_dir && !self.files[c].collapsed {
            set_collapsed(&mut self.files, c, true);
            proof {
                let t = entries_view(self.files@);
                assert(entries_wf(t)) by {
                    assert forall|a: int| 0 <= a < t.len() implies entry_wf(#[trigger] t[a]) by {
                        if a != c as int {
                            assert(t[a] == s[a]);
                        }
                    }
                    assert forall|a: int, b: int| 0 <= a < b < t.len() implies path_lt(
                        (#[trigger] t[a]).path,
                        (#[trigger] t[b]).path,
                    ) by {
                        assert(t[a].path == s[a].path && t[b].path == s[b].path);
                    }
                }
            }
        } else {
            self.move_to_parent();
        }
    }

    /// Expands the collapsed directory under the cursor; anything else is
    /// left untouched.
    pub fn expand_directory(&mut self)
        requires
            old(self).wf(),
        ensures
            final(self).wf(),
            final(self)@.pending == old(self)@.pending,
            final(self)@.cursor == old(self)@.cursor,
            final(self)@.entries == (match old(self)@.cursor {
                Some(c) => if old(self)@.entries[c].is_dir && old(self)@.entries[c].collapsed {
                    old(self)@.entries.update(c, with_collapsed(old(self)@.entries[c], false))
                } else {
                    old(self)@.entries
                },
                None => old(self)@.entries,
            }),
    {
        let ghost s = self@.entries;
        let c: usize = match self.cursor {
            Some(c) => c,
            None => {
                return ;
            },
        };
        assert(s[c as int] == self.files@[c as int]@);
        if self.files[c].is_dir && self.files[c].collapsed {
            set_collapsed(&mut self.files, c, false);
            proof {
                let t = entries_view(self.files@);
                assert(entries_wf(t)) by {
                    assert forall|a: int| 0 <= a < t.len() implies entry_wf(#[trigger] t[a]) by {
                        if a != c as int {
                            assert(t[a] == s[a]);
                        }
                    }
                    assert forall|a: int, b: int| 0 <= a < b < t.len() implies path_lt(
                        (#[trigger] t[a]).path,
                        (#[trigger] t[b]).path,
                    ) by {
                        assert(t[a].path == s[a].path && t[b].path == s[b].path);
                    }
                }
            }
        }
    }
}

/// Collapsing a directory hides exactly its descendants: every descendant
/// leaves the visible projection, and every other entry keeps the
/// visibility it had.
pub proof fn lemma_collapse_hides_exactly_descendants(s: Seq<EntryModel>, c: int)
    requires
        entries_wf(s),
        0 <= c < s.len(),
        s[c].is_dir,
        !s[c].collapsed,
    ensures
        forall|i: int|
            0 <= i < s.len() && is_ancestor_of(s[c].path, (#[trigger] s[i]).path) ==> entry_hidden(
                s.update(c, with_collapsed(s[c], true)),
                i,
            ),
        forall|i: int|
            0 <= i < s.len() && !is_ancestor_of(s[c].path, (#[trigger] s[i]).path) ==> (
            entry_hidden(s.update(c, with_collapsed(s[c], true)), i) <==> entry_hidden(s, i)),
{
    let t = s.update(c, with_collapsed(s[c], true));
    assert forall|i: int|
        0 <= i < s.len() && is_ancestor_of(s[c].path, (#[trigger] s[i]).path) implies entry_hidden(
        t,
        i,
    ) by {
        assert(c < i) by {
            lemma_ancestor_lt(s[c].path, s[i].path);
            if i < c {
                lemma_path_lt_asym(s[c].path, s[i].path);
            }
            if i == c {
                lemma_path_lt_asym(s[c].path, s[c].path);
            }
        }
        assert(t[c].is_dir && t[c].collapsed);
        assert(t[c].path == s[c].path && t[i].path == s[i].path);
        assert(hides(t, c, i));
    }
    assert forall|i: int|
        0 <= i < s.len() && !is_ancestor_of(s[c].path, (#[trigger] s[i]).path) implies (
    entry_hidden(t, i) <==> entry_hidden(s, i)) by {
        if entry_hidden(s, i) {
            let j = choose|j: int| 0 <= j < i && #[trigger] hides(s, j, i);
            assert(j != c);
            assert(t[j] == s[j]);
            assert(t[i].path == s[i].path);
            assert(hides(t, j, i));
        }
        if entry_hidden(t, i) {
            let j = choose|j: int| 0 <= j < i && #[trigger] hides(t, j, i);
            assert(t[i].path == s[i].path);
            if j == c {
                assert(is_ancestor_of(s[c].path, s[i].path));
            } else {
                assert(t[j] == s[j]);
                assert(hides(s, j, i));
            }
        }
    }
}

/// Expanding a directory right after collapsing it restores the entry
/// sequence exactly, and with it the visible projection.
pub proof fn lemma_expand_restores_after_collapse(s: Seq<EntryModel>, c: int)
    requires
        entries_wf(s),
        0 <= c < s.len(),
        s[c].is_dir,
        !s[c].collapsed,
    ensures
        ({
            let t = s.update(c, with_collapsed(s[c], true));
            t.update(c, with_collapsed(t[c], false)) == s
        }),
{
    let t = s.update(c, with_collapsed(s[c], true));
    assert(t.update(c, with_collapsed(t[c], false)) =~= s);
}

/// The index of the entry carrying path `p`.
pub open spec fn path_index(s: Seq<EntryModel>, p: Seq<Seq<u8>>) -> int {
    choose|i: int| 0 <= i < s.len() && (#[trigger] s[i]).path == p
}

/// Where the cursor lands after a full rebuild: on the entry with the path
/// it sat on, else on the first entry, else nowhere.
pub open spec fn spec_refresh_cursor(
    old_entries: Seq<EntryModel>,
    old_cursor: Option<int>,
    new_entries: Seq<EntryModel>,
) -> Option<int> {
    let saved = match old_cursor {
        Some(c) => Some(old_entries[c].path),
        None => None::<Seq<Seq<u8>>>,
    };
    match saved {
        Some(p) => if has_path(new_entries, p) {
            Some(path_index(new_entries, p))
        } else if new_entries.len() > 0 {
            Some(0int)
        } else {
            None
        },
        None => if new_entries.len() > 0 {
            Some(0int)
        } else {
            None
        },
    }
}

/// What the caller observed on disk for one queued path.
#[derive(Clone, Copy, Debug, PartialEq, Eq, Structural)]
pub enum PathObservation {
    /// The path now denotes a directory: ambiguous, forces a full rescan.
    Directory,
    /// The path denotes an existing file, present in the base or not.
    File { in_base: bool },
    /// The path no longer exists.
    Missing,
}

/// One queued path together with what the caller observed for it.
pub struct PathEvent {
    pub rel: RelPath,
    pub obs: PathObservation,
}

/// Mathematical image of a `PathEvent`.
pub ghost struct PathEventModel {
    pub path: Seq<Seq<u8>>,
    pub obs: PathObservation,
}

impl View for PathEvent {
    type V = PathEventModel;

    open spec fn view(&self) -> PathEventModel {
        PathEventModel { path: self.rel@, obs: self.obs }
    }
}

/// The models of a sequence of path events.
pub open spec fn events_view(s: Seq<PathEvent>) -> Seq<PathEventModel> {
    Seq::new(s.len(), |i: int| s[i]@)
}

/// Whether reconciliation ran the whole batch or stopped for a full rescan.
#[derive(Clone, Copy, Debug, PartialEq, Eq, Structural)]
pub enum ReconcileAction {
    /// The batch was applied entry by entry.
    Done,
    /// A directory-level event was met: the caller must rescan and call
    /// `refresh_file_list`; the rest of the batch was abandoned.
    NeedsRescan,
}

/// The cursor after an entry was removed: clamped to the last entry, or
/// cleared when the tree became empty.
pub open spec fn spec_remove_cursor(cur: Option<int>, new_len: int) -> Option<int> {
    match cur {
        Some(c) => if new_len == 0 {
            None
        } else if c >= new_len {
            Some(new_len - 1)
        } else {
            Some(c)
        },
        None => None,
    }
}

/// The tree after one file or removal event: an existing file is updated or
/// inserted with its selection kept; a vanished path has its entry removed
/// and the cursor clamped.
pub open spec fn spec_apply_event(
    entries: Seq<EntryModel>,
    cursor: Option<int>,
    ev: PathEventModel,
) -> (Seq<EntryModel>, Option<int>) {
    match ev.obs {
        PathObservation::Directory => (entries, cursor),
        PathObservation::File { in_base } => (
            spec_update_or_add(entries, ev.path, in_base),
            cursor,
        ),
        PathObservation::Missing => if has_path(entries, ev.path) {
            let e2 = entries.remove(path_index(entries, ev.path));
            (e2, spec_remove_cursor(cursor, e2.len() as int))
        } else {
            (entries, cursor)
        },
    }
}

/// The batch folded over the tree, event by event in arrival order, stopped
/// at the first directory-level event; the third component reports whether
/// that stop happened.
pub open spec fn spec_reconcile(
    entries: Seq<EntryModel>,
    cursor: Option<int>,
    evs: Seq<PathEventModel>,
) -> (Seq<EntryModel>, Option<int>, bool)
    decreases evs.len(),
{
    if evs.len() == 0 {
        (entries, cursor, false)
    } else if evs[0].obs is Directory {
        (entries, cursor, true)
    } else {
        let st = spec_apply_event(entries, cursor, evs[0]);
        spec_reconcile(st.0, st.1, evs.drop_first())
    }
}

/// The cursor after the batch: back on the saved path when an entry still
/// carries it, otherwise wherever the per-event clamping left it.
pub open spec fn spec_restore_cursor(
    entries: Seq<EntryModel>,
    cursor: Option<int>,
    saved: Option<Seq<Seq<u8>>>,
) -> Option<int> {
    match saved {
        Some(p) => if has_path(entries, p) {
            Some(path_index(entries, p))
        } else {
            cursor
        },
        None => cursor,
    }
}

impl OverlayTree {
    /// Rebuilds the whole tree from a fresh directory listing. Selection and
    /// collapse flags reset by design; the cursor is restored to the entry
    /// with the path it sat on, when the new tree still holds that path.
    pub fn refresh_file_list(&mut self, items: &Vec<ScanItem>)
        requires
            old(self).wf(),
            scan_input_wf(items_view(items@)),
        ensures
            final(self).wf(),
            final(self)@.pending == old(self)@.pending,
            final(self)@.entries == spec_build(items_view(items@)),
            final(self)@.cursor == spec_refresh_cursor(
                old(self)@.entries,
                old(self)@.cursor,
                spec_build(items_view(items@)),
            ),
    {
        let ghost s0 = self@.entries;
        let saved: Option<RelPath> = match self.cursor {
            Some(c) => {
                assert(s0[c as int] == self.files@[c as int]@);
                Some(clone_rel_path(&self.files[c].path))
            },
            None => None,
        };
        let files = scan_directory(items);
        let ghost s1 = entries_view(files@);
        self.files = files;
        let new_cursor: Option<usize> = match &saved {
            Some(p) => {
                match find_path_index(&self.files, p) {
                    Some(idx) => {
                        proof {
                            let w = path_index(s1, p@);
                            if w != idx as int {
                                lemma_wf_paths_unique(s1, w, idx as int);
                            }
                        }
                        Some(idx)
                    },
                    None => if self.files.len() > 0 {
                        Some(0)
                    } else {
                        None
                    },
                }
            },
            None => if self.files.len() > 0 {
                Some(0)
            } else {
                None
            },
        };
        self.cursor = new_cursor;
    }

    /// Applies one drained batch of observed changes to the tree, in arrival
    /// order. A directory-level observation stops the batch at once and asks
    /// for a full rescan; otherwise files are updated, inserted or removed
    /// one by one, and the cursor returns to the path it sat on when that
    /// path survived the batch.
    pub fn process_pending_updates(&mut self, events: &Vec<PathEvent>) -> (r: ReconcileAction)
        requires
            old(self).wf(),
            forall|i: int| 0 <= i < events@.len() ==> (#[trigger] events@[i]).rel@.len() >= 1,
        ensures
            final(self).wf(),
            final(self)@.pending == old(self)@.pending,
            ({
                let st = spec_reconcile(
                    old(self)@.entries,
                    old(self)@.cursor,
                    events_view(events@),
                );
                let saved = match old(self)@.cursor {
                    Some(c) => Some(old(self)@.entries[c].path),
                    None => None::<Seq<Seq<u8>>>,
                };
                &&& final(self)@.entries == st.0
                &&& (r == ReconcileAction::NeedsRescan) == st.2
                &&& final(self)@.cursor == (if st.2 {
                    st.1
                } else {
                    spec_restore_cursor(st.0, st.1, saved)
                })
            }),
    {
        let ghost evs = events_view(events@);
        let ghost s0 = self@.entries;
        let ghost c0 = self@.cursor;
        let saved: Option<RelPath> = match self.cursor {
            Some(c) => {
                assert(s0[c as int] == self.files@[c as int]@);
                Some(clone_rel_path(&self.files[c].path))
            },
            None => None,
        };
        proof {
            assert(evs.skip(0) =~= evs);
        }
        let mut i: usize = 0;
        while i < events.len()
            invariant
                0 <= i <= events.len(),
                evs == events_view(events@),
                evs.len() == events@.len(),
                forall|k: int| 0 <= k < events@.len() ==> (#[trigger] events@[k]).rel@.len() >= 1,
                self.wf(),
                s0 == old(self)@.entries,
                c0 == old(self)@.cursor,
                match saved {
                    Some(p) => c0 matches Some(cc) && p@ == s0[cc].path,
                    None => c0 is None,
                },
                self@.pending == old(self)@.pending,
                spec_reconcile(s0, c0, evs) == spec_reconcile(
                    self@.entries,
                    self@.cursor,
                    evs.skip(i as int),
                ),
            decreases events.len() - i,
        {
            let ghost pre_entries = self@.entries;
            let ghost pre_cursor = self@.cursor;
            proof {
                assert(evs[i as int] == events@[i as int]@);
                assert(evs.skip(i as int)[0] == evs[i as int]);
                assert(evs.skip(i as int).drop_first() =~= evs.skip(i + 1));
            }
            match &events[i].obs {
                PathObservation::Directory => {
                    return ReconcileAction::NeedsRescan;
                },
                PathObservation::File { in_base } => {
                    update_or_add_file(&mut self.files, &events[i].rel, *in_base);
                    proof {
                        assert(spec_apply_event(pre_entries, pre_cursor, evs[i as int]) == (
                        self@.entries,
                        self@.cursor,
                        ));
                    }
                },
                PathObservation::Missing => {
                    match remove_file_from_list(&mut self.files, &events[i].rel) {
                        Some(idx) => {
                            proof {
                                let w = path_index(pre_entries, evs[i as int].path);
                                if w != idx as int {
                                    lemma_wf_paths_unique(pre_entries, w, idx as int);
                                }
                            }
                            match self.cursor {
                                Some(sel) => {
                                    if self.files.len() == 0 {
                                        self.cursor = None;
                                    } else if sel >= self.files.len() {
                                        self.cursor = Some(self.files.len() - 1);
                                    }
                                },
                                None => {},
                            }
                            proof {
                                assert(spec_apply_event(pre_entries, pre_cursor, evs[i as int])
                                    == (self@.entries, self@.cursor));
                            }
                        },
                        None => {
                            proof {
                                assert(spec_apply_event(pre_entries, pre_cursor, evs[i as int])
                                    == (self@.entries, self@.cursor));
                            }
                        },
                    }
                },
            }
            i += 1;
        }
        proof {
            assert(evs.skip(evs.len() as int) =~= Seq::<PathEventModel>::empty());
        }
        match &saved {
            Some(p) => {
                match find_path_index(&self.files, p) {
                    Some(idx) => {
                        proof {
                            let w = path_index(self@.entries, p@);
                            if w != idx as int {
                                lemma_wf_paths_unique(self@.entries, w, idx as int);
                            }
                        }
                        self.cursor = Some(idx);
                    },
                    None => {},
                }
            },
            None => {},
        }
        ReconcileAction::Done
    }
}

/// Rebuilding twice from one unchanged listing gives the same entry
/// sequence and the same cursor as rebuilding once.
pub proof fn lemma_refresh_idempotent(
    entries: Seq<EntryModel>,
    cursor: Option<int>,
    items: Seq<ScanItemModel>,
)
    requires
        scan_input_wf(items),
        cursor matches Some(c) ==> 0 <= c < entries.len(),
    ensures
        ({
            let built = spec_build(items);
            let c1 = spec_refresh_cursor(entries, cursor, built);
            spec_refresh_cursor(built, c1, built) == c1
        }),
{
    lemma_spec_build_wf(items);
    let built = spec_build(items);
    let c1 = spec_refresh_cursor(entries, cursor, built);
    if built.len() == 0 {
        assert(c1 is None);
    } else {
        let k = c1->0;
        assert(0 <= k < built.len()) by {
            match cursor {
                Some(c) => {
                    if has_path(built, entries[c].path) {
                    }
                },
                None => {},
            }
        }
        assert(has_path(built, built[k].path));
        let w = path_index(built, built[k].path);
        if w != k {
            lemma_wf_paths_unique(built, w, k);
        }
        assert(spec_refresh_cursor(built, c1, built) == Some(k));
    }
}

/// A directory marked by its own cascade loses the mark again as soon as
/// any file below it is deselected: selecting a directory and then
/// deselecting one of its descendant files leaves the directory, and every
/// other directory above that file, unmarked.
pub proof fn lemma_cascade_then_deselect(s: Seq<EntryModel>, d: int, c: int)
    requires
        entries_wf(s),
        0 <= d < s.len(),
        s[d].is_dir,
        !s[d].selected,
        0 <= c < s.len(),
        !s[c].is_dir,
        is_ancestor_of(s[d].path, s[c].path),
    ensures
        ({
            let marked = spec_toggle_selection(s, d);
            let t = spec_toggle_selection(marked, c);
            &&& marked[c].selected
            &&& !t[d].selected
            &&& forall|i: int|
                0 <= i < s.len() && s[i].is_dir && is_ancestor_of(s[i].path, s[c].path) ==> !(
                #[trigger] t[i]).selected
        }),
{
    let marked = spec_toggle_selection(s, d);
    let t = spec_toggle_selection(marked, c);
    assert(marked[c] == with_selected(s[c], true));
    assert(marked[d].path == s[d].path && marked[c].path == s[c].path);
    assert(is_ancestor_of(marked[d].path, marked[c].path));
    assert forall|i: int|
        0 <= i < s.len() && s[i].is_dir && is_ancestor_of(s[i].path, s[c].path) implies !(
    #[trigger] t[i]).selected by {
        assert(marked[i].path == s[i].path && marked[i].is_dir == s[i].is_dir);
        if i == c {
            lemma_ancestor_lt(s[c].path, s[c].path);
        }
    }
}

/// In a well-formed tree the descendants of a directory stand in one
/// contiguous block directly after it: whatever lies between the directory
/// and one of its descendants is itself a descendant, so the block ends at
/// the first entry that is none.
pub proof fn lemma_descendant_block_contiguous(s: Seq<EntryModel>, d: int, i: int, j: int)
    requires
        entries_wf(s),
        0 <= d < i <= j < s.len(),
        is_ancestor_of(s[d].path, s[j].path),
    ensures
        is_ancestor_of(s[d].path, s[i].path),
{
    if i < j {
        lemma_between_prefix(s[d].path, s[i].path, s[j].path);
        lemma_wf_paths_unique(s, d, i);
        lemma_prefix_not_equal_ancestor(s[d].path, s[i].path);
    }
}

/// Some queued path equals `p`.
pub open spec fn pending_has(pending: Seq<Seq<Seq<u8>>>, p: Seq<Seq<u8>>) -> bool {
    exists|i: int| 0 <= i < pending.len() && #[trigger] pending[i] == p
}

/// The selected files among the first `n` entries, in tree order.
pub open spec fn selected_upto(s: Seq<EntryModel>, n: int) -> Seq<EntryModel>
    decreases n,
{
    if n <= 0 {
        Seq::empty()
    } else if s[n - 1].selected && !s[n - 1].is_dir {
        selected_upto(s, n - 1).push(s[n - 1])
    } else {
        selected_upto(s, n - 1)
    }
}

/// Every selected file of the tree, in tree order.
pub open spec fn spec_selected_files(s: Seq<EntryModel>) -> Seq<EntryModel> {
    selected_upto(s, s.len() as int)
}

} // verus!
