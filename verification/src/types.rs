//! The entry model of the flattened overlay tree, together with the
//! well-formedness conditions every tree in this crate maintains.
use vstd::prelude::*;
use crate::path::{RelPath, path_lt, lemma_path_lt_asym};

verus! {

/// Classification of one overlay entry against the base filesystem.
#[derive(Clone, Copy, Debug, PartialEq, Eq, Structural)]
pub enum FileStatus {
    /// The corresponding base path does not exist.
    New,
    /// The corresponding base path exists.
    Modified,
}

/// Which pane of the review screen takes key input.
#[derive(Clone, Copy, Debug, PartialEq, Eq, Structural)]
pub enum ActivePane {
    FileList,
    FileContent,
}

/// Which button of a confirmation dialog is highlighted.
#[derive(Clone, Copy, Debug, PartialEq, Eq, Structural)]
pub enum DialogButton {
    Confirm,
    Cancel,
}

impl ActivePane {
    /// The other pane.
    pub fn toggled(self) -> (r: ActivePane)
        ensures
            r == (match self {
                ActivePane::FileList => ActivePane::FileContent,
                ActivePane::FileContent => ActivePane::FileList,
            }),
    {
        match self {
            ActivePane::FileList => ActivePane::FileContent,
            ActivePane::FileContent => ActivePane::FileList,
        }
    }
}

impl DialogButton {
    /// The other button.
    pub fn toggled(self) -> (r: DialogButton)
        ensures
            r == (match self {
                DialogButton::Confirm => DialogButton::Cancel,
                DialogButton::Cancel => DialogButton::Confirm,
            }),
    {
        match self {
            DialogButton::Confirm => DialogButton::Cancel,
            DialogButton::Cancel => DialogButton::Confirm,
        }
    }
}

/// One row of the flattened overlay tree.
#[derive(Debug)]
pub struct FileEntry {
    /// Path relative to the overlay root; the unique key within the tree.
    pub path: RelPath,
    /// Final path component, kept for display.
    pub name: Vec<u8>,
    pub is_dir: bool,
    /// Nesting level: direct children of the overlay root have depth 0.
    pub depth: usize,
    pub status: FileStatus,
    /// Marked for the next apply.
    pub selected: bool,
    /// Directory only: hides all descendants from the visible projection.
    pub collapsed: bool,
}

/// Mathematical image of a `FileEntry`.
pub ghost struct EntryModel {
    pub path: Seq<Seq<u8>>,
    pub name: Seq<u8>,
    pub is_dir: bool,
    pub depth: nat,
    pub status: FileStatus,
    pub selected: bool,
    pub collapsed: bool,
}

impl View for FileEntry {
    type V = EntryModel;

    open spec fn view(&self) -> EntryModel {
        EntryModel {
            path: self.path@,
            name: self.name@,
            is_dir: self.is_dir,
            depth: self.depth as nat,
            status: self.status,
            selected: self.selected,
            collapsed: self.collapsed,
        }
    }
}

/// The models of a sequence of entries.
pub open spec fn entries_view(s: Seq<FileEntry>) -> Seq<EntryModel> {
    Seq::new(s.len(), |i: int| s[i]@)
}

/// Conditions on a single entry: a non-empty path whose length fits the
/// machine, the depth and name derived from it, and `collapsed` confined to
/// directories.
pub open spec fn entry_wf(e: EntryModel) -> bool {
    &&& e.path.len() >= 1
    &&& e.depth == e.path.len() - 1
    &&& e.name == e.path.last()
    &&& e.collapsed ==> e.is_dir
}

/// The backing sequence is strictly sorted by path.
pub open spec fn entries_sorted(s: Seq<EntryModel>) -> bool {
    forall|i: int, j: int|
        0 <= i < j < s.len() ==> path_lt(#[trigger] s[i].path, #[trigger] s[j].path)
}

/// Conditions on the whole backing sequence: every entry well formed and the
/// sequence strictly sorted by path, which makes paths unique and keeps each
/// directory's descendants in one contiguous block directly after it.
pub open spec fn entries_wf(s: Seq<EntryModel>) -> bool {
    &&& forall|i: int| 0 <= i < s.len() ==> entry_wf(#[trigger] s[i])
    &&& entries_sorted(s)
}

/// In a well-formed sequence, distinct indices hold distinct paths.
pub proof fn lemma_wf_paths_unique(s: Seq<EntryModel>, i: int, j: int)
    requires
        entries_wf(s),
        0 <= i < s.len(),
        0 <= j < s.len(),
        i != j,
    ensures
        s[i].path != s[j].path,
{
    if i < j {
        lemma_path_lt_asym(s[i].path, s[j].path);
    } else {
        lemma_path_lt_asym(s[j].path, s[i].path);
    }
}

/// Which view the content pane shows for an entry.
#[derive(Clone, Copy, Debug, PartialEq, Eq, Structural)]
pub enum ContentViewKind {
    /// A directory: only a placeholder.
    Directory,
    /// A new file: its raw content.
    Plain,
    /// A modified file: the diff against its base counterpart.
    Diff,
}

impl FileEntry {
    /// How the content pane presents this entry: directories get a
    /// placeholder, new files their raw content, modified files a diff.
    pub fn content_view_kind(&self) -> (r: ContentViewKind)
        ensures
            r == (if self.is_dir {
                ContentViewKind::Directory
            } else if self.status is Modified {
                ContentViewKind::Diff
            } else {
                ContentViewKind::Plain
            }),
    {
        if self.is_dir {
            ContentViewKind::Directory
        } else {
            match self.status {
                FileStatus::Modified => ContentViewKind::Diff,
                FileStatus::New => ContentViewKind::Plain,
            }
        }
    }
}

/// Copy of an entry.
pub fn clone_entry(e: &FileEntry) -> (r: FileEntry)
    ensures
        r@ == e@,
{
    FileEntry {
        path: crate::path::clone_rel_path(&e.path),
        name: crate::path::clone_bytes(&e.name),
        is_dir: e.is_dir,
        depth: e.depth,
        status: e.status,
        selected: e.selected,
        collapsed: e.collapsed,
    }
}

} // verus!
