use audit_box::file_operations::{scan_directory, ScanItem};
use audit_box::path::RelPath;
use audit_box::tree::{OverlayTree, PathEvent, PathObservation, ReconcileAction};
use audit_box::types::FileStatus;

fn rel(s: &str) -> RelPath {
    RelPath { components: s.split('/').map(|c| c.as_bytes().to_vec()).collect() }
}

fn item(s: &str, is_dir: bool, in_base: bool) -> ScanItem {
    ScanItem { rel: rel(s), is_dir, in_base }
}

fn names(tree: &OverlayTree) -> Vec<Vec<u8>> {
    tree.files.iter().map(|e| e.name.clone()).collect()
}

#[test]
fn removing_the_only_entry_clears_the_cursor() {
    let items = vec![item("a.txt", false, false)];
    let mut tree = OverlayTree::new(scan_directory(&items));
    assert_eq!(tree.cursor, Some(0));
    let events = vec![PathEvent { rel: rel("a.txt"), obs: PathObservation::Missing }];
    let action = tree.process_pending_updates(&events);
    assert!(matches!(action, ReconcileAction::Done));
    assert!(tree.files.is_empty());
    assert_eq!(tree.cursor, None);
}

#[test]
fn removing_one_entry_removes_exactly_that_entry() {
    let items = vec![
        item("a.txt", false, false),
        item("b.txt", false, true),
        item("c.txt", false, false),
    ];
    let mut tree = OverlayTree::new(scan_directory(&items));
    let events = vec![PathEvent { rel: rel("b.txt"), obs: PathObservation::Missing }];
    tree.process_pending_updates(&events);
    assert_eq!(names(&tree), vec![b"a.txt".to_vec(), b"c.txt".to_vec()]);
}

#[test]
fn cursor_clamps_to_last_entry_after_tail_removal() {
    let items = vec![item("a.txt", false, false), item("b.txt", false, false)];
    let mut tree = OverlayTree::new(scan_directory(&items));
    tree.cursor = Some(1);
    let events = vec![PathEvent { rel: rel("b.txt"), obs: PathObservation::Missing }];
    tree.process_pending_updates(&events);
    assert_eq!(tree.cursor, Some(0));
}

#[test]
fn directory_event_requests_rescan_and_abandons_the_rest() {
    let items = vec![item("a.txt", false, false), item("b.txt", false, false)];
    let mut tree = OverlayTree::new(scan_directory(&items));
    let events = vec![
        PathEvent { rel: rel("a.txt"), obs: PathObservation::Missing },
        PathEvent { rel: rel("sub"), obs: PathObservation::Directory },
        PathEvent { rel: rel("b.txt"), obs: PathObservation::Missing },
    ];
    let action = tree.process_pending_updates(&events);
    assert!(matches!(action, ReconcileAction::NeedsRescan));
    // The event before the directory was applied, the one after was not.
    assert_eq!(names(&tree), vec![b"b.txt".to_vec()]);
}

#[test]
fn file_event_updates_in_place_and_keeps_selection() {
    let items = vec![item("a.txt", false, false), item("b.txt", false, false)];
    let mut tree = OverlayTree::new(scan_directory(&items));
    tree.cursor = Some(0);
    tree.toggle_selection();
    let events = vec![PathEvent { rel: rel("a.txt"), obs: PathObservation::File { in_base: true } }];
    tree.process_pending_updates(&events);
    assert_eq!(tree.files[0].status, FileStatus::Modified);
    assert!(tree.files[0].selected);
}

#[test]
fn cursor_returns_to_its_path_after_an_insertion_shifted_it() {
    let items = vec![item("m.txt", false, false)];
    let mut tree = OverlayTree::new(scan_directory(&items));
    assert_eq!(tree.cursor, Some(0));
    let events = vec![PathEvent { rel: rel("a.txt"), obs: PathObservation::File { in_base: false } }];
    tree.process_pending_updates(&events);
    // a.txt was inserted before m.txt; the cursor follows m.txt to index 1.
    assert_eq!(names(&tree), vec![b"a.txt".to_vec(), b"m.txt".to_vec()]);
    assert_eq!(tree.cursor, Some(1));
}

#[test]
fn pending_queue_deduplicates_paths() {
    let items = vec![item("a.txt", false, false)];
    let mut tree = OverlayTree::new(scan_directory(&items));
    tree.note_changed_path(rel("x.txt"));
    tree.note_changed_path(rel("y.txt"));
    tree.note_changed_path(rel("x.txt"));
    let batch = tree.take_pending_paths();
    assert_eq!(batch.len(), 2);
    assert_eq!(batch[0].components, rel("x.txt").components);
    assert_eq!(batch[1].components, rel("y.txt").components);
    assert!(tree.take_pending_paths().is_empty());
}

#[test]
fn refresh_resets_flags_and_restores_cursor_by_path() {
    let items = vec![
        item("a.txt", false, false),
        item("b.txt", false, true),
        item("c.txt", false, false),
    ];
    let mut tree = OverlayTree::new(scan_directory(&items));
    tree.cursor = Some(1);
    tree.toggle_selection();
    assert!(tree.files[1].selected);
    tree.refresh_file_list(&items);
    // Selection resets on a full rebuild; the cursor keeps its path.
    assert!(tree.files.iter().all(|e| !e.selected && !e.collapsed));
    assert_eq!(tree.cursor, Some(1));
}

#[test]
fn refresh_twice_with_unchanged_listing_is_identical() {
    let items = vec![
        item("d", true, true),
        item("d/x.txt", false, false),
        item("a.txt", false, true),
    ];
    let mut tree = OverlayTree::new(scan_directory(&items));
    tree.refresh_file_list(&items);
    let first = names(&tree);
    let first_cursor = tree.cursor;
    tree.refresh_file_list(&items);
    assert_eq!(names(&tree), first);
    assert_eq!(tree.cursor, first_cursor);
}

#[test]
fn refresh_falls_back_to_first_entry_when_the_path_is_gone() {
    let items = vec![item("a.txt", false, false), item("b.txt", false, false)];
    let mut tree = OverlayTree::new(scan_directory(&items));
    tree.cursor = Some(1);
    let fewer = vec![item("a.txt", false, false)];
    tree.refresh_file_list(&fewer);
    assert_eq!(tree.cursor, Some(0));
    tree.refresh_file_list(&Vec::new());
    assert_eq!(tree.cursor, None);
}
