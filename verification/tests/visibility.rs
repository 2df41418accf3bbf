use audit_box::file_operations::{scan_directory, ScanItem};
use audit_box::path::RelPath;
use audit_box::tree::OverlayTree;

fn rel(s: &str) -> RelPath {
    RelPath { components: s.split('/').map(|c| c.as_bytes().to_vec()).collect() }
}

fn item(s: &str, is_dir: bool, in_base: bool) -> ScanItem {
    ScanItem { rel: rel(s), is_dir, in_base }
}

fn sample_tree() -> OverlayTree {
    // Order after scanning: d, d/sub, d/sub/y.txt, d/x.txt, e.txt
    let items = vec![
        item("d", true, true),
        item("d/sub", true, true),
        item("d/sub/y.txt", false, false),
        item("d/x.txt", false, true),
        item("e.txt", false, false),
    ];
    OverlayTree::new(scan_directory(&items))
}

fn visible_indices(tree: &OverlayTree) -> Vec<usize> {
    tree.get_visible_files().iter().map(|(i, _)| *i).collect()
}

#[test]
fn collapse_hides_exactly_the_descendants_and_expand_restores() {
    let mut tree = sample_tree();
    assert_eq!(visible_indices(&tree), vec![0, 1, 2, 3, 4]);
    tree.cursor = Some(0);
    tree.collapse_directory();
    assert!(tree.files[0].collapsed);
    assert_eq!(visible_indices(&tree), vec![0, 4]);
    tree.expand_directory();
    assert_eq!(visible_indices(&tree), vec![0, 1, 2, 3, 4]);
}

#[test]
fn nested_collapse_keeps_outer_block_visible() {
    let mut tree = sample_tree();
    tree.cursor = Some(1);
    tree.collapse_directory();
    // Only d/sub's descendant disappears.
    assert_eq!(visible_indices(&tree), vec![0, 1, 3, 4]);
}

#[test]
fn collapse_on_file_moves_cursor_to_parent() {
    let mut tree = sample_tree();
    tree.cursor = Some(2);
    tree.collapse_directory();
    assert_eq!(tree.cursor, Some(1));
    // And again from the already-collapsed state of a directory.
    tree.cursor = Some(1);
    tree.collapse_directory();
    assert!(tree.files[1].collapsed);
    tree.collapse_directory();
    assert_eq!(tree.cursor, Some(0));
}

#[test]
fn collapse_on_top_level_file_is_a_no_op_on_cursor() {
    let mut tree = sample_tree();
    tree.cursor = Some(4);
    tree.collapse_directory();
    assert_eq!(tree.cursor, Some(4));
}

#[test]
fn expand_on_file_or_open_directory_changes_nothing() {
    let mut tree = sample_tree();
    tree.cursor = Some(4);
    tree.expand_directory();
    tree.cursor = Some(0);
    tree.expand_directory();
    assert_eq!(visible_indices(&tree), vec![0, 1, 2, 3, 4]);
}

#[test]
fn cursor_moves_among_visible_entries_and_wraps() {
    let mut tree = sample_tree();
    tree.cursor = Some(0);
    tree.collapse_directory();
    // Visible: indices 0 and 4.
    tree.next();
    assert_eq!(tree.cursor, Some(4));
    tree.next();
    assert_eq!(tree.cursor, Some(0));
    tree.previous();
    assert_eq!(tree.cursor, Some(4));
    tree.previous();
    assert_eq!(tree.cursor, Some(0));
}

#[test]
fn cursor_jumps_to_first_and_last_visible() {
    let mut tree = sample_tree();
    tree.cursor = Some(0);
    tree.collapse_directory();
    tree.jump_to_last();
    assert_eq!(tree.cursor, Some(4));
    tree.jump_to_first();
    assert_eq!(tree.cursor, Some(0));
}

#[test]
fn cursor_is_silent_on_empty_tree() {
    let mut tree = OverlayTree::new(Vec::new());
    assert_eq!(tree.cursor, None);
    tree.next();
    tree.previous();
    tree.jump_to_first();
    tree.jump_to_last();
    tree.toggle_selection();
    assert_eq!(tree.cursor, None);
    assert!(tree.get_visible_files().is_empty());
}
