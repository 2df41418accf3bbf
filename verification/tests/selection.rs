use audit_box::file_operations::{scan_directory, ScanItem};
use audit_box::path::RelPath;
use audit_box::tree::OverlayTree;

fn rel(s: &str) -> RelPath {
    RelPath { components: s.split('/').map(|c| c.as_bytes().to_vec()).collect() }
}

fn item(s: &str, is_dir: bool, in_base: bool) -> ScanItem {
    ScanItem { rel: rel(s), is_dir, in_base }
}

fn sample_tree() -> OverlayTree {
    // Order after scanning: d, d/sub, d/sub/y.txt, d/x.txt, e.txt
    let items = vec![
        item("d", true, true),
        item("d/sub", true, true),
        item("d/sub/y.txt", false, false),
        item("d/x.txt", false, true),
        item("e.txt", false, false),
    ];
    OverlayTree::new(scan_directory(&items))
}

#[test]
fn toggling_directory_selects_whole_block_and_back() {
    let mut tree = sample_tree();
    tree.cursor = Some(0);
    tree.toggle_selection();
    let flags: Vec<bool> = tree.files.iter().map(|e| e.selected).collect();
    assert_eq!(flags, vec![true, true, true, true, false]);
    tree.toggle_selection();
    let flags: Vec<bool> = tree.files.iter().map(|e| e.selected).collect();
    assert_eq!(flags, vec![false, false, false, false, false]);
}

#[test]
fn deselecting_file_clears_all_ancestor_directories() {
    let mut tree = sample_tree();
    tree.cursor = Some(0);
    tree.toggle_selection();
    // The cascade marked everything under d, including both directories.
    assert!(tree.files[0].selected && tree.files[1].selected && tree.files[2].selected);
    // Deselect the deeply nested file.
    tree.cursor = Some(2);
    tree.toggle_selection();
    let flags: Vec<bool> = tree.files.iter().map(|e| e.selected).collect();
    // Both d and d/sub lose their mark; the sibling file keeps its own.
    assert_eq!(flags, vec![false, false, false, true, false]);
}

#[test]
fn selecting_single_file_touches_nothing_else() {
    let mut tree = sample_tree();
    tree.cursor = Some(4);
    tree.toggle_selection();
    let flags: Vec<bool> = tree.files.iter().map(|e| e.selected).collect();
    assert_eq!(flags, vec![false, false, false, false, true]);
}

#[test]
fn toggle_with_no_cursor_is_a_no_op() {
    let mut tree = sample_tree();
    tree.cursor = None;
    tree.toggle_selection();
    assert!(tree.files.iter().all(|e| !e.selected));
}

#[test]
fn selected_files_lists_files_only_in_tree_order() {
    let mut tree = sample_tree();
    tree.cursor = Some(0);
    tree.toggle_selection();
    let selected = tree.get_selected_files();
    // Directories cascade but are never handed to the commit engine.
    let names: Vec<Vec<u8>> = selected.iter().map(|e| e.name.clone()).collect();
    assert_eq!(names, vec![b"y.txt".to_vec(), b"x.txt".to_vec()]);
    assert!(selected.iter().all(|e| !e.is_dir));
}
