use audit_box::file_operations::{scan_directory, update_or_add_file, remove_file_from_list, ScanItem};
use audit_box::path::RelPath;
use audit_box::types::FileStatus;

fn rel(s: &str) -> RelPath {
    RelPath { components: s.split('/').map(|c| c.as_bytes().to_vec()).collect() }
}

fn item(s: &str, is_dir: bool, in_base: bool) -> ScanItem {
    ScanItem { rel: rel(s), is_dir, in_base }
}

fn paths_of(entries: &[audit_box::types::FileEntry]) -> Vec<String> {
    entries
        .iter()
        .map(|e| {
            e.path
                .components
                .iter()
                .map(|c| String::from_utf8_lossy(c).into_owned())
                .collect::<Vec<_>>()
                .join("/")
        })
        .collect()
}

#[test]
fn scan_orders_depth_first_with_sorted_siblings() {
    // Handed out of order on purpose: the scanner owns the ordering.
    let items = vec![
        item("b.txt", false, true),
        item("d/sub/y.txt", false, false),
        item("d", true, true),
        item("a.txt", false, false),
        item("d/sub", true, false),
        item("d/x.txt", false, true),
    ];
    let entries = scan_directory(&items);
    assert_eq!(
        paths_of(&entries),
        vec!["a.txt", "b.txt", "d", "d/sub", "d/sub/y.txt", "d/x.txt"]
    );
    // Depth equals the number of components below the overlay root, minus one.
    let depths: Vec<usize> = entries.iter().map(|e| e.depth).collect();
    assert_eq!(depths, vec![0, 0, 0, 1, 2, 1]);
    // Names are the final components.
    assert_eq!(entries[4].name, b"y.txt".to_vec());
    // A directory's descendants form one contiguous block directly after it.
    assert!(entries[2].is_dir);
    for e in &entries[3..6] {
        assert_eq!(e.path.components[0], b"d".to_vec());
    }
    // Everything starts unselected and expanded.
    assert!(entries.iter().all(|e| !e.selected && !e.collapsed));
}

#[test]
fn scan_classifies_against_base() {
    let items = vec![item("a.txt", false, false), item("b.txt", false, true)];
    let entries = scan_directory(&items);
    let new_count = entries.iter().filter(|e| e.status == FileStatus::New).count();
    let modified_count = entries.iter().filter(|e| e.status == FileStatus::Modified).count();
    assert_eq!(new_count, 1);
    assert_eq!(modified_count, 1);
    assert_eq!(entries[0].status, FileStatus::New);
    assert_eq!(entries[0].name, b"a.txt".to_vec());
    assert_eq!(entries[1].status, FileStatus::Modified);
}

#[test]
fn scan_is_deterministic() {
    let items = vec![
        item("c", true, false),
        item("c/z.txt", false, false),
        item("a.txt", false, true),
    ];
    let first = scan_directory(&items);
    let second = scan_directory(&items);
    assert_eq!(paths_of(&first), paths_of(&second));
    for (x, y) in first.iter().zip(second.iter()) {
        assert_eq!(x.is_dir, y.is_dir);
        assert_eq!(x.depth, y.depth);
        assert_eq!(x.status == FileStatus::New, y.status == FileStatus::New);
    }
}

#[test]
fn update_or_add_updates_in_place_and_keeps_selection() {
    let items = vec![item("a.txt", false, false), item("b.txt", false, false)];
    let mut files = scan_directory(&items);
    files[0].selected = true;
    update_or_add_file(&mut files, &rel("a.txt"), true);
    assert_eq!(files.len(), 2);
    assert_eq!(files[0].status, FileStatus::Modified);
    assert!(files[0].selected);
}

#[test]
fn update_or_add_inserts_at_sorted_position() {
    let items = vec![item("a.txt", false, false), item("c.txt", false, false)];
    let mut files = scan_directory(&items);
    update_or_add_file(&mut files, &rel("b.txt"), true);
    assert_eq!(paths_of(&files), vec!["a.txt", "b.txt", "c.txt"]);
    assert!(!files[1].is_dir);
    assert_eq!(files[1].status, FileStatus::Modified);
    assert!(!files[1].selected);
}

#[test]
fn remove_file_reports_index_and_removes_only_that_entry() {
    let items = vec![
        item("a.txt", false, false),
        item("b.txt", false, false),
        item("c.txt", false, false),
    ];
    let mut files = scan_directory(&items);
    assert_eq!(remove_file_from_list(&mut files, &rel("b.txt")), Some(1));
    assert_eq!(paths_of(&files), vec!["a.txt", "c.txt"]);
    assert_eq!(remove_file_from_list(&mut files, &rel("b.txt")), None);
    assert_eq!(files.len(), 2);
}
