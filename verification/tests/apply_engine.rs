use audit_box::commit::{ApplyEngine, ApplyFailureKind, StepOutcome};
use audit_box::file_operations::{scan_directory, ScanItem};
use audit_box::path::RelPath;
use audit_box::tree::OverlayTree;

fn rel(s: &str) -> RelPath {
    RelPath { components: s.split('/').map(|c| c.as_bytes().to_vec()).collect() }
}

fn item(s: &str, in_base: bool) -> ScanItem {
    ScanItem { rel: rel(s), is_dir: false, in_base }
}

fn three_file_engine() -> ApplyEngine {
    let items = vec![item("a.txt", true), item("b.txt", true), item("c.txt", false)];
    let mut tree = OverlayTree::new(scan_directory(&items));
    tree.cursor = Some(0);
    tree.toggle_selection();
    tree.cursor = Some(1);
    tree.toggle_selection();
    tree.cursor = Some(2);
    tree.toggle_selection();
    ApplyEngine::new(tree.get_selected_files())
}

#[test]
fn verification_failure_on_second_entry_stops_the_batch() {
    let mut engine = three_file_engine();
    // First entry: copied, verified, deleted.
    let first = engine.next_entry().expect("first entry offered");
    assert_eq!(first.name, b"a.txt".to_vec());
    engine.record_outcome(StepOutcome::Committed);
    // Second entry: read-back differs from the source.
    let second = engine.next_entry().expect("second entry offered");
    assert_eq!(second.name, b"b.txt".to_vec());
    engine.record_outcome(StepOutcome::Mismatch);
    // The batch stops: entry one stays committed, entry three is never
    // offered, and the failure names the offending entry.
    assert!(engine.next_entry().is_none());
    assert_eq!(engine.applied_count(), 1);
    let failure = engine.failure().expect("failure recorded");
    assert_eq!(failure.index, 1);
    assert_eq!(failure.kind, ApplyFailureKind::Verification);
    let failed = engine.failed_entry().expect("failing entry named");
    assert_eq!(failed.name, b"b.txt".to_vec());
}

#[test]
fn operation_failure_stops_the_batch_too() {
    let mut engine = three_file_engine();
    engine.next_entry().expect("first entry offered");
    engine.record_outcome(StepOutcome::OpFailed);
    assert!(engine.next_entry().is_none());
    assert_eq!(engine.applied_count(), 0);
    let failure = engine.failure().expect("failure recorded");
    assert_eq!(failure.index, 0);
    assert_eq!(failure.kind, ApplyFailureKind::Operation);
}

#[test]
fn clean_run_commits_every_entry_in_order() {
    let mut engine = three_file_engine();
    let mut seen: Vec<Vec<u8>> = Vec::new();
    while let Some(entry) = engine.next_entry() {
        seen.push(entry.name.clone());
        engine.record_outcome(StepOutcome::Committed);
    }
    assert_eq!(seen, vec![b"a.txt".to_vec(), b"b.txt".to_vec(), b"c.txt".to_vec()]);
    assert_eq!(engine.applied_count(), 3);
    assert!(engine.failure().is_none());
    assert!(engine.failed_entry().is_none());
}

#[test]
fn empty_batch_offers_nothing() {
    let mut engine = ApplyEngine::new(Vec::new());
    assert!(engine.next_entry().is_none());
    assert_eq!(engine.applied_count(), 0);
    assert!(engine.failure().is_none());
    let _ = &mut engine;
}
