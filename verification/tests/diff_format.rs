use audit_box::diff::generate_diff;
use audit_box::path::RelPath;

fn rel(s: &str) -> RelPath {
    RelPath { components: s.split('/').map(|c| c.as_bytes().to_vec()).collect() }
}

fn lines_as_strings(lines: &[Vec<u8>]) -> Vec<String> {
    lines.iter().map(|l| String::from_utf8_lossy(l).into_owned()).collect()
}

#[test]
fn diff_header_names_both_files() {
    let lines = generate_diff(
        &b"/base".to_vec(),
        &b"/overlay".to_vec(),
        &rel("sub/b.txt"),
        &b"hello\n".to_vec(),
        &b"hello\n".to_vec(),
    );
    let text = lines_as_strings(&lines);
    assert_eq!(text[0], "--- /base/sub/b.txt");
    assert_eq!(text[1], "+++ /overlay/sub/b.txt");
    assert_eq!(text[2], "");
}

#[test]
fn equal_contents_give_only_unchanged_lines() {
    let lines = generate_diff(
        &b"/base".to_vec(),
        &b"/overlay".to_vec(),
        &rel("b.txt"),
        &b"alpha\nbeta\n".to_vec(),
        &b"alpha\nbeta\n".to_vec(),
    );
    let text = lines_as_strings(&lines);
    assert_eq!(text[3..].to_vec(), vec![" alpha", " beta"]);
}

#[test]
fn changed_line_appears_as_deletion_and_insertion() {
    let lines = generate_diff(
        &b"/base".to_vec(),
        &b"/overlay".to_vec(),
        &rel("b.txt"),
        &b"keep\nold\n".to_vec(),
        &b"keep\nnew\n".to_vec(),
    );
    let text = lines_as_strings(&lines);
    let body = text[3..].to_vec();
    assert!(body.contains(&" keep".to_string()));
    assert!(body.contains(&"-old".to_string()));
    assert!(body.contains(&"+new".to_string()));
    // The deleted line must come before its replacement.
    let del = body.iter().position(|l| l == "-old").unwrap();
    let ins = body.iter().position(|l| l == "+new").unwrap();
    assert!(del < ins);
}

#[test]
fn missing_base_reads_as_all_inserted() {
    let lines = generate_diff(
        &b"/base".to_vec(),
        &b"/overlay".to_vec(),
        &rel("a.txt"),
        &Vec::new(),
        &b"one\ntwo\n".to_vec(),
    );
    let text = lines_as_strings(&lines);
    assert_eq!(text[3..].to_vec(), vec!["+one", "+two"]);
}

#[test]
fn empty_overlay_reads_as_all_deleted() {
    let lines = generate_diff(
        &b"/base".to_vec(),
        &b"/overlay".to_vec(),
        &rel("a.txt"),
        &b"gone\n".to_vec(),
        &Vec::new(),
    );
    let text = lines_as_strings(&lines);
    assert_eq!(text[3..].to_vec(), vec!["-gone"]);
}

#[test]
fn line_ends_are_trimmed_from_rendered_lines() {
    let lines = generate_diff(
        &b"/base".to_vec(),
        &b"/overlay".to_vec(),
        &rel("c.txt"),
        &b"a\r\n".to_vec(),
        &b"a\r\n".to_vec(),
    );
    let text = lines_as_strings(&lines);
    assert_eq!(text[3..].to_vec(), vec![" a"]);
}
