use audit_box::session::{format_session, parse_session, SessionError};
use audit_box::types::{ActivePane, ContentViewKind, DialogButton, FileStatus, FileEntry};
use audit_box::path::RelPath;

#[test]
fn session_round_trips_through_its_file_format() {
    let tmpdir = b"/tmp/audit-box-xyz".to_vec();
    let base = b"/home/user/project".to_vec();
    let bytes = format_session(&tmpdir, &base);
    assert_eq!(bytes, b"/tmp/audit-box-xyz\n/home/user/project\n".to_vec());
    let session = parse_session(&bytes).expect("well-formed session file");
    assert_eq!(session.tmpdir, tmpdir);
    assert_eq!(session.base_path, base);
}

#[test]
fn single_line_content_is_corrupted() {
    assert!(matches!(parse_session(&b"/tmp/only\n".to_vec()), Err(SessionError::Corrupted)));
    assert!(matches!(parse_session(&b"".to_vec()), Err(SessionError::Corrupted)));
    assert!(matches!(
        parse_session(&b"no-newline-at-all".to_vec()),
        Err(SessionError::Corrupted)
    ));
}

#[test]
fn carriage_returns_are_stripped_per_line() {
    let session = parse_session(&b"/tmp/a\r\n/base\r\n".to_vec()).expect("two lines");
    assert_eq!(session.tmpdir, b"/tmp/a".to_vec());
    assert_eq!(session.base_path, b"/base".to_vec());
}

#[test]
fn second_line_may_lack_a_trailing_newline() {
    let session = parse_session(&b"/tmp/a\n/base".to_vec()).expect("two lines");
    assert_eq!(session.base_path, b"/base".to_vec());
}

#[test]
fn panes_and_dialog_buttons_toggle_between_their_two_states() {
    assert_eq!(ActivePane::FileList.toggled(), ActivePane::FileContent);
    assert_eq!(ActivePane::FileContent.toggled(), ActivePane::FileList);
    assert_eq!(DialogButton::Confirm.toggled(), DialogButton::Cancel);
    assert_eq!(DialogButton::Cancel.toggled(), DialogButton::Confirm);
}

#[test]
fn content_view_kind_follows_entry_shape() {
    let entry = |is_dir: bool, status: FileStatus| FileEntry {
        path: RelPath { components: vec![b"x".to_vec()] },
        name: b"x".to_vec(),
        is_dir,
        depth: 0,
        status,
        selected: false,
        collapsed: false,
    };
    assert_eq!(entry(true, FileStatus::New).content_view_kind(), ContentViewKind::Directory);
    assert_eq!(entry(false, FileStatus::New).content_view_kind(), ContentViewKind::Plain);
    assert_eq!(entry(false, FileStatus::Modified).content_view_kind(), ContentViewKind::Diff);
}
