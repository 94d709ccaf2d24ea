use crates_io_changes::classify::{classify_lines, is_automation_author, DiffLineRec};
use crates_io_changes::http::{hint_body_bytes, route, worker_step, RouteDecision, WorkerStep};
use crates_io_changes::codec::encode_change_line;
use crates_io_changes::record::{Change, RepoError};
use crates_io_changes::record::{ChangeType, PackageVersionRecord};

fn line(origin: u8, deleted: bool, content: &[u8]) -> DiffLineRec {
    DiffLineRec { deleted, origin, content: content.to_vec() }
}

const FOO: &[u8] = br#"{"name":"foo","version":"1.0.0","dependencies":[],"checksum":"a","features":{},"yanked":false}"#;
const BAR: &[u8] = br#"{"name":"bar","version":"0.2.0","dependencies":[],"checksum":"b","features":{},"yanked":true}"#;

#[test]
fn routing_decisions() {
    assert_eq!(route(b"GET", b"/_changes"), RouteDecision::StreamChanges);
    assert_eq!(route(b"GET", b"/_wrong"), RouteDecision::NotFound);
    assert_eq!(route(b"POST", b"/_wrong"), RouteDecision::NotFound);
    assert_eq!(route(b"POST", b"/_changes"), RouteDecision::MethodNotAllowed);
    assert_eq!(route(b"PUT", b"/_changes"), RouteDecision::MethodNotAllowed);
    assert_eq!(route(b"GET", b"/"), RouteDecision::NotFound);
    assert_eq!(hint_body_bytes(), b"Try GETTING  /_changes!".to_vec());
}

#[test]
fn author_filter_matches_only_automation() {
    assert!(is_automation_author(&Some(b"bors".to_vec())));
    assert!(!is_automation_author(&Some(b"alice".to_vec())));
    assert!(!is_automation_author(&Some(b"bors2".to_vec())));
    assert!(!is_automation_author(&Some(b"bor".to_vec())));
    assert!(!is_automation_author(&None));
}

#[test]
fn no_change_lines_yield_no_event() {
    let lines = vec![line(32, false, b"context only"), line(70, false, b"file header")];
    assert!(classify_lines(&lines, None).is_none());
    assert!(classify_lines(&Vec::new(), None).is_none());
}

#[test]
fn one_added_line_yields_its_record() {
    let lines = vec![line(b'+', false, FOO)];
    let ev = classify_lines(&lines, Some(b"publish foo".to_vec())).expect("one event");
    assert_eq!(ev.delta, ChangeType::Modified);
    assert_eq!(ev.message, Some(b"publish foo".to_vec()));
    assert_eq!(ev.payload.name, b"foo".to_vec());
    assert_eq!(ev.payload.version, b"1.0.0".to_vec());
    assert!(!ev.payload.yanked);
}

#[test]
fn last_parsable_line_wins() {
    let lines = vec![
        line(b'+', false, FOO),
        line(32, false, b"context"),
        line(b'-', false, BAR),
    ];
    let ev = classify_lines(&lines, None).expect("one event");
    assert_eq!(ev.payload.name, b"bar".to_vec());
    assert!(ev.payload.yanked);
    // the last change line also sets the delta
    assert_eq!(ev.delta, ChangeType::Modified);
}

#[test]
fn deleted_file_sets_deleted_delta() {
    let lines = vec![line(b'-', true, FOO)];
    let ev = classify_lines(&lines, None).expect("one event");
    assert_eq!(ev.delta, ChangeType::Deleted);
    assert_eq!(ev.payload.name, b"foo".to_vec());
}

#[test]
fn malformed_line_keeps_default_payload() {
    let lines = vec![line(b'+', false, b"{not json")];
    let ev = classify_lines(&lines, None).expect("still one event");
    assert_eq!(ev.delta, ChangeType::Modified);
    assert_eq!(ev.payload, PackageVersionRecord::default());
}

#[test]
fn malformed_line_keeps_earlier_payload() {
    let lines = vec![line(b'+', false, FOO), line(b'+', false, b"{broken")];
    let ev = classify_lines(&lines, None).expect("one event");
    assert_eq!(ev.payload.name, b"foo".to_vec());
}

#[test]
fn worker_decisions() {
    assert_eq!(worker_step(None), WorkerStep::Finish);
    assert_eq!(
        worker_step(Some(Err(RepoError { message: b"boom".to_vec() }))),
        WorkerStep::Abort
    );
    let c = Change::default();
    let expected = encode_change_line(&c);
    assert_eq!(worker_step(Some(Ok(c))), WorkerStep::Emit(expected));
}
