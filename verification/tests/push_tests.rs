use olsync::errors::SyncError;
use olsync::push::{upload_outcome, PushSession};

fn files(names: &[&str]) -> Vec<String> {
    names.iter().map(|s| s.to_string()).collect()
}

#[test]
fn push_walks_files_in_order() {
    let mut s = PushSession::new(files(&["a", "b", "c"]));
    assert_eq!(s.next_file(), Some("a".to_string()));
    s.record_success();
    assert_eq!(s.next_file(), Some("b".to_string()));
    s.record_success();
    assert_eq!(s.next_file(), Some("c".to_string()));
    s.record_success();
    assert_eq!(s.next_file(), None);
    assert!(s.succeeded());
    assert!(s.outcome().is_ok());
    assert!(s.failed_file().is_none());
}

#[test]
fn push_aborts_at_the_first_failure() {
    let mut s = PushSession::new(files(&["a", "b", "c"]));
    assert_eq!(s.next_file(), Some("a".to_string()));
    s.record_success();
    assert_eq!(s.next_file(), Some("b".to_string()));
    s.record_failure(500, "server out of sorts".to_string());
    // Fail-fast: `c` is never offered for upload.
    assert_eq!(s.next_file(), None);
    assert!(!s.succeeded());
    assert_eq!(s.failed_file(), Some("b".to_string()));
    match s.outcome() {
        Err(SyncError::UploadFailed { status, body }) => {
            assert_eq!(status, 500);
            assert_eq!(body, "server out of sorts");
        },
        other => panic!("expected the upload failure, got {:?}", other.is_ok()),
    }
}

#[test]
fn empty_push_succeeds_at_once() {
    let s = PushSession::new(files(&[]));
    assert_eq!(s.next_file(), None);
    assert!(s.succeeded());
    assert!(s.outcome().is_ok());
}

#[test]
fn upload_outcome_splits_on_status() {
    assert!(upload_outcome(200, String::new()).is_ok());
    assert!(upload_outcome(204, String::new()).is_ok());
    assert!(upload_outcome(299, String::new()).is_ok());
    match upload_outcome(403, "forbidden".to_string()) {
        Err(SyncError::UploadFailed { status, body }) => {
            assert_eq!(status, 403);
            assert_eq!(body, "forbidden");
        },
        _ => panic!("a 403 answer must fail"),
    }
    assert!(upload_outcome(301, String::new()).is_err());
    assert!(upload_outcome(199, String::new()).is_err());
}

#[test]
fn push_stopped_midway_is_a_transport_failure() {
    let mut s = PushSession::new(files(&["a", "b"]));
    s.record_success();
    // The driver gave out before the second upload was answered.
    assert!(matches!(s.outcome(), Err(SyncError::NetworkError)));
}
