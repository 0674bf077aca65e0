use banyan_s3::manager::{
    CloudStorageForMultipartConstruction, MarkerStatus, SweepAction, sweep_decision,
    RETENTION_SECONDS,
};
use banyan_s3::paths::SafeString;

const NOW: i64 = 1700000000;
const DAY: i64 = 60 * 60 * 24;

fn session(mgr: &mut CloudStorageForMultipartConstruction, id: &str, created: i64) -> SafeString {
    let b = SafeString::new(String::from("bucket"));
    let k = SafeString::new(String::from("key"));
    let uid = SafeString::new(String::from(id));
    assert!(mgr.create_multipart_upload_folder(&b, &k, &uid, created).is_ok());
    assert!(mgr.upload_part(&b, &k, &uid, 1, vec![1]).is_ok());
    uid
}

fn session_exists(mgr: &CloudStorageForMultipartConstruction, uid: &SafeString) -> bool {
    let b = SafeString::new(String::from("bucket"));
    let k = SafeString::new(String::from("key"));
    mgr.check_upload_exists(&b, &k, uid).unwrap()
}

#[test]
fn sweep_keeps_fresh_and_reclaims_expired_sessions() {
    let mut mgr = CloudStorageForMultipartConstruction::new(10);
    let fresh = session(&mut mgr, "uid-fresh", NOW - 60 * 60);
    let stale = session(&mut mgr, "uid-stale", NOW - 8 * DAY);
    assert!(mgr.run_cleanup_sweep(NOW).is_ok());
    assert!(session_exists(&mgr, &fresh));
    assert!(!session_exists(&mgr, &stale));
}

#[test]
fn sweep_reclaims_markerless_sessions() {
    let mut mgr = CloudStorageForMultipartConstruction::new(10);
    // parts without any marker: the session was never validly initiated
    mgr.store.upload(vec![String::from("orphan"), String::from("1")], vec![1]);
    let kept = session(&mut mgr, "uid-kept", NOW);
    assert!(mgr.run_cleanup_sweep(NOW).is_ok());
    assert_eq!(mgr.store.get(&vec![String::from("orphan"), String::from("1")]), None);
    assert!(session_exists(&mgr, &kept));
}

#[test]
fn sweep_reclaims_sessions_with_unreadable_markers() {
    let mut mgr = CloudStorageForMultipartConstruction::new(10);
    mgr.store.upload(
        vec![String::from("bad"), String::from("marker")],
        b"not a timestamp".to_vec(),
    );
    mgr.store.upload(vec![String::from("bad"), String::from("1")], vec![1]);
    // a marker that is not even text is just as corrupt
    mgr.store.upload(
        vec![String::from("worse"), String::from("marker")],
        vec![0xff, 0xfe, 0x80],
    );
    assert!(mgr.run_cleanup_sweep(NOW).is_ok());
    assert_eq!(mgr.store.get(&vec![String::from("bad"), String::from("marker")]), None);
    assert_eq!(mgr.store.get(&vec![String::from("bad"), String::from("1")]), None);
    assert_eq!(mgr.store.get(&vec![String::from("worse"), String::from("marker")]), None);
}

#[test]
fn sweep_deletes_loose_objects_at_the_root() {
    let mut mgr = CloudStorageForMultipartConstruction::new(10);
    mgr.store.upload(vec![String::from("loose-object")], vec![1, 2]);
    let kept = session(&mut mgr, "uid-kept2", NOW);
    assert!(mgr.run_cleanup_sweep(NOW).is_ok());
    assert_eq!(mgr.store.get(&vec![String::from("loose-object")]), None);
    assert!(session_exists(&mgr, &kept));
}

#[test]
fn sweep_boundary_is_strictly_older_than_retention() {
    let mut mgr = CloudStorageForMultipartConstruction::new(3);
    let at_limit = session(&mut mgr, "uid-limit", NOW - RETENTION_SECONDS);
    let just_over = session(&mut mgr, "uid-over", NOW - RETENTION_SECONDS - 1);
    assert!(mgr.run_cleanup_sweep(NOW).is_ok());
    assert!(session_exists(&mgr, &at_limit));
    assert!(!session_exists(&mgr, &just_over));
}

#[test]
fn decision_deletes_expired_retains_fresh_skips_unreadable() {
    assert_eq!(
        sweep_decision(&MarkerStatus::Present(NOW - 8 * DAY), NOW),
        SweepAction::Delete
    );
    assert_eq!(
        sweep_decision(&MarkerStatus::Present(NOW - 60 * 60), NOW),
        SweepAction::Retain
    );
    assert_eq!(sweep_decision(&MarkerStatus::AbsentOrCorrupt, NOW), SweepAction::Delete);
    assert_eq!(sweep_decision(&MarkerStatus::ReadError, NOW), SweepAction::Skip);
}

#[test]
fn decision_does_not_overflow_on_extreme_times() {
    assert_eq!(
        sweep_decision(&MarkerStatus::Present(i64::MIN), i64::MAX),
        SweepAction::Delete
    );
    assert_eq!(
        sweep_decision(&MarkerStatus::Present(i64::MAX), i64::MIN),
        SweepAction::Retain
    );
}

#[test]
fn marker_contents_are_readable_until_corrupted() {
    let mut mgr = CloudStorageForMultipartConstruction::new(10);
    let b = SafeString::new(String::from("bucket"));
    let k = SafeString::new(String::from("key"));
    let id = SafeString::new(String::from("uid-m"));
    let root = banyan_s3::paths::upload_root(&b, &k, &id);
    assert_eq!(mgr.get_marker_contents(&root), None);
    assert!(mgr.create_multipart_upload_folder(&b, &k, &id, NOW).is_ok());
    assert_eq!(mgr.get_marker_contents(&root), Some(NOW));
    mgr.store.upload(vec![root.clone(), String::from("marker")], b"junk".to_vec());
    assert_eq!(mgr.get_marker_contents(&root), None);
}
