use banyan_s3::errors::GatewayError;
use banyan_s3::manager::CloudStorageForMultipartConstruction;
use banyan_s3::paths::SafeString;

const NOW: i64 = 1700000000;

fn names() -> (SafeString, SafeString, SafeString) {
    (
        SafeString::new(String::from("bucket")),
        SafeString::new(String::from("object/key")),
        SafeString::new(String::from("uid-1")),
    )
}

#[test]
fn create_then_exists() {
    let mut mgr = CloudStorageForMultipartConstruction::new(10);
    let (b, k, id) = names();
    assert_eq!(mgr.check_upload_exists(&b, &k, &id), Ok(false));
    assert!(mgr.create_multipart_upload_folder(&b, &k, &id, NOW).is_ok());
    assert_eq!(mgr.check_upload_exists(&b, &k, &id), Ok(true));
}

#[test]
fn create_is_idempotent() {
    let mut mgr = CloudStorageForMultipartConstruction::new(10);
    let (b, k, id) = names();
    assert!(mgr.create_multipart_upload_folder(&b, &k, &id, NOW).is_ok());
    assert!(mgr.create_multipart_upload_folder(&b, &k, &id, NOW + 5).is_ok());
    assert_eq!(mgr.check_upload_exists(&b, &k, &id), Ok(true));
}

#[test]
fn round_trip_contiguous_parts_complete() {
    let mut mgr = CloudStorageForMultipartConstruction::new(10);
    let (b, k, id) = names();
    assert!(mgr.create_multipart_upload_folder(&b, &k, &id, NOW).is_ok());
    assert!(mgr.upload_part(&b, &k, &id, 1, vec![10, 11]).is_ok());
    assert!(mgr.upload_part(&b, &k, &id, 2, vec![20]).is_ok());
    assert!(mgr.upload_part(&b, &k, &id, 3, vec![30, 31, 32]).is_ok());
    let assembled = mgr.finish_upload(&b, &k, &id);
    assert_eq!(assembled, Ok(vec![10, 11, 20, 30, 31, 32]));
}

#[test]
fn round_trip_with_tiny_pages() {
    let mut mgr = CloudStorageForMultipartConstruction::new(1);
    let (b, k, id) = names();
    assert!(mgr.create_multipart_upload_folder(&b, &k, &id, NOW).is_ok());
    for n in 1..=5u32 {
        assert!(mgr.upload_part(&b, &k, &id, n, vec![n as u8]).is_ok());
    }
    assert_eq!(mgr.finish_upload(&b, &k, &id), Ok(vec![1, 2, 3, 4, 5]));
}

#[test]
fn gap_fails_with_invalid_parts() {
    let mut mgr = CloudStorageForMultipartConstruction::new(10);
    let (b, k, id) = names();
    assert!(mgr.create_multipart_upload_folder(&b, &k, &id, NOW).is_ok());
    assert!(mgr.upload_part(&b, &k, &id, 1, vec![1]).is_ok());
    assert!(mgr.upload_part(&b, &k, &id, 3, vec![3]).is_ok());
    assert_eq!(mgr.finish_upload(&b, &k, &id), Err(GatewayError::InvalidParts));
    // retry after filling the gap succeeds
    assert!(mgr.upload_part(&b, &k, &id, 2, vec![2]).is_ok());
    assert_eq!(mgr.finish_upload(&b, &k, &id), Ok(vec![1, 2, 3]));
}

#[test]
fn no_parts_fails_with_invalid_parts() {
    let mut mgr = CloudStorageForMultipartConstruction::new(10);
    let (b, k, id) = names();
    assert!(mgr.create_multipart_upload_folder(&b, &k, &id, NOW).is_ok());
    assert_eq!(mgr.finish_upload(&b, &k, &id), Err(GatewayError::InvalidParts));
}

#[test]
fn overwriting_a_part_keeps_the_last_write() {
    let mut mgr = CloudStorageForMultipartConstruction::new(10);
    let (b, k, id) = names();
    assert!(mgr.create_multipart_upload_folder(&b, &k, &id, NOW).is_ok());
    assert!(mgr.upload_part(&b, &k, &id, 1, vec![1, 1, 1]).is_ok());
    assert!(mgr.upload_part(&b, &k, &id, 1, vec![7]).is_ok());
    assert_eq!(mgr.finish_upload(&b, &k, &id), Ok(vec![7]));
}

#[test]
fn abort_removes_the_session() {
    let mut mgr = CloudStorageForMultipartConstruction::new(10);
    let (b, k, id) = names();
    assert!(mgr.create_multipart_upload_folder(&b, &k, &id, NOW).is_ok());
    assert!(mgr.upload_part(&b, &k, &id, 1, vec![1]).is_ok());
    assert!(mgr.cleanup_upload(&b, &k, &id).is_ok());
    assert_eq!(mgr.check_upload_exists(&b, &k, &id), Ok(false));
}

#[test]
fn abort_leaves_other_sessions_alone() {
    let mut mgr = CloudStorageForMultipartConstruction::new(2);
    let (b, k, id) = names();
    let other = SafeString::new(String::from("uid-2"));
    assert!(mgr.create_multipart_upload_folder(&b, &k, &id, NOW).is_ok());
    assert!(mgr.create_multipart_upload_folder(&b, &k, &other, NOW).is_ok());
    assert!(mgr.upload_part(&b, &k, &other, 1, vec![5]).is_ok());
    assert!(mgr.cleanup_upload(&b, &k, &id).is_ok());
    assert_eq!(mgr.check_upload_exists(&b, &k, &id), Ok(false));
    assert_eq!(mgr.check_upload_exists(&b, &k, &other), Ok(true));
    assert_eq!(mgr.finish_upload(&b, &k, &other), Ok(vec![5]));
}

#[test]
fn rm_rf_clears_deep_hierarchies_at_any_page_size() {
    for page_size in 1..=4usize {
        let mut mgr = CloudStorageForMultipartConstruction::new(page_size);
        let seg = |s: &str| String::from(s);
        mgr.store.upload(vec![seg("top"), seg("a")], vec![1]);
        mgr.store.upload(vec![seg("top"), seg("d1"), seg("b")], vec![2]);
        mgr.store.upload(vec![seg("top"), seg("d1"), seg("d2"), seg("c")], vec![3]);
        mgr.store.upload(vec![seg("top"), seg("d3"), seg("e")], vec![4]);
        mgr.store.upload(vec![seg("elsewhere"), seg("x")], vec![9]);
        assert!(mgr.rm_rf(vec![seg("top")]).is_ok());
        // nothing listable below the removed prefix, at any page size
        let page = mgr.store.list(&vec![seg("top")], 0);
        assert!(page.items.is_empty());
        assert!(page.sub_prefixes.is_empty());
        assert_eq!(mgr.store.get(&vec![seg("top"), seg("a")]), None);
        assert_eq!(mgr.store.get(&vec![seg("top"), seg("d1"), seg("d2"), seg("c")]), None);
        // everything outside it is untouched
        assert_eq!(mgr.store.get(&vec![seg("elsewhere"), seg("x")]), Some(&vec![9]));
    }
}
