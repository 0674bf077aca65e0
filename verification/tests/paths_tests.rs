use banyan_s3::paths::{SafeString, upload_root, dec_string, parse_part_segment};

#[test]
fn safe_string_escapes_slashes() {
    let s = SafeString::new(String::from("a/b/c"));
    assert_eq!(s.as_str(), "a%2Fb%2Fc");
}

#[test]
fn safe_string_keeps_clean_names() {
    let s = SafeString::new(String::from("bucket_name.01"));
    assert_eq!(s.as_str(), "bucket_name.01");
}

#[test]
fn safe_string_escapes_joiner_and_lead() {
    assert_eq!(SafeString::new(String::from("a-b")).as_str(), "a%2Db");
    assert_eq!(SafeString::new(String::from("100%")).as_str(), "100%25");
    assert_eq!(SafeString::new(String::from("a%2Fb")).as_str(), "a%252Fb");
}

#[test]
fn safe_string_empty() {
    let s = SafeString::new(String::new());
    assert_eq!(s.as_str(), "");
}

#[test]
fn upload_root_joins_components() {
    let b = SafeString::new(String::from("bucket"));
    let k = SafeString::new(String::from("some/key"));
    let id = SafeString::new(String::from("uid42"));
    let root = upload_root(&b, &k, &id);
    assert_eq!(root.as_str(), "bucket-some%2Fkey-uid42");
}

#[test]
fn dashed_components_cannot_collide() {
    // without escaping the joiner these two triples would share a root
    let r1 = upload_root(
        &SafeString::new(String::from("a")),
        &SafeString::new(String::from("b-c")),
        &SafeString::new(String::from("d")),
    );
    let r2 = upload_root(
        &SafeString::new(String::from("a-b")),
        &SafeString::new(String::from("c")),
        &SafeString::new(String::from("d")),
    );
    assert_ne!(r1, r2);
}

#[test]
fn distinct_triples_get_distinct_roots() {
    let r1 = upload_root(
        &SafeString::new(String::from("alpha")),
        &SafeString::new(String::from("beta")),
        &SafeString::new(String::from("gamma")),
    );
    let r2 = upload_root(
        &SafeString::new(String::from("alpha")),
        &SafeString::new(String::from("beta")),
        &SafeString::new(String::from("delta")),
    );
    assert_ne!(r1, r2);
}

#[test]
fn dec_string_renders_decimal() {
    assert_eq!(dec_string(0).as_str(), "0");
    assert_eq!(dec_string(7).as_str(), "7");
    assert_eq!(dec_string(10).as_str(), "10");
    assert_eq!(dec_string(9999).as_str(), "9999");
}

#[test]
fn parse_part_segment_round_trips() {
    assert_eq!(parse_part_segment("0"), Some(0));
    assert_eq!(parse_part_segment("1"), Some(1));
    assert_eq!(parse_part_segment("42"), Some(42));
    assert_eq!(parse_part_segment("9999"), Some(9999));
}

#[test]
fn parse_part_segment_rejects_junk() {
    assert_eq!(parse_part_segment(""), None);
    assert_eq!(parse_part_segment("marker"), None);
    assert_eq!(parse_part_segment("01"), None);
    assert_eq!(parse_part_segment("1a"), None);
    assert_eq!(parse_part_segment("10000"), None);
    assert_eq!(parse_part_segment("123456"), None);
    assert_eq!(parse_part_segment("-3"), None);
}
