use banyan_s3::timefmt::{format_rfc3339, parse_marker, parse_rfc3339, render_marker};

#[test]
fn format_renders_rfc3339() {
    let t = format_rfc3339(0).unwrap();
    assert_eq!(t.as_str(), "1970-01-01T00:00:00+00:00");
}

#[test]
fn parse_reads_rfc3339_epochs() {
    assert_eq!(parse_rfc3339("1970-01-01T00:00:00+00:00"), Some(0));
    assert_eq!(parse_rfc3339("2023-01-01T00:00:00+00:00"), Some(1672531200));
    assert_eq!(parse_rfc3339("2023-01-01T01:00:00+01:00"), Some(1672531200));
    assert_eq!(parse_rfc3339("yesterday-ish"), None);
    assert_eq!(parse_rfc3339(""), None);
}

#[test]
fn marker_round_trips_through_bytes() {
    for t in [0i64, 1700000000, 4102444800] {
        let body = render_marker(t).unwrap();
        assert_eq!(parse_marker(&body), Some(t));
    }
}

#[test]
fn garbage_markers_parse_to_none() {
    assert_eq!(parse_marker(&b"gibberish".to_vec()), None);
    assert_eq!(parse_marker(&vec![0xff, 0x00, 0x80]), None);
    assert_eq!(parse_marker(&Vec::new()), None);
}
