//! Session marker timestamps.
//!
//! A session's marker object holds its creation time as RFC 3339 text —
//! a sortable, unambiguous format. Rendering and parsing are done by the
//! `chrono` crate; this module states what those calls return and builds
//! the verified marker encoding and decoding on top of them.

use vstd::prelude::*;

verus! {

/// The RFC 3339 text chrono renders for an epoch-second timestamp.
pub uninterp spec fn rfc3339_of(secs: i64) -> Seq<char>;

/// The epoch seconds chrono reads back from RFC 3339 text.
pub uninterp spec fn parse_rfc3339_secs(s: Seq<char>) -> Option<i64>;

/// Relies on chrono's `DateTime::from_timestamp` and `to_rfc3339`: the
/// text depends on the seconds alone. For timestamps between the epoch
/// and the stated bound (far past the year 5000) the rendering succeeds,
/// its year has four digits as RFC 3339 demands, and parsing the text
/// gives the seconds back. Outside that range nothing more is claimed:
/// chrono renders far-off years with a sign and five digits, which its
/// own RFC 3339 parser does not read back.
#[verifier::external_body]
pub fn format_rfc3339(secs: i64) -> (r: Option<String>)
    ensures
        match r {
            Some(t) => t@ == rfc3339_of(secs),
            None => true,
        },
        0 <= secs < 100000000000i64 ==> r is Some,
        r is Some && 0 <= secs < 100000000000i64 ==> parse_rfc3339_secs(rfc3339_of(secs))
            == Some(secs),
{
    chrono::DateTime::<chrono::Utc>::from_timestamp(secs, 0).map(|dt| dt.to_rfc3339())
}

/// Relies on chrono's `DateTime::parse_from_rfc3339` (and `timestamp`):
/// the result depends on the text alone.
#[verifier::external_body]
pub fn parse_rfc3339(s: &str) -> (r: Option<i64>)
    ensures
        r == parse_rfc3339_secs(s@),
{
    chrono::DateTime::parse_from_rfc3339(s).ok().map(|dt| dt.timestamp())
}

/// Relies on std's `String::from_utf8`: it decodes exactly the valid
/// UTF-8 byte sequences.
#[verifier::external_body]
pub fn bytes_to_string(v: &Vec<u8>) -> (r: Option<String>)
    ensures
        r is Some <==> vstd::utf8::valid_utf8(v@),
        match r {
            Some(t) => t@ == vstd::utf8::decode_utf8(v@),
            None => true,
        },
{
    String::from_utf8(v.clone()).ok()
}

/// The bytes a session marker holds for a creation time.
pub open spec fn marker_body(secs: i64) -> Seq<u8> {
    vstd::utf8::encode_utf8(rfc3339_of(secs))
}

/// The timestamp a marker body denotes: its UTF-8 text read as RFC 3339.
/// A body that is not UTF-8, or whose text does not parse, denotes none.
pub open spec fn marker_ts(b: Seq<u8>) -> Option<i64> {
    if vstd::utf8::valid_utf8(b) {
        parse_rfc3339_secs(vstd::utf8::decode_utf8(b))
    } else {
        None
    }
}

/// Reads a marker body back as a timestamp.
pub fn parse_marker(b: &Vec<u8>) -> (r: Option<i64>)
    ensures
        r == marker_ts(b@),
{
    match bytes_to_string(b) {
        Some(t) => parse_rfc3339(t.as_str()),
        None => None,
    }
}

/// Renders a marker body for a creation time.
///
/// For every timestamp between the epoch and the far-future bound the
/// rendering succeeds and the body reads back as exactly the given time.
pub fn render_marker(secs: i64) -> (r: Option<Vec<u8>>)
    ensures
        match r {
            Some(b) => b@ == marker_body(secs),
            None => true,
        },
        0 <= secs < 100000000000i64 ==> r is Some,
        r is Some && 0 <= secs < 100000000000i64 ==> marker_ts(marker_body(secs)) == Some(secs),
{
    match format_rfc3339(secs) {
        Some(t) => {
            let b = t.as_str().as_bytes_vec();
            proof {
                vstd::utf8::encode_utf8_valid_utf8(t@);
                vstd::utf8::encode_utf8_decode_utf8(t@);
            }
            Some(b)
        },
        None => None,
    }
}

} // verus!
