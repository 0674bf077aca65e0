use banyan_s3::errors::GatewayError;
use banyan_s3::part_tracker::PartTracker;

#[test]
fn empty_tracker_is_never_complete() {
    let t = PartTracker::new();
    assert!(!t.is_complete());
    assert_eq!(t.largest(), 0);
}

#[test]
fn contiguous_parts_are_complete() {
    let mut t = PartTracker::new();
    assert!(t.add_part(1).is_ok());
    assert!(t.add_part(2).is_ok());
    assert!(t.add_part(3).is_ok());
    assert!(t.is_complete());
    assert_eq!(t.largest(), 3);
}

#[test]
fn gap_is_not_complete() {
    let mut t = PartTracker::new();
    assert!(t.add_part(1).is_ok());
    assert!(t.add_part(3).is_ok());
    assert!(!t.is_complete());
    assert_eq!(t.largest(), 3);
    assert!(t.add_part(2).is_ok());
    assert!(t.is_complete());
}

#[test]
fn missing_first_part_is_not_complete() {
    let mut t = PartTracker::new();
    assert!(t.add_part(2).is_ok());
    assert!(!t.is_complete());
}

#[test]
fn largest_allowed_part_number_works() {
    let mut t = PartTracker::new();
    assert!(t.add_part(9999).is_ok());
    assert_eq!(t.has_part(9999), Ok(true));
    assert_eq!(t.has_part(9998), Ok(false));
    assert!(!t.is_complete());
}

#[test]
fn add_rejects_part_number_at_maximum() {
    let mut t = PartTracker::new();
    assert_eq!(t.add_part(10000), Err(GatewayError::PartNumberOutOfRange));
    assert_eq!(t.add_part(20000), Err(GatewayError::PartNumberOutOfRange));
}

#[test]
fn has_rejects_part_number_at_maximum() {
    let t = PartTracker::new();
    assert_eq!(t.has_part(10000), Err(GatewayError::PartNumberOutOfRange));
    assert_eq!(t.has_part(u32::MAX), Err(GatewayError::PartNumberOutOfRange));
}

#[test]
fn has_part_reports_membership() {
    let mut t = PartTracker::new();
    assert_eq!(t.has_part(5), Ok(false));
    assert!(t.add_part(5).is_ok());
    assert_eq!(t.has_part(5), Ok(true));
    assert_eq!(t.has_part(4), Ok(false));
    assert_eq!(t.has_part(6), Ok(false));
}
