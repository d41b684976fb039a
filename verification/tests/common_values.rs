use starry::{Timestamp, UserId};

#[test]
fn user_id_keeps_the_login() {
    let id = UserId::new("alice");
    assert_eq!(id.login, "alice");
    assert_eq!(id.to_string(), "alice");
    assert!(id == UserId::new("alice"));
    assert!(id != UserId::new("Alice"));
}

#[test]
fn timestamp_formats_as_rfc3339_seconds() {
    let t = Timestamp::from_secs(1_600_000_000).unwrap();
    assert_eq!(t.secs(), 1_600_000_000);
    assert_eq!(t.to_rfc3339(), "2020-09-13T12:26:40Z");
    assert_eq!(Timestamp::from_secs(0).unwrap().to_rfc3339(), "1970-01-01T00:00:00Z");
    assert_eq!(Timestamp::from_secs(-1).unwrap().to_rfc3339(), "1969-12-31T23:59:59Z");
}

#[test]
fn timestamp_parses_rfc3339() {
    let t = Timestamp::parse_from_rfc3339("2020-09-13T12:26:40Z").unwrap();
    assert_eq!(t.secs(), 1_600_000_000);
    let shifted = Timestamp::parse_from_rfc3339("2020-09-13T14:26:40+02:00").unwrap();
    assert_eq!(shifted, t);
    let fraction = Timestamp::parse_from_rfc3339("2020-09-13T12:26:40.750Z").unwrap();
    assert_eq!(fraction.secs(), 1_600_000_000);
}

#[test]
fn timestamp_rejects_what_is_no_date() {
    assert!(Timestamp::parse_from_rfc3339("yesterday").is_none());
    assert!(Timestamp::parse_from_rfc3339("").is_none());
    assert!(Timestamp::parse_from_rfc3339("2020-09-13").is_none());
    assert!(Timestamp::parse_from_rfc3339("2020-13-13T12:26:40Z").is_none());
}

#[test]
fn timestamp_refuses_seconds_out_of_range() {
    assert!(Timestamp::from_secs(i64::MAX).is_none());
    assert!(Timestamp::from_secs(i64::MIN).is_none());
}

#[test]
fn timestamp_round_trips_through_its_text() {
    for secs in [0i64, 1, 59, 86_399, 86_400, 951_782_400, 1_600_000_000, 4_102_444_800, -86_400] {
        let t = Timestamp::from_secs(secs).unwrap();
        assert_eq!(Timestamp::parse_from_rfc3339(&t.to_rfc3339()), Some(t));
    }
}
