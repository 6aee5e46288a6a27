use led_circuit::timestamp::Timestamp;

const NOON: i64 = 1_704_110_400;

#[test]
fn a_utc_timestamp_is_read() {
    assert_eq!(
        Timestamp::parse("2024-01-01T12:00:00Z"),
        Some(Timestamp { secs: NOON, nanos: 0 })
    );
    assert_eq!(
        Timestamp::parse("1970-01-01T00:00:00Z"),
        Some(Timestamp { secs: 0, nanos: 0 })
    );
    assert_eq!(
        Timestamp::parse("1969-12-31T23:59:59Z"),
        Some(Timestamp { secs: -1, nanos: 0 })
    );
}

#[test]
fn the_same_instant_is_read_from_each_way_of_writing_it() {
    let expected = Some(Timestamp::new(NOON, 0));
    assert_eq!(Timestamp::parse("2024-01-01T12:00:00Z"), expected);
    assert_eq!(Timestamp::parse("2024-01-01T12:00:00+00:00"), expected);
    assert_eq!(Timestamp::parse("2024-01-01T12:00:00-00:00"), expected);
    assert_eq!(Timestamp::parse("2024-01-01 12:00:00Z"), expected);
    assert_eq!(Timestamp::parse("2024-01-01T12:00:00.000Z"), expected);
    assert_eq!(Timestamp::parse("2024-01-01T12:00:00.000000000+00:00"), expected);
}

#[test]
fn fractions_of_a_second_are_kept() {
    assert_eq!(
        Timestamp::parse("2024-01-01T12:00:00.5Z"),
        Some(Timestamp { secs: NOON, nanos: 500_000_000 })
    );
    assert_eq!(
        Timestamp::parse("2024-01-01T12:00:05.000000001Z"),
        Some(Timestamp { secs: NOON + 5, nanos: 1 })
    );
}

#[test]
fn an_offset_other_than_utc_is_rejected() {
    assert_eq!(Timestamp::parse("2024-01-01T13:00:00+01:00"), None);
    assert_eq!(Timestamp::parse("2024-01-01T07:00:00-05:00"), None);
}

#[test]
fn text_that_is_no_timestamp_is_rejected() {
    assert_eq!(Timestamp::parse(""), None);
    assert_eq!(Timestamp::parse("yesterday"), None);
    assert_eq!(Timestamp::parse("2024-01-01"), None);
    assert_eq!(Timestamp::parse("2024-01-01T12:00:00"), None);
    assert_eq!(Timestamp::parse("2024-13-01T12:00:00Z"), None);
    assert_eq!(Timestamp::parse("2024-01-01T25:00:00Z"), None);
    assert_eq!(Timestamp::parse("1704110400"), None);
    assert_eq!(Timestamp::parse("2024-01-01T12:00:00Z trailing"), None);
}

#[test]
fn new_keeps_both_parts() {
    let t = Timestamp::new(-5, 17);
    assert_eq!(t.secs, -5);
    assert_eq!(t.nanos, 17);
    assert_eq!(t, Timestamp { secs: -5, nanos: 17 });
}

#[test]
fn an_instant_is_reached_at_and_after_its_time() {
    let start = Timestamp::new(NOON, 0);
    let at = Timestamp::new(NOON + 5, 0);
    assert!(!start.has_reached(0, &at));
    assert!(!start.has_reached(4, &at));
    assert!(start.has_reached(5, &at));
    assert!(start.has_reached(6, &at));
    assert!(start.has_reached(0, &start));
}

#[test]
fn nanoseconds_decide_within_one_second() {
    let start = Timestamp::new(100, 250);
    assert!(start.has_reached(3, &Timestamp::new(103, 250)));
    assert!(start.has_reached(3, &Timestamp::new(103, 249)));
    assert!(!start.has_reached(3, &Timestamp::new(103, 251)));
    assert!(start.has_reached(4, &Timestamp::new(103, 999_999_999)));
    assert!(!start.has_reached(2, &Timestamp::new(103, 0)));
}

#[test]
fn the_sum_of_start_and_elapsed_never_wraps() {
    let late = Timestamp::new(i64::MAX, 0);
    let early = Timestamp::new(i64::MIN, 0);
    assert!(late.has_reached(u64::MAX, &late));
    assert!(late.has_reached(u64::MAX, &early));
    assert!(early.has_reached(u64::MAX, &Timestamp::new(i64::MAX, 0)));
    assert!(!early.has_reached(u64::MAX - 1, &Timestamp::new(i64::MAX, 0)));
    assert!(!early.has_reached(0, &late));
}
