use note_tracker::tracker::time::{
    decompose, format_time_for_output, format_time_since, parse_timestamp, store_timestamp,
    u64_to_string, Timestamp,
};
use note_tracker::tracker::TrackerError;

fn ts(secs: i64, nanos: u32) -> Timestamp {
    Timestamp::new(secs, nanos).unwrap()
}

#[test]
fn decompose_totals_are_independent() {
    // 1 day, 1 hour, 1 minute, 1 second
    let earlier = ts(0, 0);
    let later = ts(90061, 0);
    let b = decompose(&later, &earlier).unwrap();
    assert_eq!(b.days, 1);
    assert_eq!(b.hours, 25);
    assert_eq!(b.minutes, 1501);
    assert_eq!(b.seconds, 90061);
}

#[test]
fn decompose_rejects_equal_and_inverted() {
    let a = ts(1000, 0);
    let b = ts(2000, 0);
    assert_eq!(decompose(&a, &a), Err(TrackerError::InvalidOrder));
    assert_eq!(decompose(&a, &b), Err(TrackerError::InvalidOrder));
}

#[test]
fn format_since_zero_elapsed_is_empty() {
    let t = ts(123456, 789);
    let s = format_time_since(&t, &t).unwrap();
    assert_eq!(s, "");
}

#[test]
fn format_since_inverted_is_invalid_order() {
    let earlier = ts(100, 0);
    let later = ts(200, 0);
    assert_eq!(
        format_time_since(&later, &earlier),
        Err(TrackerError::InvalidOrder)
    );
}

#[test]
fn format_since_subsecond_span_is_empty() {
    let last = ts(100, 0);
    let now = ts(100, 999_999_999);
    assert_eq!(format_time_since(&last, &now).unwrap(), "");
}

#[test]
fn format_since_remainder_non_overlap() {
    // a span of exactly 90 seconds
    let last = ts(0, 0);
    let now = ts(90, 0);
    assert_eq!(format_time_since(&last, &now).unwrap(), "minutes: 1, seconds: 30, ");
}

#[test]
fn format_since_suppresses_zero_units() {
    // 1 day, 0 hours, 0 minutes, 5 seconds
    let last = ts(0, 0);
    let now = ts(86405, 0);
    assert_eq!(format_time_since(&last, &now).unwrap(), "days: 1, seconds: 5, ");
}

#[test]
fn format_since_all_units() {
    let last = ts(0, 0);
    let now = ts(90061, 0);
    assert_eq!(
        format_time_since(&last, &now).unwrap(),
        "days: 1, hours: 1, minutes: 1, seconds: 1, "
    );
}

#[test]
fn u64_to_string_exact() {
    assert_eq!(u64_to_string(0), "0");
    assert_eq!(u64_to_string(7), "7");
    assert_eq!(u64_to_string(10), "10");
    assert_eq!(u64_to_string(90061), "90061");
}

#[test]
fn parse_timestamp_known_instant() {
    let t = parse_timestamp("1970-01-02 00:00:05.250000000 +0000").unwrap();
    assert_eq!(t.secs, 86405);
    assert_eq!(t.nanos, 250_000_000);
}

#[test]
fn parse_timestamp_honours_offset() {
    // one o'clock at +0100 is five seconds past the epoch
    let t = parse_timestamp("1970-01-01 01:00:05.000000000 +0100").unwrap();
    assert_eq!(t.secs, 5);
    assert_eq!(t.nanos, 0);
}

#[test]
fn parse_timestamp_rejects_malformed_text() {
    assert_eq!(parse_timestamp("not a date"), Err(TrackerError::ParseError));
    assert_eq!(parse_timestamp("2024-01-01"), Err(TrackerError::ParseError));
    assert_eq!(parse_timestamp(""), Err(TrackerError::ParseError));
}

#[test]
fn format_time_for_output_known_instant() {
    let t = ts(86405, 250_000_000);
    assert_eq!(format_time_for_output(&t).unwrap(), "1970-01-02 00:00:05");
}

#[test]
fn store_timestamp_exact_form() {
    let t = ts(5, 0);
    assert_eq!(
        store_timestamp(&t).unwrap(),
        "1970-01-01 00:00:05.000000000 +0000"
    );
}

#[test]
fn store_timestamp_round_trips_through_parse() {
    let t = ts(1_234_567_890, 500_000_000);
    let text = store_timestamp(&t).unwrap();
    assert_eq!(parse_timestamp(&text).unwrap(), t);
}

#[test]
fn store_timestamp_out_of_calendar_range_errors() {
    // within the engine's bounds, far outside any calendar
    let t = ts(1_000_000_000_000_000_000, 0);
    assert_eq!(store_timestamp(&t), Err(TrackerError::DateTimeFormatting));
}

#[test]
fn timestamp_new_rejects_out_of_range_parts() {
    assert!(Timestamp::new(0, 1_000_000_000).is_none());
    assert!(Timestamp::new(2_000_000_000_000_000_001, 0).is_none());
    assert!(Timestamp::new(-2_000_000_000_000_000_001, 0).is_none());
    assert!(Timestamp::new(-5, 999_999_999).is_some());
}
