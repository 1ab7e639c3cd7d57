//! Instants, durations and how they are written.

use aw_combined::decision::{wins, Decision, SharedRecord};
use aw_combined::time::{parse_stamp, read_stamp, Timestamp};
use aw_combined::{parse_line, Duration, Instant};

fn nanos(n: i128) -> Instant {
    Instant::from_nanos(n).unwrap()
}

#[test]
fn an_instant_is_bounded() {
    assert!(Instant::from_nanos(i128::MAX).is_none());
    assert!(Instant::from_nanos(i128::MIN).is_none());
    assert_eq!(nanos(-1).nanos(), -1);
    let day = Duration::seconds(86_400);
    assert_eq!(nanos(0).plus(day), Some(nanos(86_400_000_000_000)));
    assert_eq!(nanos(0).plus(Duration { nanos: i128::MAX }), None);
    assert_eq!(nanos(5).since(nanos(8)), Duration { nanos: -3 });
    assert!(nanos(1).earlier_than(nanos(2)));
    assert_eq!(nanos(1).earlier_of(nanos(2)), nanos(1));
    assert_eq!(nanos(1).later_of(nanos(2)), nanos(2));
}

#[test]
fn durations_are_cut_toward_zero() {
    assert_eq!(Duration::milliseconds(1999).num_seconds(), 1);
    assert_eq!(Duration::milliseconds(-1999).num_seconds(), -1);
    assert_eq!(Duration { nanos: 1_999_999 }.num_milliseconds(), 1);
    assert_eq!(Duration { nanos: -1_999_999 }.num_milliseconds(), -1);
    assert_eq!(Duration::seconds(3).num_milliseconds(), 3000);
}

#[test]
fn an_instant_before_1970_is_written_like_any_other() {
    assert_eq!(nanos(-1).to_rfc3339(), "1969-12-31T23:59:59.999999999Z");
    let stamp = Timestamp::of(nanos(-1_500_000_000));
    assert_eq!(stamp, Timestamp { secs: -2, subsec: 500_000_000 });
    assert_eq!(Instant::of(stamp), Some(nanos(-1_500_000_000)));
}

#[test]
fn a_written_instant_has_no_more_digits_than_it_needs() {
    assert_eq!(nanos(1_789_034_400_000_000_000).to_rfc3339(), "2026-09-10T10:00:00Z");
    assert_eq!(nanos(1_789_034_400_250_000_000).to_rfc3339(), "2026-09-10T10:00:00.250Z");
    assert_eq!(nanos(1_789_034_400_000_250_000).to_rfc3339(), "2026-09-10T10:00:00.000250Z");
}

#[test]
fn a_timestamp_reads_as_the_instant_it_names() {
    let a = parse_stamp("2026-09-10T12:00:00+02:00").unwrap();
    let b = parse_stamp("2026-09-10T10:00:00Z").unwrap();
    assert_eq!(a, b);
    assert_eq!(a.secs, 1_789_034_400);
    assert!(parse_stamp("2026-09-10").is_none());
    assert!(read_stamp("yesterday").is_err());
    let later = parse_stamp("2026-09-10T10:00:00.000000001Z").unwrap();
    assert!(a.is_before(later) && !later.is_before(a));
    assert_eq!(later.display(), "2026-09-10 10:00:00.000000001 UTC");
}

fn decision(id: &str, at: &str, by: &str) -> Decision {
    let line = format!(
        r#"{{"type":"decision","id":"{id}","created_at":"{at}","created_by":"{by}","window":{{"start":"2026-09-10T10:00:00Z","end":"2026-09-10T11:00:00Z"}},"signature":{{"participants":[]}},"resolution":{{"outcome":"ignore"}},"scope":"once"}}"#
    );
    match parse_line(&line) {
        Some(SharedRecord::Decision(d)) => d,
        other => panic!("{other:?}"),
    }
}

#[test]
fn of_two_decisions_exactly_one_wins() {
    let pairs = [
        (("a", "2026-09-10T12:00:00Z", "x"), ("b", "2026-09-10T11:00:00Z", "x")),
        (("b", "2026-09-10T12:00:00Z", "a"), ("a", "2026-09-10T12:00:00Z", "b")),
        (("a", "2026-09-10T12:00:00Z", "a"), ("b", "2026-09-10T12:00:00Z", "a")),
        (("b", "2026-09-10T12:00:00Z", "a"), ("a", "yesterday", "a")),
        (("b", "2026-09-10T12:00:00Z", "a"), ("a", "2026-09-10T14:00:00+02:00", "b")),
        (("b", "2026-09-10T14:00:00+02:00", "a"), ("a", "2026-09-10T12:00:00Z", "b")),
        (("a", "2026-09-10T12:00:00Z", "a"), ("b", "2026-09-10T14:00:00+02:00", "a")),
        (("a", "tuesday", "b"), ("b", "monday", "a")),
    ];
    for (first, second) in pairs {
        let (a, b) = (decision(first.0, first.1, first.2), decision(second.0, second.1, second.2));
        assert!(wins(&a, &b), "{a:?} against {b:?}");
        assert!(!wins(&b, &a), "{b:?} against {a:?}");
        assert!(!wins(&a, &a));
    }
}

#[test]
fn a_window_has_bounds_where_both_ends_are_timestamps() {
    let d = decision("a", "2026-09-10T12:00:00Z", "x");
    let (start, end) = d.window_bounds().unwrap();
    assert_eq!((start.secs, end.secs), (1_789_034_400, 1_789_038_000));
    assert!(!d.is_rule());
}
