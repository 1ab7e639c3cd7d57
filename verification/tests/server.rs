//! The day's labels and idle marks, the request's parameters, and the name of this device.

use aw_combined::requests::parse_ts;
use aw_combined::time::Timestamp;
use aw_combined::timeline::{is_idle, own_name_from, AFK_STATUS_KEY};
use aw_combined::{activity_label, Data, Duration, Event, Instant};

fn data(json: &str) -> Data {
    Data::parse(json).unwrap()
}

fn event(data: Data) -> Event {
    Event {
        id: None,
        timestamp: Instant::from_nanos(0).unwrap(),
        duration: Duration::seconds(1),
        data,
    }
}

fn rfc3339(t: Timestamp) -> String {
    chrono::DateTime::from_timestamp(t.secs, t.subsec).unwrap().to_rfc3339()
}

fn buckets(pairs: &[(&str, &str)]) -> Vec<(String, String)> {
    pairs.iter().map(|(id, host)| (id.to_string(), host.to_string())).collect()
}

#[test]
fn test_event() {
    let e = event(data(r#"{"test":1}"#));
    println!("event: {e:?}");
    assert_eq!(e.data.text, r#"{"test":1}"#);
    assert_eq!(e.data.get("test"), None, "a number is no string field");
    assert_eq!(Some(e.calculate_endtime()), Instant::from_nanos(1_000_000_000));
}

#[test]
fn label_prefers_app_then_title_then_url() {
    assert_eq!(activity_label(&data(r#"{"app":"YouTube"}"#)), "YouTube");
    assert_eq!(activity_label(&data(r#"{"title":"A page"}"#)), "A page");
    assert_eq!(activity_label(&data("{}")), "(unknown)");
}

#[test]
fn label_skips_empty_strings() {
    assert_eq!(activity_label(&data(r#"{"app":"","title":"fallback"}"#)), "fallback");
}

#[test]
fn is_idle_only_matches_afk_status() {
    let mk = |v: &str| event(data(&format!(r#"{{"{AFK_STATUS_KEY}":{v}}}"#)));
    assert!(is_idle(&mk(r#""afk""#)));
    assert!(!is_idle(&mk(r#""not-afk""#)));
    assert!(!is_idle(&mk("42")));
    assert!(!is_idle(&event(data("{}"))));
}

#[test]
fn parse_ts_accepts_a_browser_iso_string() {
    let t = parse_ts("start", "2026-09-09T00:00:00.000Z").unwrap();
    assert_eq!(rfc3339(t), "2026-09-09T00:00:00+00:00");
}

#[test]
fn parse_ts_keeps_the_instant_when_an_offset_is_given() {
    let t = parse_ts("start", "2026-09-09T02:00:00+02:00").unwrap();
    assert_eq!(rfc3339(t), "2026-09-09T00:00:00+00:00");
}

#[test]
fn parse_ts_names_the_offending_parameter() {
    let msg = parse_ts("end", "not a date").unwrap_err();
    assert!(msg.contains("`end`"), "message should name the parameter: {msg}");
}

#[test]
fn own_name_is_what_this_devices_own_watchers_call_it() {
    let name = own_name_from(&buckets(&[
        ("aw-watcher-android-test", "jude_s_s25_ultra"),
        ("aw-watcher-android-unlock", "jude_s_s25_ultra"),
        ("aw-watcher-android-test-synced-from-galaxy_tab_s9", "galaxy_tab_s9"),
    ]));
    assert_eq!(name.as_deref(), Some("jude_s_s25_ultra"));
}

#[test]
fn own_name_refuses_the_names_that_mean_i_do_not_know() {
    assert_eq!(own_name_from(&buckets(&[("aw-server", "localhost")])), None);
    assert_eq!(own_name_from(&buckets(&[("aw-watcher-android-test", "unknown")])), None);
    assert_eq!(own_name_from(&buckets(&[("aw-watcher-android-test", "  ")])), None);
}

#[test]
fn own_name_does_not_guess_when_its_own_buckets_disagree() {
    let name = own_name_from(&buckets(&[
        ("aw-watcher-android-test", "jude_s_s25_ultra"),
        ("aw-stopwatch", "an_older_name"),
    ]));
    assert_eq!(name, None);
}

#[test]
fn own_name_is_none_before_any_watcher_has_run() {
    assert_eq!(own_name_from(&buckets(&[])), None);
}
