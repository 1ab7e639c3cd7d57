//! What a caller asks for, checked before anything is computed.

use aw_combined::requests::{
    bare_setting, check_setting, check_span, clamp_sliver, greeting, names_asked, names_from,
    native_request, parse_ts, setting_key, timeline_request, widget_query, SettingError, MAX_SLIVER_SECS,
};

#[test]
fn a_span_must_run_forward() {
    let a = parse_ts("start", "2026-09-09T00:00:00Z").unwrap();
    let b = parse_ts("end", "2026-09-09T00:00:00.5Z").unwrap();
    assert_eq!(check_span(a, b), Ok(()));
    let err = check_span(a, a).unwrap_err();
    assert!(err.contains("2026-09-09 00:00:00 UTC"), "{err}");
    let err = check_span(b, a).unwrap_err();
    assert!(err.contains("2026-09-09 00:00:00.500 UTC"), "{err}");
}

#[test]
fn names_are_a_json_object_of_texts() {
    assert_eq!(names_asked(None).unwrap().len(), 0);
    let names = names_asked(Some(r#"{"desk":"uuid-1","phone":"uuid-2"}"#)).unwrap();
    assert_eq!(names.keys(), vec!["desk".to_string(), "phone".to_string()]);
    assert_eq!(names.get("phone").unwrap(), "uuid-2");
    assert_eq!(names_asked(Some("")).unwrap().len(), 0);
    assert_eq!(
        names_asked(Some("[]")).unwrap_err(),
        "`hostnames` is not a JSON object of hostname->uuid: invalid type: sequence, \
         expected a map at line 1 column 0"
    );
    assert!(names_asked(Some(r#"{"desk":1}"#)).is_err());
    assert!(names_asked(Some(r#"{"desk":1,"desk":"uuid-1"}"#)).is_err());
    assert!(names_asked(Some("desk=uuid-1")).is_err());
    assert_eq!(
        names_from("").unwrap_err(),
        "EOF while parsing a value at line 1 column 0",
        "where a map is owed, an empty text is none"
    );
    assert_eq!(names_from("{}").unwrap().len(), 0);
}

#[test]
fn a_threshold_out_of_bounds_is_brought_into_them() {
    assert_eq!(clamp_sliver(None), None);
    assert_eq!(clamp_sliver(Some(-5)), Some(0));
    assert_eq!(clamp_sliver(Some(15)), Some(15));
    assert_eq!(clamp_sliver(Some(MAX_SLIVER_SECS + 1)), Some(3600));
}

#[test]
fn a_setting_needs_a_name_and_a_json_value() {
    assert_eq!(setting_key("classes").as_deref(), Some("settings.classes"));
    for name in ["", "a/b", "a\\b", "a\0b"] {
        assert_eq!(setting_key(name), None);
        assert_eq!(check_setting(name, "1"), Err(SettingError::BadKey));
    }
    assert_eq!(check_setting("classes", "[1, 2]"), Ok("settings.classes".to_string()));
    assert_eq!(check_setting("classes", "[1,"), Err(SettingError::NotJson));
    assert_eq!(bare_setting("settings.classes"), "classes");
    assert_eq!(bare_setting("classes"), "classes");
}

#[test]
fn the_widget_sums_what_the_canonical_events_give() {
    let query = widget_query("events = [];");
    assert_eq!(
        query,
        "events = [];\nduration = sum_durations(events);\n\
         cat_events = sort_by_duration(merge_events_by_keys(events, [\"$category\"]));\n\
         RETURN = {\"events\": events, \"duration\": duration, \"cat_events\": cat_events};"
    );
}

#[test]
fn a_greeting_is_addressed() {
    assert_eq!(greeting(Some("phone")), "Hello phone (from Rust!)");
    assert_eq!(greeting(None), "Hello there (from Rust!)");
}

#[test]
fn a_request_is_checked_from_its_start_to_its_names() {
    let ask = |start: &str, end: &str, names: Option<&str>| {
        timeline_request(start, end, names, Some(9000), "uuid-1", "desk")
    };
    let (a, b) = ("2026-09-09T02:00:00+02:00", "2026-09-10T00:00:00Z");
    let req = ask(a, b, Some(r#"{"phone":"uuid-2"}"#)).unwrap();
    assert_eq!(req.start.to_rfc3339(), "2026-09-09T00:00:00Z");
    assert_eq!(req.end.to_rfc3339(), "2026-09-10T00:00:00Z");
    assert_eq!((req.own_device.as_str(), req.own_hostname.as_str()), ("uuid-1", "desk"));
    assert_eq!(req.hostname_to_uuid.get("phone").unwrap(), "uuid-2");
    assert_eq!(req.sliver_secs, Some(3600));

    assert!(ask("x", "y", Some("z")).unwrap_err().starts_with("`start` is not"));
    assert!(ask(a, "y", Some("z")).unwrap_err().starts_with("`end` is not"));
    assert_eq!(
        ask(b, a, Some("z")).unwrap_err(),
        "`end` (2026-09-09 00:00:00 UTC) must be after `start` (2026-09-10 00:00:00 UTC)"
    );
    assert!(ask(a, b, Some("z")).unwrap_err().starts_with("`hostnames` is not"));
}

#[test]
fn an_app_is_told_what_was_wrong_with_what_it_sent() {
    let (a, b) = ("2026-09-09T00:00:00Z", "2026-09-10T00:00:00+02:00");
    let ask = |start: &str, end: &str, map: &str| native_request(start, end, map, "uuid-1", "desk");
    let q = ask(a, b, r#"{"phone":"uuid-2"}"#).unwrap();
    assert_eq!(q.start.to_rfc3339(), "2026-09-09T00:00:00Z");
    assert_eq!(q.end.to_rfc3339(), "2026-09-09T22:00:00Z");
    assert_eq!(q.own_device, "uuid-1");
    assert_eq!(q.own_hostname, "desk");
    assert_eq!(q.hostname_to_uuid.get("phone").unwrap(), "uuid-2");
    assert_eq!(q.sliver_secs, None);

    let why = |start: &str, end: &str, map: &str| ask(start, end, map).err().unwrap();
    assert_eq!(
        why("\"x\"\n", "also bad", ""),
        "bad timestamp \"\\\"x\\\"\\n\": premature end of input",
        "the start comes first"
    );
    assert!(why(a, "tomorrow", "{}").starts_with("bad timestamp \"tomorrow\": "));
    assert_eq!(why(a, a, ""), "end must be after start", "the span comes before the map");
    assert_eq!(
        why(a, b, ""),
        "bad hostname→uuid map: EOF while parsing a value at line 1 column 0",
        "an empty text is no map"
    );
}
