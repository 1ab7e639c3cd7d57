//! Which settings travel, which line wins, and what one cycle moves.

use aw_combined::settings::{parse_setting_line, parse_settings, setting_to_json_line};
use aw_combined::{
    effective_settings, is_shared_setting_key, plan_settings_sync, Setting, TextMap,
};

fn setting(key: &str, value: &str, at: &str, by: &str) -> Setting {
    Setting {
        key: key.to_string(),
        value: value.to_string(),
        updated_at: at.to_string(),
        updated_by: by.to_string(),
    }
}

fn map(pairs: &[(&str, &str)]) -> TextMap<String> {
    let mut m = TextMap::new();
    for (k, v) in pairs {
        m.insert(k.to_string(), v.to_string());
    }
    m
}

#[test]
fn only_listed_keys_travel() {
    assert!(is_shared_setting_key("classes"));
    assert!(is_shared_setting_key("category_pins"));
    assert!(is_shared_setting_key("category.youtube"));
    assert!(!is_shared_setting_key("theme"));
    assert!(!is_shared_setting_key("landingpage"));
    assert!(!is_shared_setting_key("views"));
    assert!(!is_shared_setting_key("saved_queries"));
}

#[test]
fn the_newest_line_wins() {
    let winners = effective_settings(&vec![
        setting("classes", "old", "2026-09-01T00:00:00Z", "a"),
        setting("classes", "new", "2026-09-02T00:00:00Z", "b"),
    ]);
    assert_eq!(winners.get("classes").unwrap().value, "new");
}

#[test]
fn a_tie_breaks_on_the_lowest_device_id() {
    let winners = effective_settings(&vec![
        setting("classes", "from-b", "2026-09-02T00:00:00Z", "bbb"),
        setting("classes", "from-a", "2026-09-02T00:00:00Z", "aaa"),
    ]);
    assert_eq!(winners.get("classes").unwrap().value, "from-a");
}

#[test]
fn a_broken_timestamp_loses_to_a_real_one() {
    let winners = effective_settings(&vec![
        setting("classes", "broken", "not a date", "a"),
        setting("classes", "real", "2020-01-01T00:00:00Z", "z"),
    ]);
    assert_eq!(winners.get("classes").unwrap().value, "real");
}

#[test]
fn an_offset_timestamp_compares_as_the_same_instant() {
    let winners = effective_settings(&vec![
        setting("classes", "utc", "2026-09-02T00:00:00Z", "a"),
        setting("classes", "later", "2026-09-02T03:00:00+02:00", "b"),
    ]);
    assert_eq!(winners.get("classes").unwrap().value, "later");
}

#[test]
fn an_edit_here_is_published() {
    let plan = plan_settings_sync(
        &map(&[("classes", "mine")]),
        &TextMap::new(),
        &map(&[("classes", "agreed")]),
        false,
        "2026-09-11T00:00:00Z",
        "me",
    );
    assert_eq!(plan.lines_to_append.len(), 1);
    assert_eq!(plan.lines_to_append[0].value, "mine");
    assert_eq!(plan.lines_to_append[0].updated_by, "me");
    assert!(plan.values_to_apply.len() == 0);
    assert_eq!(plan.applied.get("classes").unwrap(), "mine");
}

#[test]
fn a_peers_edit_is_accepted() {
    let merged =
        effective_settings(&vec![setting("classes", "theirs", "2026-09-11T00:00:00Z", "them")]);
    let plan = plan_settings_sync(
        &map(&[("classes", "agreed")]),
        &merged,
        &map(&[("classes", "agreed")]),
        false,
        "2026-09-11T01:00:00Z",
        "me",
    );
    assert!(plan.lines_to_append.is_empty());
    assert_eq!(plan.values_to_apply.get("classes").unwrap(), "theirs");
    assert_eq!(plan.applied.get("classes").unwrap(), "theirs");
}

#[test]
fn a_fresh_device_takes_an_established_ones_categories() {
    let merged =
        effective_settings(&vec![setting("classes", "theirs", "2026-09-11T00:00:00Z", "them")]);
    let plan = plan_settings_sync(
        &TextMap::new(),
        &merged,
        &TextMap::new(),
        false,
        "2026-09-11T01:00:00Z",
        "me",
    );
    assert_eq!(plan.values_to_apply.get("classes").unwrap(), "theirs");
    assert!(
        plan.lines_to_append.is_empty(),
        "a device with no value must not publish its defaults over a peer's real choice"
    );
}

#[test]
fn agreeing_with_the_merge_does_nothing_at_all() {
    let merged =
        effective_settings(&vec![setting("classes", "same", "2026-09-11T00:00:00Z", "them")]);
    let plan = plan_settings_sync(
        &map(&[("classes", "same")]),
        &merged,
        &map(&[("classes", "same")]),
        false,
        "2026-09-11T01:00:00Z",
        "me",
    );
    assert!(plan.is_empty(), "{plan:?}");
}

#[test]
fn a_local_only_key_is_published_once_and_then_left_alone() {
    let first = plan_settings_sync(
        &map(&[("classes", "mine")]),
        &TextMap::new(),
        &TextMap::new(),
        false,
        "2026-09-11T00:00:00Z",
        "me",
    );
    assert_eq!(first.lines_to_append.len(), 1);

    let merged =
        effective_settings(&vec![setting("classes", "mine", "2026-09-11T00:00:00Z", "me")]);
    let second = plan_settings_sync(
        &map(&[("classes", "mine")]),
        &merged,
        &first.applied,
        false,
        "2026-09-11T01:00:00Z",
        "me",
    );
    assert!(second.is_empty(), "{second:?}");
}

#[test]
fn a_device_local_key_never_travels_in_either_direction() {
    let merged =
        effective_settings(&vec![setting("theme", "\"dark\"", "2026-09-11T00:00:00Z", "them")]);
    let plan = plan_settings_sync(
        &map(&[("theme", "\"light\"")]),
        &merged,
        &TextMap::new(),
        false,
        "2026-09-11T01:00:00Z",
        "me",
    );
    assert!(plan.is_empty(), "a device-local setting moved: {plan:?}");
}

#[test]
fn the_loser_of_a_simultaneous_edit_converges_next_cycle() {
    let merged = effective_settings(&vec![
        setting("classes", "from-me", "2026-09-11T00:00:00Z", "zzz"),
        setting("classes", "from-them", "2026-09-11T00:00:00Z", "aaa"),
    ]);
    let plan = plan_settings_sync(
        &map(&[("classes", "from-me")]),
        &merged,
        &map(&[("classes", "from-me")]),
        false,
        "2026-09-11T02:00:00Z",
        "zzz",
    );
    assert!(plan.lines_to_append.is_empty(), "should stop arguing");
    assert_eq!(plan.values_to_apply.get("classes").unwrap(), "from-them");
}

#[test]
fn joining_an_established_folder_does_not_publish_this_devices_defaults() {
    let merged = effective_settings(&vec![setting(
        "classes",
        "[\"their careful categories\"]",
        "2026-09-11T13:41:33Z",
        "phone",
    )]);
    let plan = plan_settings_sync(
        &map(&[("classes", "[\"factory defaults\"]")]),
        &merged,
        &TextMap::new(),
        true,
        "2026-09-11T21:00:00Z",
        "desktop",
    );
    assert!(
        plan.lines_to_append.is_empty(),
        "a joining device published over an established folder: {plan:?}"
    );
    assert_eq!(
        plan.values_to_apply.get("classes").unwrap(),
        "[\"their careful categories\"]"
    );
    assert_eq!(plan.applied.get("classes").unwrap(), "[\"their careful categories\"]");
}

#[test]
fn joining_still_offers_a_key_nobody_else_has() {
    let plan = plan_settings_sync(
        &map(&[("classes", "theirs"), ("startOfDay", "\"04:00\"")]),
        &effective_settings(&vec![setting(
            "classes",
            "theirs",
            "2026-09-11T00:00:00Z",
            "phone",
        )]),
        &TextMap::new(),
        true,
        "2026-09-11T21:00:00Z",
        "desktop",
    );
    assert_eq!(plan.lines_to_append.len(), 1);
    assert_eq!(plan.lines_to_append[0].key, "startOfDay");
}

#[test]
fn joining_an_empty_folder_publishes_normally() {
    let plan = plan_settings_sync(
        &map(&[("classes", "mine")]),
        &TextMap::new(),
        &TextMap::new(),
        true,
        "2026-09-11T21:00:00Z",
        "desktop",
    );
    assert_eq!(plan.lines_to_append.len(), 1);
    assert_eq!(plan.lines_to_append[0].value, "mine");
}

#[test]
fn an_edit_after_joining_still_wins() {
    let merged = effective_settings(&vec![setting(
        "classes",
        "theirs",
        "2026-09-11T00:00:00Z",
        "phone",
    )]);
    let joined = plan_settings_sync(
        &map(&[("classes", "defaults")]),
        &merged,
        &TextMap::new(),
        true,
        "2026-09-11T21:00:00Z",
        "desktop",
    );
    let plan = plan_settings_sync(
        &map(&[("classes", "edited here")]),
        &merged,
        &joined.applied,
        false,
        "2026-09-11T22:00:00Z",
        "desktop",
    );
    assert_eq!(plan.lines_to_append.len(), 1);
    assert_eq!(plan.lines_to_append[0].value, "edited here");
}

#[test]
fn a_line_survives_a_round_trip() {
    let original = setting("classes", "{\"a\":1}", "2026-09-11T00:00:00Z", "me");
    let line = setting_to_json_line(&original);
    assert_eq!(parse_setting_line(&line), Some(original));
}

#[test]
fn other_record_types_are_not_settings() {
    assert!(parse_setting_line(r#"{"type":"decision","id":"X"}"#).is_none());
    assert!(parse_setting_line("not json").is_none());
    assert!(parse_setting_line(r#"{"type":"setting"}"#).is_none());
}

#[test]
fn a_half_written_line_does_not_take_the_file_with_it() {
    let body = "{\"type\":\"setting\",\"key\":\"classes\",\"value\":\"ok\",\
                \"updated_at\":\"2026-09-11T00:00:00Z\",\"updated_by\":\"me\"}\n\
                {\"type\":\"setti";
    let parsed = parse_settings(body);
    assert_eq!(parsed.len(), 1);
    assert_eq!(parsed[0].value, "ok");
}

#[test]
fn one_instant_spelled_two_ways_is_a_tie() {
    let utc = || setting("classes", "x", "2026-09-02T00:00:00Z", "a");
    let offset = || setting("classes", "y", "2026-09-02T02:00:00+02:00", "b");
    for lines in [vec![utc(), offset()], vec![offset(), utc()]] {
        assert_eq!(effective_settings(&lines).get("classes").unwrap().value, "x");
    }
    let swapped = [
        setting("classes", "x", "2026-09-02T00:00:00Z", "b"),
        setting("classes", "y", "2026-09-02T02:00:00+02:00", "a"),
    ];
    assert_eq!(effective_settings(&swapped.to_vec()).get("classes").unwrap().value, "y");
}

#[test]
fn of_two_broken_timestamps_the_greater_text_wins() {
    let winners = effective_settings(&vec![
        setting("classes", "monday", "monday", "a"),
        setting("classes", "tuesday", "tuesday", "b"),
    ]);
    assert_eq!(winners.get("classes").unwrap().value, "tuesday");
}
