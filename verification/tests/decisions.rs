//! Answers applied to one hour of a phone on YouTube against a tablet on Kindle.

use aw_combined::{
    coalesce, compute_segments, default_min_contention, merge_decisions, parse_records,
    BucketEvents, Data, Event, Instant, PipelineInput, Segment, SegmentState, TextMap,
    EVENT_ORIGIN_KEY,
};

const PHONE: &str = "11111111-1111-1111-1111-111111111111";
const TABLET: &str = "22222222-2222-2222-2222-222222222222";

// 2026-09-10 10:00:00 UTC.
const BASE: i64 = 1_789_034_400;

fn t(min: i64) -> Instant {
    Instant::from_nanos((BASE + min * 60) as i128 * 1_000_000_000).unwrap()
}

fn event(start: Instant, end: Instant, device: &str, app: &str) -> Event {
    let data = Data::parse(&format!(r#"{{"app":"{app}","{EVENT_ORIGIN_KEY}":"{device}"}}"#));
    Event { id: None, timestamp: start, duration: end.since(start), data: data.unwrap() }
}

fn tagged(start: Instant, end: Instant, device: &str, name: &str) -> Event {
    event(start, end, device, name)
}

fn hostnames() -> TextMap<String> {
    let mut m = TextMap::new();
    m.insert("jude-phone".to_string(), PHONE.to_string());
    m.insert("jude-tablet".to_string(), TABLET.to_string());
    m
}

fn overlap(lines: &[String], own: &str) -> Vec<Segment> {
    let records = parse_records(&lines.join("\n"));
    let input = PipelineInput {
        own_device: own.to_string(),
        hostname_to_uuid: hostnames(),
        activity: vec![
            BucketEvents {
                bucket_id: "aw-watcher-window_phone".to_string(),
                events: vec![tagged(t(0), t(60), PHONE, "YouTube")],
            },
            BucketEvents {
                bucket_id: "aw-watcher-window_tablet".to_string(),
                events: vec![tagged(t(0), t(60), TABLET, "Kindle")],
            },
        ],
        idle: vec![],
        min_contention: default_min_contention(),
        decisions: merge_decisions(&records),
        not_counted: vec![],
    };
    coalesce(compute_segments(input))
}

fn participants(cast: &[(&str, &str, &str)]) -> String {
    let rows: Vec<String> = cast
        .iter()
        .map(|(role, uuid, app)| {
            format!(
                r#"{{"device_role":"{role}","device_uuid":"{uuid}","app":"{app}","category":null}}"#
            )
        })
        .collect();
    format!(r#"{{"participants":[{}]}}"#, rows.join(","))
}

fn pick(role: &str, uuid: &str, app: &str, background: &str) -> String {
    format!(
        r#"{{"outcome":"foreground","foreground":{{"device_role":"{role}","device_uuid":"{uuid}","app":"{app}"}},"label":null,"deliberate_background":{background}}}"#
    )
}

fn unpicked(outcome: &str) -> String {
    format!(
        r#"{{"outcome":"{outcome}","foreground":null,"label":null,"deliberate_background":[]}}"#
    )
}

fn line(
    id: &str,
    created: (&str, &str),
    window: (i64, i64),
    signature: &str,
    resolution: &str,
    scope: &str,
) -> String {
    let (created_at, created_by) = created;
    let (start, end) = (t(window.0).to_rfc3339(), t(window.1).to_rfc3339());
    format!(
        r#"{{"id":"{id}","type":"decision","created_at":"{created_at}","created_by":"{created_by}","window":{{"start":"{start}","end":"{end}"}},"signature":{signature},"resolution":{resolution},"scope":"{scope}"}}"#
    )
}

fn decision(
    id: &str,
    created_at: &str,
    created_by: &str,
    window: (i64, i64),
    resolution: String,
    scope: &str,
) -> String {
    let cast = [("jude-phone", PHONE, "YouTube"), ("jude-tablet", TABLET, "Kindle")];
    line(id, (created_at, created_by), window, &participants(&cast), &resolution, scope)
}

fn picks_kindle() -> String {
    pick("jude-tablet", TABLET, "Kindle", r#"["YouTube"]"#)
}

#[test]
fn without_a_decision_the_overlap_is_still_asked_about() {
    let segs = overlap(&[], PHONE);
    assert_eq!(segs.len(), 1);
    assert_eq!(segs[0].state, SegmentState::Contended);
    assert!(segs[0].unresolved, "nothing has answered it yet");
    assert!(segs[0].resolved_by.is_none());
}

#[test]
fn an_exact_decision_settles_the_segment_and_credits_the_pick() {
    let segs = overlap(
        &[decision("d_1", "2026-09-10T11:00:00Z", PHONE, (0, 60), picks_kindle(), "once")],
        PHONE,
    );
    assert_eq!(segs.len(), 1);
    assert_eq!(segs[0].state, SegmentState::Settled);
    assert!(!segs[0].unresolved, "it no longer asks");
    assert_eq!(segs[0].resolved_by.as_deref(), Some("d_1"));
    assert!(!segs[0].auto_resolved, "recorded for this window, not by a rule");
    assert_eq!(segs[0].foreground_slice().device, TABLET);
    assert_eq!(segs[0].deliberate_background, vec!["YouTube".to_string()]);
}

#[test]
fn a_wider_window_still_covers_the_segments_inside_it() {
    let segs = overlap(
        &[decision("d_1", "2026-09-10T11:00:00Z", PHONE, (-30, 90), picks_kindle(), "once")],
        PHONE,
    );
    assert_eq!(segs[0].resolved_by.as_deref(), Some("d_1"));
}

#[test]
fn a_window_that_only_clips_the_segment_does_not_apply() {
    let segs = overlap(
        &[decision("d_1", "2026-09-10T11:00:00Z", PHONE, (0, 30), picks_kindle(), "once")],
        PHONE,
    );
    assert!(segs[0].resolved_by.is_none(), "half a segment is not this segment");
    assert!(segs[0].unresolved);
}

#[test]
fn a_rule_matches_a_window_it_was_never_recorded_for() {
    let segs = overlap(
        &[decision(
            "d_1",
            "2026-09-10T11:00:00Z",
            PHONE,
            (-600, -540),
            picks_kindle(),
            "always",
        )],
        PHONE,
    );
    assert_eq!(segs[0].resolved_by.as_deref(), Some("d_1"));
    assert!(segs[0].auto_resolved, "the view must be able to say which rule did this");
    assert_eq!(segs[0].foreground_slice().device, TABLET);
}

#[test]
fn an_exact_decision_beats_a_rule_even_an_older_one() {
    let picks_youtube = pick("jude-phone", PHONE, "YouTube", "[]");
    let segs = overlap(
        &[
            decision("d_rule", "2026-09-10T20:00:00Z", PHONE, (-600, -540), picks_kindle(), "always"),
            decision("d_once", "2026-09-10T11:00:00Z", PHONE, (0, 60), picks_youtube, "once"),
        ],
        PHONE,
    );
    assert_eq!(segs[0].resolved_by.as_deref(), Some("d_once"));
    assert!(!segs[0].auto_resolved);
    assert_eq!(segs[0].foreground_slice().device, PHONE);
}

#[test]
fn i_was_away_makes_the_time_count_as_nothing() {
    let away = unpicked("ignore");
    let segs = overlap(
        &[decision("d_1", "2026-09-10T11:00:00Z", PHONE, (0, 60), away, "once")],
        PHONE,
    );
    assert!(segs[0].ignored, "the caller subtracts these from the day total");
    assert_eq!(segs[0].state, SegmentState::Settled);
    assert_eq!(segs[0].resolved_by.as_deref(), Some("d_1"));
}

#[test]
fn something_else_replaces_the_label_but_not_the_winner() {
    let relabel = r#"{"outcome":"relabel","foreground":null,"label":"reading with music on","deliberate_background":["YouTube"]}"#
        .to_string();
    let segs = overlap(
        &[decision("d_1", "2026-09-10T11:00:00Z", PHONE, (0, 60), relabel, "once")],
        PHONE,
    );
    assert_eq!(segs[0].label_override.as_deref(), Some("reading with music on"));
    assert!(!segs[0].ignored, "a relabel says what it was, not that it was nothing");
    assert!(
        segs[0].foreground < segs[0].active.len(),
        "attribution still picks a winner so the time counts to something"
    );
}

#[test]
fn an_outcome_from_a_newer_build_resolves_nothing() {
    let future = unpicked("split-evenly");
    let segs = overlap(
        &[decision("d_1", "2026-09-10T11:00:00Z", PHONE, (0, 60), future, "once")],
        PHONE,
    );
    assert!(segs[0].resolved_by.is_none());
    assert!(segs[0].unresolved, "still an open question, and it still says so");
}

#[test]
fn a_revoked_decision_leaves_the_segment_asking_again() {
    let tombstone = format!(
        r#"{{"id":"t_1","type":"tombstone","created_at":"2026-09-10T12:00:00Z","created_by":"{TABLET}","revokes":"d_1"}}"#
    );
    let segs = overlap(
        &[
            decision("d_1", "2026-09-10T11:00:00Z", PHONE, (0, 60), picks_kindle(), "once"),
            tombstone,
        ],
        PHONE,
    );
    assert!(segs[0].resolved_by.is_none(), "undo puts the shading back");
    assert!(segs[0].unresolved);
}

#[test]
fn the_same_decision_reaches_the_same_answer_on_a_peer() {
    let lines = [decision("d_1", "2026-09-10T11:00:00Z", PHONE, (0, 60), picks_kindle(), "once")];
    let on_phone = overlap(&lines, PHONE);
    let on_tablet = overlap(&lines, TABLET);
    assert_eq!(on_phone, on_tablet, "same input, same output, whoever is asking");
}

#[test]
fn the_order_records_arrive_in_changes_nothing() {
    let a = decision("d_1", "2026-09-10T11:00:00Z", PHONE, (0, 60), picks_kindle(), "once");
    let b = decision("d_2", "2026-09-10T12:00:00Z", TABLET, (0, 60), picks_kindle(), "once");
    let forward = overlap(&[a.clone(), b.clone()], PHONE);
    let backward = overlap(&[b, a], PHONE);
    assert_eq!(forward, backward);
    assert_eq!(forward[0].resolved_by.as_deref(), Some("d_2"), "newest wins the group");
}

#[test]
fn a_rule_does_not_touch_a_different_contention() {
    let rule = decision("d_1", "2026-09-10T11:00:00Z", PHONE, (0, 60), picks_kindle(), "always");
    let records = parse_records(&rule);
    let input = PipelineInput {
        own_device: PHONE.to_string(),
        hostname_to_uuid: hostnames(),
        activity: vec![
            BucketEvents {
                bucket_id: "aw-watcher-window_phone".to_string(),
                events: vec![tagged(t(0), t(60), PHONE, "Signal")],
            },
            BucketEvents {
                bucket_id: "aw-watcher-window_tablet".to_string(),
                events: vec![tagged(t(0), t(60), TABLET, "Kindle")],
            },
        ],
        idle: vec![],
        min_contention: default_min_contention(),
        decisions: merge_decisions(&records),
        not_counted: vec![],
    };
    let segs = coalesce(compute_segments(input));
    assert!(segs[0].resolved_by.is_none(), "Signal vs Kindle is a different question");
}

#[test]
fn a_heartbeat_split_event_still_matches_the_decision_made_about_it() {
    let records = parse_records(&decision(
        "d_1",
        "2026-09-10T11:00:00Z",
        PHONE,
        (0, 60),
        picks_kindle(),
        "once",
    ));
    let input = PipelineInput {
        own_device: PHONE.to_string(),
        hostname_to_uuid: hostnames(),
        activity: vec![
            BucketEvents {
                bucket_id: "aw-watcher-window_phone".to_string(),
                events: vec![tagged(t(0), t(60), PHONE, "YouTube")],
            },
            BucketEvents {
                bucket_id: "aw-watcher-window_phone-2".to_string(),
                events: vec![tagged(t(0), t(60), PHONE, "YouTube")],
            },
            BucketEvents {
                bucket_id: "aw-watcher-window_tablet".to_string(),
                events: vec![tagged(t(0), t(60), TABLET, "Kindle")],
            },
        ],
        idle: vec![],
        min_contention: default_min_contention(),
        decisions: merge_decisions(&records),
        not_counted: vec![],
    };
    let segs = coalesce(compute_segments(input));
    assert_eq!(segs[0].resolved_by.as_deref(), Some("d_1"));
}

#[test]
fn a_decision_recorded_with_uuid_roles_still_applies() {
    let by_uuid = line(
        "d_old",
        ("2026-09-10T11:00:00Z", PHONE),
        (0, 60),
        &participants(&[(PHONE, PHONE, "YouTube"), (TABLET, TABLET, "Kindle")]),
        &pick(TABLET, TABLET, "Kindle", r#"["YouTube"]"#),
        "once",
    );

    let segs = overlap(&[by_uuid], PHONE);
    assert_eq!(segs[0].resolved_by.as_deref(), Some("d_old"));
    assert_eq!(segs[0].foreground_slice().device, TABLET);
}

#[test]
fn a_rule_recorded_with_uuid_roles_still_applies() {
    let rule = line(
        "r_old",
        ("2026-09-10T11:00:00Z", PHONE),
        (-600, -540),
        &participants(&[(PHONE, PHONE, "YouTube"), (TABLET, TABLET, "Kindle")]),
        &pick(TABLET, TABLET, "Kindle", r#"[]"#),
        "always",
    );
    let segs = overlap(&[rule], PHONE);
    assert_eq!(segs[0].resolved_by.as_deref(), Some("r_old"));
    assert!(segs[0].auto_resolved);
}

#[test]
fn a_rule_with_an_unknown_outcome_does_not_hide_one_that_is_understood() {
    let understood =
        || decision("r_1", "2026-09-10T11:00:00Z", PHONE, (-600, -540), picks_kindle(), "always");
    let future = || {
        let outcome = unpicked("split-evenly");
        decision("r_2", "2026-09-10T20:00:00Z", PHONE, (-500, -440), outcome, "always")
    };
    for lines in [[understood(), future()], [future(), understood()]] {
        let segs = overlap(&lines, PHONE);
        assert_eq!(segs[0].resolved_by.as_deref(), Some("r_1"));
        assert!(segs[0].auto_resolved);
        assert_eq!(segs[0].foreground_slice().device, TABLET);
    }
    let segs = overlap(&[future()], PHONE);
    assert!(segs[0].resolved_by.is_none(), "alone it still says nothing");
}

#[test]
fn the_prevailing_rule_leaves_the_block_open_where_its_pick_is_not_running() {
    let here =
        decision("r_1", "2026-09-10T11:00:00Z", PHONE, (-600, -540), picks_kindle(), "always");
    let elsewhere = pick("jude-tablet", TABLET, "Books", "[]");
    let absent =
        decision("r_2", "2026-09-10T20:00:00Z", PHONE, (-500, -440), elsewhere, "always");
    let segs = overlap(&[here, absent], PHONE);
    assert!(segs[0].resolved_by.is_none(), "no lesser rule stands in for it");
    assert_eq!(segs[0].state, SegmentState::Contended);
}
