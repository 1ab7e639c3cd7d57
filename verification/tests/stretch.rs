//! A windowed answer is about a stretch of time: every block here changes its cast part-way
//! through.

use aw_combined::{
    activity_label, coalesce, compute_segments, default_min_contention, merge_decisions,
    parse_records, BucketEvents, Data, Event, Instant, PipelineInput, Segment, SegmentState,
    TextMap, EVENT_ORIGIN_KEY,
};

const PHONE: &str = "11111111-1111-1111-1111-111111111111";
const TABLET: &str = "22222222-2222-2222-2222-222222222222";

// 2026-09-10 10:00:00 UTC.
const BASE: i64 = 1_789_034_400;

fn t(min: i64) -> Instant {
    Instant::from_nanos((BASE + min * 60) as i128 * 1_000_000_000).unwrap()
}

fn event(start: Instant, end: Instant, device: &str, app: &str) -> Event {
    let data = Data::parse(&format!(r#"{{"app":"{app}","{EVENT_ORIGIN_KEY}":"{device}"}}"#));
    Event { id: None, timestamp: start, duration: end.since(start), data: data.unwrap() }
}

fn tagged(from: i64, to: i64, device: &str, name: &str) -> Event {
    event(t(from), t(to), device, name)
}

fn hostnames() -> TextMap<String> {
    let mut m = TextMap::new();
    m.insert("jude-phone".to_string(), PHONE.to_string());
    m.insert("jude-tablet".to_string(), TABLET.to_string());
    m
}

fn day(phone: Vec<Event>, tablet: Vec<Event>, lines: &[String]) -> Vec<Segment> {
    let input = PipelineInput {
        own_device: PHONE.to_string(),
        hostname_to_uuid: hostnames(),
        activity: vec![
            BucketEvents { bucket_id: "aw-watcher-window_phone".to_string(), events: phone },
            BucketEvents { bucket_id: "aw-watcher-window_tablet".to_string(), events: tablet },
        ],
        idle: vec![],
        min_contention: default_min_contention(),
        decisions: merge_decisions(&parse_records(&lines.join("\n"))),
        not_counted: vec![],
    };
    coalesce(compute_segments(input))
}

fn role(device: &str) -> &'static str {
    if device == PHONE { "jude-phone" } else { "jude-tablet" }
}

fn participants(cast: &[(&str, &str, &str)]) -> String {
    let rows: Vec<String> = cast
        .iter()
        .map(|(role, uuid, app)| {
            format!(
                r#"{{"device_role":"{role}","device_uuid":"{uuid}","app":"{app}","category":null}}"#
            )
        })
        .collect();
    format!(r#"{{"participants":[{}]}}"#, rows.join(","))
}

fn pick(role: &str, uuid: &str, app: &str, background: &str) -> String {
    format!(
        r#"{{"outcome":"foreground","foreground":{{"device_role":"{role}","device_uuid":"{uuid}","app":"{app}"}},"label":null,"deliberate_background":{background}}}"#
    )
}

fn unpicked(outcome: &str) -> String {
    format!(
        r#"{{"outcome":"{outcome}","foreground":null,"label":null,"deliberate_background":[]}}"#
    )
}

fn line(
    id: &str,
    created: (&str, &str),
    window: (i64, i64),
    signature: &str,
    resolution: &str,
    scope: &str,
) -> String {
    let (created_at, created_by) = created;
    let (start, end) = (t(window.0).to_rfc3339(), t(window.1).to_rfc3339());
    format!(
        r#"{{"id":"{id}","type":"decision","created_at":"{created_at}","created_by":"{created_by}","window":{{"start":"{start}","end":"{end}"}},"signature":{signature},"resolution":{resolution},"scope":"{scope}"}}"#
    )
}

fn decision(window: (i64, i64), cast: &[(&str, &str)], resolution: String, scope: &str) -> String {
    let cast: Vec<(&str, &str, &str)> =
        cast.iter().map(|(device, app)| (role(device), *device, *app)).collect();
    line("d_1", ("2026-09-10T12:00:00Z", PHONE), window, &participants(&cast), &resolution, scope)
}

fn picks(device: &str, app: &str) -> String {
    pick(role(device), device, app, "[]")
}

fn label(seg: &Segment) -> String {
    activity_label(&seg.foreground_slice().data)
}

#[test]
fn a_decision_settles_a_block_whose_loser_changes_part_way_through() {
    let segs = day(
        vec![tagged(0, 60, PHONE, "Game")],
        vec![tagged(0, 30, TABLET, "YouTube"), tagged(30, 60, TABLET, "Spotify")],
        &[decision(
            (0, 60),
            &[(PHONE, "Game"), (TABLET, "YouTube"), (TABLET, "Spotify")],
            picks(PHONE, "Game"),
            "once",
        )],
    );

    assert_eq!(segs.len(), 1, "one answer, one block: {segs:#?}");
    assert_eq!(segs[0].state, SegmentState::Settled);
    assert!(!segs[0].unresolved, "it no longer asks");
    assert_eq!(segs[0].resolved_by.as_deref(), Some("d_1"));
    assert_eq!(segs[0].foreground_slice().device, PHONE);
    assert_eq!(label(&segs[0]), "Game");
    assert_eq!((segs[0].start, segs[0].end), (t(0), t(60)));
}

#[test]
fn a_pick_settles_only_the_time_it_was_actually_running() {
    let segs = day(
        vec![tagged(0, 60, PHONE, "Game")],
        vec![
            tagged(0, 29, TABLET, "YouTube"),
            tagged(29, 31, TABLET, "Spotify"),
            tagged(31, 60, TABLET, "YouTube"),
        ],
        &[decision(
            (0, 60),
            &[(PHONE, "Game"), (TABLET, "YouTube"), (TABLET, "Spotify")],
            picks(TABLET, "Spotify"),
            "once",
        )],
    );

    assert_eq!(segs.len(), 3, "the answer splits the block in three: {segs:#?}");

    assert_eq!(segs[1].state, SegmentState::Settled, "the Spotify stretch is answered");
    assert_eq!(segs[1].resolved_by.as_deref(), Some("d_1"));
    assert_eq!(segs[1].foreground_slice().device, TABLET);
    assert_eq!(label(&segs[1]), "Spotify");
    assert_eq!((segs[1].start, segs[1].end), (t(29), t(31)));

    for i in [0, 2] {
        assert_eq!(segs[i].state, SegmentState::Contended, "segment {i}: {:#?}", segs[i]);
        assert!(segs[i].unresolved, "segment {i} is still an open question");
        assert!(segs[i].resolved_by.is_none(), "segment {i} was never answered");
    }
}

#[test]
fn a_pick_never_credits_an_activity_that_had_already_stopped() {
    let segs = day(
        vec![tagged(0, 50, PHONE, "ActivityWatch"), tagged(50, 60, PHONE, "One UI Home")],
        vec![tagged(0, 60, TABLET, "ActivityWatch")],
        &[decision(
            (0, 60),
            &[(PHONE, "ActivityWatch"), (PHONE, "One UI Home"), (TABLET, "ActivityWatch")],
            picks(PHONE, "ActivityWatch"),
            "once",
        )],
    );

    assert_eq!(segs.len(), 2, "{segs:#?}");

    assert_eq!(segs[0].state, SegmentState::Settled);
    assert_eq!(segs[0].resolved_by.as_deref(), Some("d_1"));
    assert_eq!(segs[0].foreground_slice().device, PHONE);
    assert_eq!(label(&segs[0]), "ActivityWatch");
    assert_eq!((segs[0].start, segs[0].end), (t(0), t(50)));

    assert_eq!(segs[1].state, SegmentState::Contended, "the tail was never answered");
    assert!(segs[1].unresolved);
    assert!(segs[1].resolved_by.is_none());
    assert!(
        !(segs[1].foreground_slice().device == PHONE && label(&segs[1]) == "ActivityWatch"),
        "the phone's launcher time must not be renamed to the app that was picked: {:#?}",
        segs[1]
    );
    assert!(
        segs[1].active.iter().any(|s| activity_label(&s.data) == "One UI Home"),
        "and the launcher is still in the data, untouched"
    );
}

#[test]
fn a_once_decision_no_longer_needs_its_cast_to_match() {
    let segs = day(
        vec![tagged(0, 60, PHONE, "Game")],
        vec![tagged(0, 60, TABLET, "YouTube")],
        &[decision(
            (0, 60),
            &[(PHONE, "something else entirely"), (TABLET, "and another")],
            picks(PHONE, "Game"),
            "once",
        )],
    );

    assert_eq!(segs.len(), 1);
    assert_eq!(segs[0].resolved_by.as_deref(), Some("d_1"));
    assert_eq!(label(&segs[0]), "Game");
}

#[test]
fn i_was_away_covers_the_whole_window_however_the_cast_changes() {
    let segs = day(
        vec![tagged(0, 60, PHONE, "Game")],
        vec![tagged(0, 30, TABLET, "YouTube"), tagged(30, 60, TABLET, "Spotify")],
        &[decision(
            (0, 60),
            &[(PHONE, "Game"), (TABLET, "YouTube")],
            unpicked("ignore"),
            "once",
        )],
    );

    assert_eq!(segs.len(), 1, "{segs:#?}");
    assert!(segs[0].ignored, "every part of the window counts as nothing");
    assert_eq!(segs[0].state, SegmentState::Settled);
    assert_eq!((segs[0].start, segs[0].end), (t(0), t(60)));
}

#[test]
fn a_rule_still_matches_on_the_cast_and_not_on_time() {
    let segs = day(
        vec![tagged(0, 60, PHONE, "Game")],
        vec![tagged(0, 60, TABLET, "Spotify")],
        &[decision(
            (0, 60),
            &[(PHONE, "Game"), (TABLET, "YouTube")],
            picks(PHONE, "Game"),
            "always",
        )],
    );

    assert_eq!(segs.len(), 1);
    assert!(
        segs[0].resolved_by.is_none(),
        "the rule names a cast this day never had: {segs:#?}"
    );
    assert!(segs[0].unresolved);
}

#[test]
fn a_rule_whose_pick_is_absent_resolves_nothing() {
    let segs = day(
        vec![tagged(0, 60, PHONE, "Game")],
        vec![tagged(0, 60, TABLET, "YouTube")],
        &[decision(
            (0, 60),
            &[(PHONE, "Game"), (TABLET, "YouTube")],
            picks(TABLET, "Kindle"),
            "always",
        )],
    );

    assert_eq!(segs.len(), 1);
    assert!(segs[0].resolved_by.is_none(), "{segs:#?}");
    assert!(segs[0].unresolved);
}
