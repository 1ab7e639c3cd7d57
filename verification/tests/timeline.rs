//! The whole day, out of what is stored.

use aw_combined::timeline::{
    combined_timeline, not_counted_rules, split_buckets, StoredBucket, Timeline, TimelineRequest,
};
use aw_combined::tracks::device_tracks;
use aw_combined::{
    default_min_contention, parse_records, BucketEvents, Data, Event, Instant,
    PipelineInput, SegmentState, TextMap,
};

// 2026-09-10 10:00:00 UTC.
const BASE: i128 = 1_789_034_400_000_000_000;

fn at(ms: i128) -> Instant {
    Instant::from_nanos(BASE + ms * 1_000_000).unwrap()
}

fn event(from_ms: i128, to_ms: i128, data: &str) -> Event {
    Event {
        id: None,
        timestamp: at(from_ms),
        duration: at(to_ms).since(at(from_ms)),
        data: Data::parse(data).unwrap(),
    }
}

fn stored(id: &str, kind: &str, events: Vec<Event>) -> StoredBucket {
    StoredBucket { bucket_id: id.to_string(), bucket_type: kind.to_string(), events }
}

fn request(sliver_secs: Option<i64>) -> TimelineRequest {
    TimelineRequest {
        start: at(0),
        end: at(86_400_000),
        own_device: "uuid-1".to_string(),
        hostname_to_uuid: TextMap::new(),
        own_hostname: "desk".to_string(),
        sliver_secs,
    }
}

fn day(buckets: Vec<StoredBucket>, records: &str, classes: Option<&str>) -> Timeline {
    combined_timeline(&request(None), buckets, &parse_records(records), classes).unwrap()
}

const CLASSES: &str = r#"[
    {"name":["Idle"],"rule":{"type":"regex","regex":"one ui home","ignore_case":true},
     "data":{"not_counted":true}},
    {"name":["Broken"],"rule":{"type":"regex","regex":"("},"data":{"not_counted":true}},
    {"name":["Work"],"rule":{"type":"regex","regex":"vim"}},
    {"name":["Titles"],"rule":{"regex":"secret","select_keys":["title"]},"data":{"not_counted":true}},
    {"name":["None"],"rule":{"type":"none"},"data":{"not_counted":true}}
]"#;

#[test]
fn only_categories_that_opt_in_become_rules() {
    let rules = not_counted_rules(Some(CLASSES));
    assert_eq!(rules.len(), 2, "one does not compile, one has no pattern, one does not opt in");
    assert!(rules[0].matches(&Data::parse(r#"{"app":"One UI Home"}"#).unwrap()));
    assert!(!rules[1].matches(&Data::parse(r#"{"app":"secret"}"#).unwrap()));
    assert!(rules[1].matches(&Data::parse(r#"{"title":"a secret"}"#).unwrap()));
    assert!(not_counted_rules(None).is_empty());
    assert!(not_counted_rules(Some("{}")).is_empty());
    assert!(not_counted_rules(Some("not json")).is_empty());
}

#[test]
fn buckets_are_split_by_type_and_idle_events_are_kept() {
    let (activity, idle) = split_buckets(vec![
        stored("w", "currentwindow", vec![event(0, 1, "{}")]),
        stored("web", "web.tab.current", vec![event(0, 1, "{}")]),
        stored(
            "afk",
            "afkstatus",
            vec![event(0, 1, r#"{"status":"afk"}"#), event(1, 2, r#"{"status":"not-afk"}"#)],
        ),
        stored("a", "currentwindow", vec![]),
    ]);
    let ids: Vec<&str> = activity.iter().map(|b| b.bucket_id.as_str()).collect();
    assert_eq!(ids, vec!["a", "w"], "in the order of their ids");
    assert_eq!(idle.len(), 1);
    assert_eq!(idle[0].events.len(), 1);
}

#[test]
fn a_day_counts_what_counts_and_says_what_does_not() {
    let t = day(
        vec![
            stored(
                "window",
                "currentwindow",
                vec![
                    event(0, 60_500, r#"{"app":"vim","$aw.origin.device":"uuid-1"}"#),
                    event(60_500, 120_400, r#"{"app":"One UI Home"}"#),
                ],
            ),
            stored("afk", "afkstatus", vec![event(100_400, 120_400, r#"{"status":"afk"}"#)]),
        ],
        "",
        Some(CLASSES),
    );
    assert_eq!(t.own_device, "uuid-1");
    assert_eq!(t.combined_seconds, 60);
    assert_eq!(t.excluded_seconds, 39, "39.9 seconds of it, idle time left out");
    assert_eq!(t.combined.len(), 2);
    let (work, home) = (&t.combined[0], &t.combined[1]);
    assert_eq!((work.start, work.end), (at(0), at(60_500)));
    assert_eq!((work.label.as_str(), work.device.as_str()), ("vim", "uuid-1"));
    assert_eq!(work.seconds, 60);
    assert_eq!(work.detail, r#"{"app":"vim"}"#, "the origin tag is no detail");
    assert_eq!(work.shares.len(), 1);
    assert_eq!((work.shares[0].ms, work.shares[0].not_counted), (60_500, false));
    assert!(home.ignored && home.not_counted);
    assert_eq!((home.seconds, home.uncounted_ms), (0, 39_900));
    assert_eq!(home.excluded_labels, vec!["One UI Home".to_string()]);

    assert_eq!(t.devices.len(), 1);
    assert_eq!(t.devices[0].hostname.as_deref(), Some("desk"));
    assert!(t.devices[0].is_own);
    assert_eq!(t.devices[0].total_seconds, 119, "whole seconds of each raw event, idle or not");
    assert_eq!(t.devices[0].events[0].label, "vim");
    assert_eq!(t.devices[0].events[0].start, "2026-09-10T10:00:00Z");
}

#[test]
fn a_peer_is_named_by_its_buckets_and_an_answer_to_it_applies() {
    let buckets = || {
        vec![
            stored("window", "currentwindow", vec![event(0, 600_000, r#"{"app":"vim"}"#)]),
            stored(
                "window-synced-from-phone",
                "currentwindow",
                vec![event(0, 600_000, r#"{"app":"Kindle","$aw.origin.device":"uuid-2"}"#)],
            ),
        ]
    };
    let open = day(buckets(), "", None);
    assert_eq!(open.combined.len(), 1);
    assert!(open.combined[0].unresolved);
    assert_eq!(open.combined[0].state, SegmentState::Contended);
    assert_eq!(open.combined[0].background.len(), 1);

    let answer = r#"{"id":"r_1","type":"decision","created_at":"2026-09-10T12:00:00Z","created_by":"uuid-1","window":{"start":"2026-01-01T00:00:00Z","end":"2026-01-01T01:00:00Z"},"signature":{"participants":[{"device_role":"phone","app":"Kindle"},{"device_role":"desk","app":"vim"}]},"resolution":{"outcome":"foreground","foreground":{"device_role":"phone","app":"Kindle"}},"scope":"always"}"#;
    let settled = day(buckets(), answer, None);
    let row = &settled.combined[0];
    assert!(!row.unresolved && row.auto_resolved);
    assert_eq!(row.resolved_by.as_deref(), Some("r_1"));
    assert_eq!((row.label.as_str(), row.device.as_str()), ("Kindle", "uuid-2"));
    assert_eq!(row.background[0].label, "vim");
    let names: Vec<Option<&str>> =
        settled.devices.iter().map(|d| d.hostname.as_deref()).collect();
    assert!(names.contains(&Some("phone")) && names.contains(&Some("desk")), "{names:?}");
}

#[test]
fn the_day_is_the_same_whatever_order_its_buckets_come_in() {
    let bucket = |n: i128| {
        stored(
            &format!("bucket-{n}"),
            "currentwindow",
            vec![event(
                n * 30_000,
                n * 30_000 + 100_000,
                &format!(r#"{{"app":"app {n}","$aw.origin.device":"uuid-{n}"}}"#),
            )],
        )
    };
    let forward = day(vec![bucket(0), bucket(1), bucket(2)], "", None);
    let backward = day(vec![bucket(2), bucket(1), bucket(0)], "", None);
    assert_eq!(format!("{forward:?}"), format!("{backward:?}"));
}

#[test]
fn a_threshold_of_zero_draws_the_day_literally() {
    let buckets = || {
        vec![stored(
            "window",
            "currentwindow",
            vec![
                event(0, 60_000, r#"{"app":"A"}"#),
                event(60_000, 68_000, r#"{"app":"B"}"#),
                event(68_000, 130_000, r#"{"app":"A"}"#),
            ],
        )]
    };
    let literal =
        combined_timeline(&request(Some(0)), buckets(), &Vec::new(), None).unwrap();
    assert_eq!(literal.combined.len(), 3);
    let smoothed = day(buckets(), "", None);
    assert_eq!(smoothed.combined.len(), 1);
    assert_eq!(smoothed.combined[0].smoothed_seconds, 8);
    assert_eq!(smoothed.combined[0].absorbed_labels, vec!["B".to_string()]);
    assert_eq!(literal.combined_seconds, smoothed.combined_seconds);
}

#[test]
fn tracks_show_what_was_recorded() {
    let input = PipelineInput {
        own_device: "uuid-1".to_string(),
        hostname_to_uuid: TextMap::new(),
        activity: vec![BucketEvents {
            bucket_id: "w".to_string(),
            events: vec![
                event(10_000, 12_500, r#"{"app":"B"}"#),
                event(0, 2_500, r#"{"app":"A"}"#),
                event(5_000, 5_000, r#"{"app":"nothing"}"#),
            ],
        }],
        idle: vec![],
        min_contention: default_min_contention(),
        not_counted: vec![],
        decisions: vec![],
    };
    let tracks = device_tracks(&input).unwrap();
    assert_eq!(tracks.len(), 1);
    let labels: Vec<&str> = tracks[0].events.iter().map(|e| e.label.as_str()).collect();
    assert_eq!(labels, vec!["A", "B"], "in the order of time, empty events left out");
    assert_eq!(tracks[0].events[1].end, "2026-09-10T10:00:12.500Z");
    assert_eq!(tracks[0].events[1].seconds, 2);
    assert_eq!(tracks[0].hostname, None);
}
