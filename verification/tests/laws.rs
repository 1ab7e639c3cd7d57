//! What holds of every day, on days written out.

use aw_combined::apply::role_of;
use aw_combined::decision::{Participant, Signature};
use aw_combined::exclude::RuleError;
use aw_combined::smooth::{has_room, try_smooth};
use aw_combined::{
    activity_label, coalesce, compute_segments, default_min_contention, jitter_gap,
    merge_decisions, parse_records, questions, resolve_bucket_device, resolve_device, smooth,
    synced_from_hostname, BucketEvents, Data, Duration, Event, Instant, NotCountedRule,
    PipelineInput, QuestionOptions, Segment, SmoothOptions, TextMap, DEFAULT_MIN_CONTENTION_SECS,
    DEFAULT_QUESTION_GAP_SECS, DEFAULT_SLIVER_SECS, EVENT_ORIGIN_KEY, JITTER_GAP_MS,
    NOISE_FLOOR_SECS,
};

fn at(ms: i128) -> Instant {
    Instant::from_nanos(1_789_034_400_000_000_000 + ms * 1_000_000).unwrap()
}

fn event(from: i128, to: i128, device: &str, app: &str) -> Event {
    let data = Data::parse(&format!(r#"{{"app":"{app}","{EVENT_ORIGIN_KEY}":"{device}"}}"#));
    Event {
        id: None,
        timestamp: at(from),
        duration: at(to).since(at(from)),
        data: data.unwrap(),
    }
}

fn input(buckets: Vec<(&str, Vec<Event>)>) -> PipelineInput {
    PipelineInput {
        own_device: "one".to_string(),
        hostname_to_uuid: TextMap::new(),
        activity: buckets
            .into_iter()
            .map(|(id, events)| BucketEvents { bucket_id: id.to_string(), events })
            .collect(),
        idle: vec![],
        min_contention: default_min_contention(),
        not_counted: vec![],
        decisions: vec![],
    }
}

// A busy day: two devices, short visits, a hole that is jitter and one that is not.
fn busy() -> PipelineInput {
    input(vec![
        (
            "phone",
            vec![
                event(0, 100_000, "one", "Mail"),
                event(100_020, 104_000, "one", "Home"),
                event(104_000, 230_000, "one", "Mail"),
                event(300_000, 400_000, "one", "Maps"),
            ],
        ),
        ("tablet", vec![event(90_000, 180_000, "two", "Book"), event(310_000, 320_000, "two", "Book")]),
    ])
}

fn counted_ms(segs: &[Segment]) -> i64 {
    segs.iter().map(|s| s.counted_span().num_milliseconds()).sum()
}

#[test]
fn the_defaults_are_what_they_are_said_to_be() {
    assert_eq!(DEFAULT_MIN_CONTENTION_SECS, 60);
    assert_eq!(default_min_contention(), Duration::seconds(60));
    assert_eq!(DEFAULT_SLIVER_SECS, 15);
    assert_eq!(NOISE_FLOOR_SECS, 5);
    assert_eq!(jitter_gap(), Duration::milliseconds(JITTER_GAP_MS));
    assert_eq!(QuestionOptions::default().gap, Duration::seconds(DEFAULT_QUESTION_GAP_SECS));
}

#[test]
fn the_day_covers_what_was_active_and_nothing_twice() {
    let segs = compute_segments(busy());
    for pair in segs.windows(2) {
        assert!(pair[0].end <= pair[1].start);
    }
    let covered: i64 = segs.iter().map(|s| s.end.since(s.start).num_milliseconds()).sum();
    assert_eq!(covered, 330_000, "the tablet was in use across the phone's hole");
}

#[test]
fn open_means_contended_and_unanswered() {
    for s in compute_segments(busy()) {
        let devices: Vec<&str> = s.active.iter().map(|a| a.device.as_str()).collect();
        let contended = devices.contains(&"one") && devices.contains(&"two");
        if s.unresolved {
            assert!(contended && s.resolved_by.is_none());
        }
    }
    assert!(compute_segments(busy()).iter().any(|s| s.unresolved));
}

#[test]
fn merging_and_smoothing_keep_every_millisecond() {
    let segs = compute_segments(busy());
    let merged = coalesce(segs.clone());
    assert!(has_room(&merged));
    let literal: i64 = segs.iter().map(|s| s.end.since(s.start).num_milliseconds()).sum();
    assert_eq!(counted_ms(&merged), literal);
    for secs in [0, 5, 15, 60, 3600] {
        let smoothed = smooth(merged.clone(), SmoothOptions::from_sliver_secs(secs));
        assert_eq!(counted_ms(&smoothed), literal, "at {secs}s");
        for s in &smoothed {
            let shares: i64 = s.foreground_shares.iter().map(|share| share.ms).sum();
            assert_eq!(shares + s.bridged_ms, s.end.since(s.start).num_milliseconds());
        }
        let again = smooth(smoothed.clone(), SmoothOptions::from_sliver_secs(secs));
        assert_eq!(again, smoothed, "smoothing twice is smoothing once");
    }
    assert_eq!(coalesce(merged.clone()), merged, "merging twice is merging once");
}

#[test]
fn a_higher_threshold_can_leave_more_blocks() {
    let app = |from: i128, to: i128, name: &str| event(from * 1000, to * 1000, "one", name);
    let events = || {
        vec![
            app(0, 20, "B"),
            app(20, 36, "A"),
            app(36, 56, "B"),
            app(56, 62, "C"),
            app(62, 74, "A"),
            app(74, 82, "C"),
        ]
    };
    let blocks = |secs| {
        let merged = coalesce(compute_segments(input(vec![("phone", events())])));
        smooth(merged, SmoothOptions::from_sliver_secs(secs)).len()
    };
    assert_eq!(blocks(17), 2);
    assert_eq!(blocks(21), 3);
}

#[test]
fn questions_cover_the_open_blocks() {
    let day = smooth(coalesce(compute_segments(busy())), SmoothOptions::default());
    let asked = questions(&day, QuestionOptions::default());
    let mut blocks: Vec<usize> = asked.iter().flat_map(|q| q.blocks.clone()).collect();
    blocks.sort();
    let open: Vec<usize> = (0..day.len()).filter(|i| day[*i].unresolved).collect();
    assert_eq!(blocks, open);
    for q in &asked {
        assert_eq!(q.competitors.iter().filter(|c| c.is_foreground).count(), 1);
        let unresolved: i64 =
            q.blocks.iter().map(|b| day[*b].counted_span().num_milliseconds()).sum();
        assert_eq!(q.unresolved_seconds(&day), unresolved / 1000);
    }
}

#[test]
fn idle_time_is_taken_out_of_the_device_it_belongs_to() {
    let mut day = busy();
    day.idle = vec![BucketEvents {
        bucket_id: "afk".to_string(),
        events: vec![event(10_000, 60_000, "one", "")],
    }];
    let covered: i64 =
        compute_segments(day).iter().map(|s| s.end.since(s.start).num_milliseconds()).sum();
    assert_eq!(covered, 280_000);
}

#[test]
fn an_answer_applies_in_any_order_and_overrides_a_rule() {
    let decision = |id: &str, at: &str, scope: &str, app: &str, device: &str| {
        let day = if scope == "always" { "2026-01-01" } else { "2026-09-10" };
        format!(
            r#"{{"id":"{id}","type":"decision","created_at":"{at}","created_by":"one","window":{{"start":"{day}T00:00:00Z","end":"{day}T23:59:59Z"}},"signature":{{"participants":[{{"device_role":"one","app":"Mail"}},{{"device_role":"two","app":"Book"}}]}},"resolution":{{"outcome":"foreground","foreground":{{"device_role":"{device}","device_uuid":"{device}","app":"{app}"}}}},"scope":"{scope}"}}"#
        )
    };
    let rule = decision("r", "2026-09-10T20:00:00Z", "always", "Book", "two");
    let once = decision("d", "2026-09-10T11:00:00Z", "once", "Mail", "one");
    let run = |lines: &[&str]| {
        let mut day = busy();
        day.decisions = merge_decisions(&parse_records(&lines.join("\n")));
        compute_segments(day)
    };
    let segs = run(&[&rule, &once]);
    assert_eq!(segs, run(&[&once, &rule]));
    for s in segs.iter().filter(|s| s.resolved_by.is_some()) {
        let picked = s.foreground_slice();
        let label = activity_label(&picked.data);
        match s.resolved_by.as_deref() {
            Some("d") => assert_eq!((picked.device.as_str(), label.as_str()), ("one", "Mail")),
            Some("r") => panic!("an answer was given for this time: {s:?}"),
            other => panic!("{other:?}"),
        }
    }
    assert!(segs.iter().any(|s| s.resolved_by.as_deref() == Some("d")));
}

#[test]
fn a_match_key_ignores_order_and_uuids() {
    let one = |role: &str, uuid: &str, app: &str| Participant {
        device_role: role.to_string(),
        device_uuid: uuid.to_string(),
        app: app.to_string(),
        category: String::new(),
    };
    let a = Signature::of(vec![one("phone", "1", "YT"), one("tablet", "2", "Kindle")]);
    let b = Signature::of(vec![one("tablet", "8", "Kindle"), one("phone", "9", "YT")]);
    assert_eq!(a.match_key(), b.match_key());
    let c = Signature::of(vec![one("phone", "1", "YT"), one("tablet", "2", "Books")]);
    assert_ne!(a.match_key(), c.match_key());
}

#[test]
fn a_device_goes_by_its_name_where_it_has_one() {
    let mut roles = TextMap::new();
    roles.insert("uuid-1".to_string(), "desk".to_string());
    assert_eq!(role_of("uuid-1", &roles), "desk");
    assert_eq!(role_of("uuid-2", &roles), "uuid-2");
    let mut day = input(vec![]);
    day.hostname_to_uuid.insert("zeta".to_string(), "uuid-1".to_string());
    day.hostname_to_uuid.insert("alpha".to_string(), "uuid-1".to_string());
    assert_eq!(day.roles_by_uuid().get("uuid-1").unwrap(), "alpha", "the lowest of two names");
}

#[test]
fn a_bucket_belongs_to_the_device_its_events_name() {
    assert_eq!(synced_from_hostname("w-synced-from-phone").as_deref(), Some("phone"));
    assert_eq!(synced_from_hostname("w"), None);
    let mut day = input(vec![]);
    day.hostname_to_uuid.insert("phone".to_string(), "uuid-2".to_string());
    let tagged = vec![event(0, 1, "uuid-9", "A")];
    assert_eq!(resolve_bucket_device(&tagged, "w-synced-from-phone", &day), "uuid-9");
    assert_eq!(resolve_bucket_device(&vec![], "w-synced-from-phone", &day), "uuid-2");
    assert_eq!(resolve_bucket_device(&vec![], "w-synced-from-tablet", &day), "tablet");
    assert_eq!(resolve_bucket_device(&vec![], "w", &day), "one");
    assert_eq!(resolve_device(&tagged[0], "w", &day), "uuid-9");
}

#[test]
fn a_rule_that_cannot_be_one_says_why() {
    assert!(matches!(NotCountedRule::new("x", false, Some(vec![])), Err(RuleError::NoKeys)));
    match NotCountedRule::new("(", false, None) {
        Err(RuleError::Pattern(why)) => assert!(!why.is_empty()),
        other => panic!("{other:?}"),
    }
}

#[test]
fn data_is_the_same_however_it_is_spelled() {
    let a = Data::parse(r#"{ "b": [1, 2], "a": "x" }"#).unwrap();
    let b = Data::parse(r#"{"a":"x","b":[1,2]}"#).unwrap();
    assert!(a.same(&b));
    assert_eq!(a.text, r#"{"a":"x","b":[1,2]}"#);
    assert_eq!(a.get("a").unwrap(), "x");
    assert_eq!(a.get("b"), None);
    assert!(Data::parse("[]").is_none());
    assert!(Data::parse("{").is_none());
}

#[test]
fn an_activity_recorded_twice_is_credited_once() {
    let day = input(vec![
        ("phone", vec![event(0, 100_000, "one", "Mail")]),
        ("tablet", vec![event(0, 60_000, "two", "Book"), event(60_000, 90_000, "two", "Book")]),
        ("tablet again", vec![event(30_000, 80_000, "two", "Book")]),
    ]);
    let segs = coalesce(compute_segments(day));
    let asked = questions(&segs, QuestionOptions::default());
    assert_eq!(asked.len(), 1);
    let offered: Vec<(&str, i64, bool)> = asked[0]
        .competitors
        .iter()
        .map(|c| (c.label.as_str(), c.seconds, c.is_foreground))
        .collect();
    assert_eq!(offered, vec![("Mail", 100, true), ("Book", 90, false)]);
}

#[test]
fn one_answer_never_draws_as_blocks_that_touch() {
    let answer = r#"{"id":"d","type":"decision","created_at":"2026-09-10T12:00:00Z","created_by":"one","window":{"start":"2026-09-10T00:00:00Z","end":"2026-09-11T00:00:00Z"},"signature":{"participants":[]},"resolution":{"outcome":"relabel","label":"a walk"},"scope":"once"}"#;
    let mut day = busy();
    day.decisions = merge_decisions(&parse_records(answer));
    let merged = coalesce(compute_segments(day));
    let smoothed = smooth(merged, SmoothOptions::default());
    let spans: Vec<(Instant, Instant)> = smoothed.iter().map(|s| (s.start, s.end)).collect();
    assert_eq!(spans, vec![(at(0), at(230_000)), (at(300_000), at(400_000))]);
    assert!(smoothed.iter().all(|s| s.label_override.as_deref() == Some("a walk")));
}

#[test]
fn the_day_is_the_same_whatever_order_its_events_come_in() {
    let events = || {
        vec![
            event(0, 60_000, "one", "Mail"),
            event(0, 60_000, "one", "Book"),
            event(0, 60_000, "two", "Mail"),
            event(0, 60_000, "three", "Maps"),
        ]
    };
    let forward = compute_segments(input(vec![("phone", events())]));
    for shift in 1..4 {
        let mut shifted = events();
        shifted.rotate_left(shift);
        assert_eq!(compute_segments(input(vec![("phone", shifted)])), forward);
    }
    let mut backward = events();
    backward.reverse();
    assert_eq!(compute_segments(input(vec![("phone", backward)])), forward);
    assert!(forward[0].active.iter().all(|s| s.device == "one"), "the lowest tag is the bucket's");
}

#[test]
fn no_second_is_created_or_lost_by_smoothing() {
    let length = |segs: &[Segment]| -> i64 {
        segs.iter().map(|s| s.end.since(s.start).num_milliseconds() - s.bridged_ms).sum()
    };
    let segs = compute_segments(busy());
    for secs in [0, 5, 15, 60, 3600] {
        let smoothed = smooth(segs.clone(), SmoothOptions::from_sliver_secs(secs));
        assert_eq!(length(&smoothed), length(&segs), "at {secs}s");
    }
}

#[test]
fn a_match_key_tells_casts_apart() {
    let one = |role: &str, app: &str| Participant {
        device_role: role.to_string(),
        device_uuid: String::new(),
        app: app.to_string(),
        category: String::new(),
    };
    let key = |ps: Vec<Participant>| Signature::of(ps).match_key();
    assert_ne!(key(vec![one("ab", "c")]), key(vec![one("a", "bc")]));
    assert_ne!(key(vec![one("a", "b"), one("a", "b")]), key(vec![one("a", "b")]));
    assert_ne!(key(vec![]), key(vec![one("", "")]));
}

#[test]
fn smoothing_is_refused_only_where_a_sum_does_not_fit() {
    let mut segs = coalesce(compute_segments(busy()));
    assert!(try_smooth(segs.clone(), SmoothOptions::default()).is_some());
    segs[0].smoothed_seconds = i64::MAX;
    assert!(try_smooth(segs.clone(), SmoothOptions::default()).is_none());
    segs[0].smoothed_seconds = i64::MAX / 2;
    assert!(try_smooth(segs, SmoothOptions::default()).is_some());
}

#[test]
fn the_two_zeros_are_one_value() {
    let data = |text: &str| Data::parse(text).unwrap();
    assert!(data(r#"{"x":-0.0}"#).same(&data(r#"{"x":0.0}"#)));
    assert!(data(r#"{"x":[1,-0.0,{"y":-0}]}"#).same(&data(r#"{"x":[1,0.0,{"y":0.0}]}"#)));
    assert!(!data(r#"{"x":-0.05}"#).same(&data(r#"{"x":0.05}"#)));
    assert!(!data(r#"{"x":"-0.0"}"#).same(&data(r#"{"x":"0.0"}"#)), "inside a text it is a text");
    assert!(!data(r#"{"x":"\\","y":"-0.0"}"#).same(&data(r#"{"x":"\\","y":"0.0"}"#)));
    assert!(!data(r#"{"x":0}"#).same(&data(r#"{"x":0.0}"#)), "a whole number is another value");
    assert_eq!(data(r#"{"x":-0.0}"#).text, r#"{"x":-0.0}"#, "it is kept as it was written");
}
