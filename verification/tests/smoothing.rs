//! Smoothing, driven from events through the whole pipeline.

use aw_combined::{
    activity_label, coalesce, compute_segments, default_min_contention, smooth, BucketEvents,
    Data, Event, Instant, PipelineInput, Segment, SmoothOptions, TextMap, EVENT_ORIGIN_KEY,
};

// 2026-09-10 09:00:00 UTC.
const BASE: i64 = 1_789_030_800;

fn ts(sec: i64) -> Instant {
    Instant::from_nanos((BASE + sec) as i128 * 1_000_000_000).unwrap()
}

fn event(a: i64, b: i64, device: &str, name: &str) -> Event {
    let data = Data::parse(&format!(r#"{{"app":"{name}","{EVENT_ORIGIN_KEY}":"{device}"}}"#));
    Event { id: None, timestamp: ts(a), duration: ts(b).since(ts(a)), data: data.unwrap() }
}

fn input(buckets: Vec<(&str, Vec<Event>)>) -> PipelineInput {
    PipelineInput {
        own_device: "phone".to_string(),
        hostname_to_uuid: TextMap::new(),
        activity: buckets
            .into_iter()
            .map(|(id, events)| BucketEvents { bucket_id: id.to_string(), events })
            .collect(),
        idle: Vec::new(),
        min_contention: default_min_contention(),
        decisions: Vec::new(),
        not_counted: Vec::new(),
    }
}

fn day(input: PipelineInput, sliver_secs: i64) -> Vec<Segment> {
    smooth(
        coalesce(compute_segments(input)),
        SmoothOptions::from_sliver_secs(sliver_secs),
    )
}

fn labels(segs: &[Segment]) -> Vec<String> {
    segs.iter().map(|s| activity_label(&s.foreground_slice().data)).collect()
}

#[test]
fn a_flick_to_the_launcher_and_back_stops_being_three_blocks() {
    let events = vec![
        event(0, 600, "phone", "YouTube"),
        event(600, 608, "phone", "One UI Home"),
        event(608, 1800, "phone", "YouTube"),
    ];

    let literal = day(input(vec![("aw-watcher-android", events.clone())]), 0);
    assert_eq!(
        labels(&literal),
        vec!["YouTube", "One UI Home", "YouTube"],
        "off means literal: every sliver still draws"
    );

    let smoothed = day(input(vec![("aw-watcher-android", events)]), 15);
    assert_eq!(labels(&smoothed), vec!["YouTube"]);
    assert_eq!(smoothed[0].start, ts(0));
    assert_eq!(smoothed[0].end, ts(1800));
    assert_eq!(smoothed[0].smoothed_seconds, 8);
    assert_eq!(
        smoothed[0].absorbed_labels,
        vec!["One UI Home".to_string()],
        "the block has to be able to say what it swallowed"
    );
}

#[test]
fn the_threshold_is_what_decides_and_the_day_recomputes_from_it() {
    let events = vec![
        event(0, 600, "phone", "YouTube"),
        event(600, 612, "phone", "One UI Home"),
        event(612, 1800, "phone", "YouTube"),
    ];
    let build = || input(vec![("aw-watcher-android", events.clone())]);

    assert_eq!(labels(&day(build(), 10)).len(), 3, "12s is over a 10s threshold");
    assert_eq!(labels(&day(build(), 15)).len(), 1, "and under a 15s one");
    assert_eq!(labels(&day(build(), 10)).len(), 3);
}

#[test]
fn the_day_is_the_same_length_however_it_is_smoothed() {
    let events = vec![
        event(0, 600, "phone", "YouTube"),
        event(600, 603, "phone", "One UI Home"),
        event(603, 900, "phone", "Firefox"),
        event(900, 907, "phone", "One UI Home"),
        event(907, 1800, "phone", "Firefox"),
    ];
    let build = || input(vec![("aw-watcher-android", events.clone())]);
    let total = |segs: &[Segment]| -> i64 {
        segs.iter().map(|s| s.end.since(s.start).num_seconds()).sum()
    };

    let literal = day(build(), 0);
    for secs in [5, 10, 15, 30, 60] {
        assert_eq!(
            total(&day(build(), secs)),
            total(&literal),
            "smoothing at {secs}s changed how much day there is"
        );
    }
}

#[test]
fn raising_the_threshold_never_adds_blocks() {
    let titled = |a: i64, b: i64, name: &str, title: &str| {
        let data = Data::parse(&format!(
            r#"{{"app":"{name}","title":"{title}","{EVENT_ORIGIN_KEY}":"phone"}}"#
        ));
        Event { id: None, timestamp: ts(a), duration: ts(b).since(ts(a)), data: data.unwrap() }
    };
    let events = vec![
        titled(0, 600, "ActivityWatch", "one"),
        event(600, 603, "phone", "My Files"),
        titled(603, 611, "ActivityWatch", "two"),
        event(611, 618, "phone", "One UI Home"),
        titled(618, 1200, "ActivityWatch", "three"),
        event(1200, 1212, "phone", "One UI Home"),
        titled(1212, 2400, "ActivityWatch", "three"),
    ];

    let mut previous = usize::MAX;
    for secs in [0, 5, 10, 15, 20, 30, 60, 120] {
        let n = day(input(vec![("aw-watcher-android", events.clone())]), secs).len();
        assert!(
            n <= previous,
            "{secs}s gave {n} blocks where the threshold below it gave {previous}"
        );
        previous = n;
    }
}

#[test]
fn an_overlap_worth_asking_about_survives_any_threshold() {
    let events_a = vec![event(0, 240, "phone", "YouTube")];
    let events_b = vec![event(0, 240, "tablet", "Firefox")];

    for secs in [0, 15, 60, 600] {
        let segs = day(
            input(vec![
                ("aw-watcher-android", events_a.clone()),
                ("aw-watcher-window-synced-from-tablet", events_b.clone()),
            ]),
            secs,
        );
        assert_eq!(
            segs.iter().filter(|s| s.unresolved).count(),
            1,
            "the overlap stopped asking at a {secs}s threshold"
        );
    }
}
