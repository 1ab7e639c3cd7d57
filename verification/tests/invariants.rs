//! At any instant exactly one activity counts, so a day is never longer than the time it covers.

use aw_combined::{
    coalesce, compute_segments, default_min_contention, BucketEvents, Data, Duration, Event,
    Instant, PipelineInput, Segment, TextMap, EVENT_ORIGIN_KEY,
};

fn no_data() -> Data {
    Data::parse("{}").unwrap()
}

fn app(name: &str) -> Data {
    Data::parse(&format!(r#"{{"app":"{name}"}}"#)).unwrap()
}

fn app_on(name: &str, device: &str) -> Data {
    Data::parse(&format!(r#"{{"app":"{name}","{EVENT_ORIGIN_KEY}":"{device}"}}"#)).unwrap()
}

fn seconds(n: i64) -> Instant {
    Instant::from_nanos(n as i128 * 1_000_000_000).unwrap()
}

fn span(start: Instant, end: Instant, data: Data) -> Event {
    Event { id: None, timestamp: start, duration: end.since(start), data }
}

fn base(activity: Vec<BucketEvents>) -> PipelineInput {
    PipelineInput {
        own_device: "phone".to_string(),
        hostname_to_uuid: TextMap::new(),
        activity,
        idle: vec![],
        min_contention: default_min_contention(),
        not_counted: vec![],
        decisions: vec![],
    }
}

// 2026-09-09 14:00:00 UTC.
const BASE: i64 = 1_788_962_400;

fn t(min: i64) -> Instant {
    seconds(BASE + min * 60)
}

fn plain(start: Instant, end: Instant, data: Data) -> Event {
    span(start, end, data)
}

fn tagged(start: Instant, end: Instant, dev: &str, data: Data) -> Event {
    span(start, end, app_on(data.get("app").unwrap(), dev))
}

fn assert_core(segs: &[Segment]) {
    for w in segs.windows(2) {
        assert!(
            w[0].end <= w[1].start,
            "segments overlap or are unsorted: {:?} then {:?}",
            w[0],
            w[1]
        );
    }
    for s in segs {
        assert!(!s.active.is_empty(), "segment has no slices");
        assert!(
            s.foreground < s.active.len(),
            "foreground index {} out of range {}",
            s.foreground,
            s.active.len()
        );
    }
}

fn total_secs(segs: &[Segment]) -> i64 {
    segs.iter().map(|s| s.end.since(s.start).num_seconds()).sum()
}

#[test]
fn totals_equal_wall_clock_not_device_sum() {
    let mut input = base(vec![
        BucketEvents {
            bucket_id: "aw-watcher-window_phone".to_string(),
            events: vec![
                plain(t(0), t(60), app("YouTube")),
                plain(t(120), t(135), app("Slack")),
            ],
        },
        BucketEvents {
            bucket_id: "w-synced-from-tablet".to_string(),
            events: vec![tagged(t(30), t(90), "tablet", app("Kindle"))],
        },
    ]);
    input.idle = vec![BucketEvents {
        bucket_id: "aw-watcher-afk_phone".to_string(),
        events: vec![plain(t(10), t(20), no_data())],
    }];
    let segs = compute_segments(input);
    assert_core(&segs);
    assert_eq!(total_secs(&segs), 5700, "combined total must be the union measure, not the device sum");

    let merged = coalesce(segs.clone());
    assert_core(&merged);
    assert_eq!(total_secs(&merged), 5700, "coalesce changed the total");
    assert!(merged.len() <= segs.len());
}

#[test]
fn two_overlapping_buckets_one_device() {
    let input = base(vec![
        BucketEvents {
            bucket_id: "aw-watcher-window_phone".to_string(),
            events: vec![plain(t(0), t(60), app("Firefox"))],
        },
        BucketEvents {
            bucket_id: "aw-watcher-web_phone".to_string(),
            events: vec![plain(t(15), t(45), app("gmail"))],
        },
    ]);
    let segs = compute_segments(input);
    assert_core(&segs);
    assert_eq!(total_secs(&segs), 3600, "one device active 14:00-15:00 is 3600s regardless of bucket count");
    for s in &segs {
        assert_eq!(s.foreground_slice().device, "phone");
    }
    let merged = coalesce(segs.clone());
    assert_core(&merged);
    assert_eq!(total_secs(&merged), 3600);
}

#[test]
fn shaped_three_device_chained() {
    let mut input = base(vec![
        BucketEvents {
            bucket_id: "aw-watcher-window_phone".to_string(),
            events: vec![plain(t(0), t(50), app("YouTube")), plain(t(90), t(120), app("Maps"))],
        },
        BucketEvents {
            bucket_id: "w-synced-from-tablet".to_string(),
            events: vec![tagged(t(20), t(70), "tablet", app("Kindle"))],
        },
        BucketEvents {
            bucket_id: "w-synced-from-laptop".to_string(),
            events: vec![tagged(t(40), t(100), "laptop", app("Slack"))],
        },
    ]);
    input.min_contention = Duration::seconds(1);
    let segs = compute_segments(input);
    assert_core(&segs);
    assert_eq!(total_secs(&segs), 7200);
    let merged = coalesce(segs.clone());
    assert_core(&merged);
    assert_eq!(total_secs(&merged), 7200);
}
