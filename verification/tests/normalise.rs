//! Which device an event belongs to, and what idle time leaves of it.

use aw_combined::normalise::normalise;
use aw_combined::{
    default_min_contention, BucketEvents, Data, Duration, Event, Instant, PipelineInput, TextMap,
    EVENT_ORIGIN_KEY,
};

// 2026-09-09 14:00:00 UTC.
const BASE: i64 = 1_788_962_400;

fn t(min: i64) -> Instant {
    Instant::from_nanos((BASE + min * 60) as i128 * 1_000_000_000).unwrap()
}

fn no_data() -> Data {
    Data::parse("{}").unwrap()
}

fn ev(start_min: i64, dur_min: i64, data: Data) -> Event {
    Event { id: None, timestamp: t(start_min), duration: Duration::seconds(dur_min * 60), data }
}

fn input(activity: Vec<BucketEvents>, idle: Vec<BucketEvents>) -> PipelineInput {
    PipelineInput {
        own_device: "own-uuid".to_string(),
        hostname_to_uuid: TextMap::new(),
        activity,
        idle,
        min_contention: default_min_contention(),
        not_counted: vec![],
        decisions: vec![],
    }
}

#[test]
fn origin_tag_wins() {
    let data = Data::parse(&format!(r#"{{"{EVENT_ORIGIN_KEY}":"tagged-uuid"}}"#)).unwrap();
    let inp = input(
        vec![BucketEvents {
            bucket_id: "aw-watcher-window_host-synced-from-somehost".to_string(),
            events: vec![ev(0, 10, data)],
        }],
        vec![],
    );
    assert_eq!(normalise(&inp)[0].device, "tagged-uuid");
}

#[test]
fn synced_from_hostname_maps_to_uuid() {
    let mut inp = input(
        vec![BucketEvents {
            bucket_id: "aw-watcher-android-synced-from-jude_s_s25_ultra".to_string(),
            events: vec![ev(0, 10, no_data())],
        }],
        vec![],
    );
    inp.hostname_to_uuid
        .insert("jude_s_s25_ultra".to_string(), "mapped-uuid".to_string());
    assert_eq!(normalise(&inp)[0].device, "mapped-uuid");
}

#[test]
fn synced_from_miss_keeps_captured_string() {
    let inp = input(
        vec![BucketEvents {
            bucket_id: "aw-stopwatch-synced-from-ad0c6c34-d388-4ef0-b906-976bd760b22d"
                .to_string(),
            events: vec![ev(0, 10, no_data())],
        }],
        vec![],
    );
    assert_eq!(
        normalise(&inp)[0].device,
        "ad0c6c34-d388-4ef0-b906-976bd760b22d"
    );
}

#[test]
fn local_bucket_is_own_device() {
    let inp = input(
        vec![BucketEvents {
            bucket_id: "aw-watcher-window_myhost".to_string(),
            events: vec![ev(0, 10, no_data())],
        }],
        vec![],
    );
    assert_eq!(normalise(&inp)[0].device, "own-uuid");
}

#[test]
fn normalise_zero_duration_dropped() {
    let inp = input(
        vec![BucketEvents {
            bucket_id: "aw-watcher-android-unlock_x".to_string(),
            events: vec![ev(0, 0, no_data()), ev(5, 10, no_data())],
        }],
        vec![],
    );
    assert_eq!(normalise(&inp).len(), 1);
}

#[test]
fn normalise_idle_splits_interval() {
    let inp = input(
        vec![BucketEvents {
            bucket_id: "aw-watcher-window_myhost".to_string(),
            events: vec![ev(0, 60, no_data())],
        }],
        vec![BucketEvents {
            bucket_id: "aw-watcher-afk_myhost".to_string(),
            events: vec![ev(20, 20, no_data())],
        }],
    );
    let out = normalise(&inp);
    assert_eq!(out.len(), 2);
    assert_eq!((out[0].start, out[0].end), (t(0), t(20)));
    assert_eq!((out[1].start, out[1].end), (t(40), t(60)));
}
