//! Exact boundaries and states for well-formed days.

use aw_combined::{
    coalesce, compute_segments, default_min_contention, ActiveSlice, BucketEvents, Data, Duration, Event,
    Instant, PipelineInput, Segment, SegmentState, TextMap, EVENT_ORIGIN_KEY,
};

fn no_data() -> Data {
    Data::parse("{}").unwrap()
}

fn app(name: &str) -> Data {
    Data::parse(&format!(r#"{{"app":"{name}"}}"#)).unwrap()
}

fn app_on(name: &str, device: &str) -> Data {
    Data::parse(&format!(r#"{{"app":"{name}","{EVENT_ORIGIN_KEY}":"{device}"}}"#)).unwrap()
}

fn seconds(n: i64) -> Instant {
    Instant::from_nanos(n as i128 * 1_000_000_000).unwrap()
}

fn span(start: Instant, end: Instant, data: Data) -> Event {
    Event { id: None, timestamp: start, duration: end.since(start), data }
}

fn base(activity: Vec<BucketEvents>) -> PipelineInput {
    PipelineInput {
        own_device: "phone".to_string(),
        hostname_to_uuid: TextMap::new(),
        activity,
        idle: vec![],
        min_contention: default_min_contention(),
        not_counted: vec![],
        decisions: vec![],
    }
}

// 2026-09-09 14:00:00 UTC.
const BASE: i64 = 1_788_962_400;

fn t(min: i64) -> Instant {
    seconds(BASE + min * 60)
}

fn ts(sec: i64) -> Instant {
    seconds(BASE + sec)
}

fn tagged(start: Instant, end: Instant, device: &str, data: Data) -> Event {
    span(start, end, app_on(data.get("app").unwrap(), device))
}

fn plain(start: Instant, end: Instant, data: Data) -> Event {
    span(start, end, data)
}

fn devices(seg: &Segment) -> Vec<String> {
    let mut d: Vec<String> = seg.active.iter().map(|s: &ActiveSlice| s.device.clone()).collect();
    d.sort();
    d.dedup();
    d
}

#[test]
fn worked_example() {
    let input = base(vec![
        BucketEvents {
            bucket_id: "aw-watcher-window_phone".to_string(),
            events: vec![plain(t(0), t(60), app("YouTube"))],
        },
        BucketEvents {
            bucket_id: "aw-watcher-window-synced-from-tablet".to_string(),
            events: vec![tagged(t(30), t(45), "tablet", app("Kindle"))],
        },
    ]);
    let segs = compute_segments(input);
    assert_eq!(segs.len(), 3);

    assert_eq!((segs[0].start, segs[0].end), (t(0), t(30)));
    assert_eq!(segs[0].state, SegmentState::Settled);
    assert_eq!(devices(&segs[0]), vec!["phone"]);

    assert_eq!((segs[1].start, segs[1].end), (t(30), t(45)));
    assert_eq!(segs[1].state, SegmentState::Contended);
    assert_eq!(devices(&segs[1]), vec!["phone", "tablet"]);

    assert_eq!((segs[2].start, segs[2].end), (t(45), t(60)));
    assert_eq!(segs[2].state, SegmentState::Settled);
    assert_eq!(devices(&segs[2]), vec!["phone"]);
}

#[test]
fn three_devices() {
    let input = base(vec![
        BucketEvents {
            bucket_id: "aw-watcher-window_phone".to_string(),
            events: vec![plain(t(0), t(30), app("YouTube"))],
        },
        BucketEvents {
            bucket_id: "w-synced-from-tablet".to_string(),
            events: vec![tagged(t(0), t(30), "tablet", app("Kindle"))],
        },
        BucketEvents {
            bucket_id: "w-synced-from-laptop".to_string(),
            events: vec![tagged(t(0), t(30), "laptop", app("Firefox"))],
        },
    ]);
    let segs = compute_segments(input);
    assert_eq!(segs.len(), 1);
    assert_eq!(segs[0].state, SegmentState::Contended);
    assert_eq!(devices(&segs[0]), vec!["laptop", "phone", "tablet"]);
}

#[test]
fn untagged_hostname_in_map() {
    let mut input = base(vec![BucketEvents {
        bucket_id: "aw-watcher-android-synced-from-jude_s_s25_ultra".to_string(),
        events: vec![plain(t(0), t(10), app("Maps"))],
    }]);
    input
        .hostname_to_uuid
        .insert("jude_s_s25_ultra".to_string(), "s25-uuid".to_string());
    let segs = compute_segments(input);
    assert_eq!(segs.len(), 1);
    assert_eq!(devices(&segs[0]), vec!["s25-uuid"]);
}

#[test]
fn untagged_hostname_not_in_map() {
    let input = base(vec![BucketEvents {
        bucket_id: "aw-watcher-android-synced-from-jude_s_s25_ultra".to_string(),
        events: vec![plain(t(0), t(10), app("Maps"))],
    }]);
    let segs = compute_segments(input);
    assert_eq!(segs.len(), 1);
    assert_eq!(devices(&segs[0]), vec!["jude_s_s25_ultra"]);
}

#[test]
fn uuid_suffixed_bucket() {
    let input = base(vec![BucketEvents {
        bucket_id: "aw-stopwatch-synced-from-ad0c6c34-d388-4ef0-b906-976bd760b22d".to_string(),
        events: vec![plain(t(0), t(10), app("stopwatch"))],
    }]);
    let segs = compute_segments(input);
    assert_eq!(segs.len(), 1);
    assert_eq!(
        devices(&segs[0]),
        vec!["ad0c6c34-d388-4ef0-b906-976bd760b22d"]
    );
}

#[test]
fn short_contention_absorbed() {
    let input = base(vec![
        BucketEvents {
            bucket_id: "aw-watcher-window_phone".to_string(),
            events: vec![plain(ts(0), ts(40), app("YouTube"))],
        },
        BucketEvents {
            bucket_id: "w-synced-from-tablet".to_string(),
            events: vec![tagged(ts(0), ts(40), "tablet", app("Kindle"))],
        },
    ]);
    let segs = compute_segments(input);
    assert_eq!(segs.len(), 1);
    assert_eq!(segs[0].state, SegmentState::Settled);
    assert!(segs[0].absorbed_short_contention);
    assert_eq!(devices(&segs[0]), vec!["phone", "tablet"]);
}

#[test]
fn contended_run_over_threshold_stays() {
    let input = base(vec![
        BucketEvents {
            bucket_id: "aw-watcher-window_phone".to_string(),
            events: vec![
                plain(ts(0), ts(40), app("YouTube")),
                plain(ts(40), ts(80), app("Twitch")),
            ],
        },
        BucketEvents {
            bucket_id: "w-synced-from-tablet".to_string(),
            events: vec![tagged(ts(0), ts(80), "tablet", app("Kindle"))],
        },
    ]);
    let segs = compute_segments(input);
    assert_eq!(segs.len(), 2);
    assert_eq!((segs[0].start, segs[0].end), (ts(0), ts(40)));
    assert_eq!((segs[1].start, segs[1].end), (ts(40), ts(80)));
    assert_eq!(segs[0].state, SegmentState::Contended);
    assert_eq!(segs[1].state, SegmentState::Contended);
    assert!(!segs[0].absorbed_short_contention);
    assert!(!segs[1].absorbed_short_contention);
}

#[test]
fn exactly_min_contention_stays() {
    let input = base(vec![
        BucketEvents {
            bucket_id: "aw-watcher-window_phone".to_string(),
            events: vec![plain(ts(0), ts(60), app("YouTube"))],
        },
        BucketEvents {
            bucket_id: "w-synced-from-tablet".to_string(),
            events: vec![tagged(ts(0), ts(60), "tablet", app("Kindle"))],
        },
    ]);
    let segs = compute_segments(input);
    assert_eq!(segs.len(), 1);
    assert_eq!(segs[0].state, SegmentState::Contended);
    assert!(!segs[0].absorbed_short_contention);
}

#[test]
fn idle_subtraction_removes_overlap() {
    let mut input = base(vec![
        BucketEvents {
            bucket_id: "aw-watcher-window_phone".to_string(),
            events: vec![plain(t(0), t(60), app("YouTube"))],
        },
        BucketEvents {
            bucket_id: "w-synced-from-tablet".to_string(),
            events: vec![tagged(t(20), t(40), "tablet", app("Kindle"))],
        },
    ]);
    input.idle = vec![BucketEvents {
        bucket_id: "aw-watcher-afk_phone".to_string(),
        events: vec![plain(t(20), t(40), no_data())],
    }];
    let segs = compute_segments(input);
    assert!(segs.iter().all(|s| s.state == SegmentState::Settled));
    let in_window: Vec<&Segment> = segs
        .iter()
        .filter(|s| s.start >= t(20) && s.end <= t(40))
        .collect();
    assert!(!in_window.is_empty());
    for s in in_window {
        assert_eq!(devices(s), vec!["tablet"]);
    }
}

#[test]
fn golden_idle_splits_interval() {
    let mut input = base(vec![BucketEvents {
        bucket_id: "aw-watcher-window_phone".to_string(),
        events: vec![plain(t(0), t(60), app("YouTube"))],
    }]);
    input.idle = vec![BucketEvents {
        bucket_id: "aw-watcher-afk_phone".to_string(),
        events: vec![plain(t(20), t(40), no_data())],
    }];
    let segs = compute_segments(input);
    assert_eq!(segs.len(), 2);
    assert_eq!((segs[0].start, segs[0].end), (t(0), t(20)));
    assert_eq!((segs[1].start, segs[1].end), (t(40), t(60)));
    assert!(segs.iter().all(|s| s.state == SegmentState::Settled));
}

#[test]
fn atomic_boundaries_preserved() {
    let input = base(vec![BucketEvents {
        bucket_id: "aw-watcher-window_phone".to_string(),
        events: vec![
            plain(t(0), t(30), app("YouTube")),
            plain(t(30), t(60), app("Kindle")),
        ],
    }]);
    let segs = compute_segments(input);
    assert_eq!(segs.len(), 2);
    assert_eq!(segs[0].active[0].data.get("app").unwrap(), "YouTube");
    assert_eq!(segs[1].active[0].data.get("app").unwrap(), "Kindle");
}

#[test]
fn golden_zero_duration_dropped() {
    let input = base(vec![
        BucketEvents {
            bucket_id: "aw-watcher-window_phone".to_string(),
            events: vec![plain(t(0), t(60), app("YouTube"))],
        },
        BucketEvents {
            bucket_id: "aw-watcher-android-unlock_phone".to_string(),
            events: vec![plain(t(30), t(30), no_data())],
        },
    ]);
    let segs = compute_segments(input);
    assert_eq!(segs.len(), 1);
    assert_eq!((segs[0].start, segs[0].end), (t(0), t(60)));
}

#[test]
fn determinism_under_shuffle() {
    let make = |order: u8| {
        let phone = BucketEvents {
            bucket_id: "aw-watcher-window_phone".to_string(),
            events: vec![
                plain(t(0), t(30), app("YouTube")),
                plain(t(30), t(60), app("Kindle")),
            ],
        };
        let tablet = BucketEvents {
            bucket_id: "w-synced-from-tablet".to_string(),
            events: vec![
                tagged(t(45), t(50), "tablet", app("Maps")),
                tagged(t(10), t(20), "tablet", app("Slack")),
            ],
        };
        let laptop = BucketEvents {
            bucket_id: "w-synced-from-laptop".to_string(),
            events: vec![tagged(t(5), t(55), "laptop", app("Firefox"))],
        };
        let activity = match order {
            0 => vec![phone, tablet, laptop],
            1 => vec![laptop, phone, tablet],
            _ => vec![tablet, laptop, phone],
        };
        let mut input = base(activity);
        input.min_contention = Duration::seconds(1);
        compute_segments(input)
    };
    let a = make(0);
    let b = make(1);
    let c = make(2);
    assert_eq!(a, b);
    assert_eq!(b, c);
    assert!(a.len() > 1);
}

#[test]
fn two_slices_one_device_not_contended() {
    let input = base(vec![
        BucketEvents {
            bucket_id: "aw-watcher-window_phone".to_string(),
            events: vec![plain(t(0), t(30), app("YouTube"))],
        },
        BucketEvents {
            bucket_id: "aw-watcher-web_phone".to_string(),
            events: vec![plain(t(0), t(30), app("chrome-tab"))],
        },
    ]);
    let segs = compute_segments(input);
    assert_eq!(segs.len(), 1);
    assert_eq!(segs[0].active.len(), 2);
    assert_eq!(segs[0].state, SegmentState::Settled);
}

#[test]
fn attribution_longest_activity_wins_over_tiebreak() {
    let input = base(vec![
        BucketEvents {
            bucket_id: "aw-watcher-window_phone".to_string(),
            events: vec![plain(t(0), t(60), app("YouTube"))],
        },
        BucketEvents {
            bucket_id: "w-synced-from-tablet".to_string(),
            events: vec![tagged(t(30), t(45), "aaa-tablet", app("Kindle"))],
        },
    ]);
    let segs = compute_segments(input);
    assert_eq!(segs.len(), 3);
    let mid = &segs[1];
    assert_eq!((mid.start, mid.end), (t(30), t(45)));
    assert_eq!(mid.state, SegmentState::Contended);
    assert!(mid.unresolved);
    assert_eq!(mid.foreground_slice().device, "phone", "60 min beats 15 min despite UUID order");
    assert_eq!(mid.foreground_slice().data.get("app").unwrap(), "YouTube");
    let bg: Vec<_> = mid.background_slices().iter().map(|s| s.device.as_str()).collect();
    assert_eq!(bg, vec!["aaa-tablet"]);
}

#[test]
fn coalesce_merges_heartbeat_split_session() {
    let input = base(vec![BucketEvents {
        bucket_id: "aw-watcher-window_phone".to_string(),
        events: vec![
            plain(t(0), t(30), app("YouTube")),
            plain(t(30), t(60), app("YouTube")),
        ],
    }]);
    let segs = compute_segments(input);
    assert_eq!(segs.len(), 2, "atomic: a boundary at every event edge");
    let merged = coalesce(segs);
    assert_eq!(merged.len(), 1);
    assert_eq!((merged[0].start, merged[0].end), (t(0), t(60)));
    assert_eq!(merged[0].foreground_slice().source_start, t(0));
    assert_eq!(merged[0].foreground_slice().source_end, t(60));
}

#[test]
fn coalesce_keeps_app_change() {
    let input = base(vec![BucketEvents {
        bucket_id: "aw-watcher-window_phone".to_string(),
        events: vec![
            plain(t(0), t(30), app("YouTube")),
            plain(t(30), t(60), app("Kindle")),
        ],
    }]);
    let merged = coalesce(compute_segments(input));
    assert_eq!(merged.len(), 2);
}

#[test]
fn coalesce_keeps_gap() {
    let input = base(vec![BucketEvents {
        bucket_id: "aw-watcher-window_phone".to_string(),
        events: vec![
            plain(t(0), t(20), app("YouTube")),
            plain(t(30), t(50), app("YouTube")),
        ],
    }]);
    let merged = coalesce(compute_segments(input));
    assert_eq!(merged.len(), 2, "a 10-minute hole is not bridged");
}
