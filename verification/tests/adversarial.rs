//! The boundaries where a plausible wrong answer could be computed.

use aw_combined::{
    coalesce, compute_segments, default_min_contention, BucketEvents, Data, Duration, Event,
    Instant, PipelineInput, SegmentState, TextMap, EVENT_ORIGIN_KEY,
};

fn no_data() -> Data {
    Data::parse("{}").unwrap()
}

fn app(name: &str) -> Data {
    Data::parse(&format!(r#"{{"app":"{name}"}}"#)).unwrap()
}

fn app_on(name: &str, device: &str) -> Data {
    Data::parse(&format!(r#"{{"app":"{name}","{EVENT_ORIGIN_KEY}":"{device}"}}"#)).unwrap()
}

fn seconds(n: i64) -> Instant {
    Instant::from_nanos(n as i128 * 1_000_000_000).unwrap()
}

fn span(start: Instant, end: Instant, data: Data) -> Event {
    Event { id: None, timestamp: start, duration: end.since(start), data }
}

fn base(activity: Vec<BucketEvents>) -> PipelineInput {
    PipelineInput {
        own_device: "phone".to_string(),
        hostname_to_uuid: TextMap::new(),
        activity,
        idle: vec![],
        min_contention: default_min_contention(),
        not_counted: vec![],
        decisions: vec![],
    }
}

// 2026-09-09 14:00:00 UTC.
const BASE: i64 = 1_788_962_400;

fn ts(sec: i64) -> Instant {
    seconds(BASE + sec)
}

fn tm(min: i64) -> Instant {
    ts(min * 60)
}

fn app_of(data: &Data) -> String {
    data.get("app").unwrap().clone()
}

fn tagged(s: i64, e: i64, dev: &str, d: Data) -> Event {
    span(ts(s), ts(e), app_on(&app_of(&d), dev))
}

fn plain(s: i64, e: i64, d: Data) -> Event {
    span(ts(s), ts(e), d)
}

fn plain_at(s: Instant, e: Instant, d: Data) -> Event {
    span(s, e, d)
}

fn tagged_at(s: Instant, e: Instant, dev: &str, d: Data) -> Event {
    span(s, e, app_on(&app_of(&d), dev))
}

#[test]
fn gap_breaks_the_run() {
    let input = base(vec![
        BucketEvents {
            bucket_id: "aw-watcher-window_phone".into(),
            events: vec![plain(0, 40, app("A")), plain(100, 140, app("A"))],
        },
        BucketEvents {
            bucket_id: "w-synced-from-tablet".into(),
            events: vec![
                tagged(0, 40, "tablet", app("B")),
                tagged(100, 140, "tablet", app("B")),
            ],
        },
    ]);
    let segs = compute_segments(input);
    assert_eq!(segs.len(), 2, "gap must not be bridged");
    for s in &segs {
        assert_eq!(s.state, SegmentState::Settled, "each 40s run is short on its own");
        assert!(s.absorbed_short_contention);
    }
}

#[test]
fn settled_segment_breaks_the_run() {
    let input = base(vec![
        BucketEvents {
            bucket_id: "aw-watcher-window_phone".into(),
            events: vec![plain(0, 120, app("A"))],
        },
        BucketEvents {
            bucket_id: "w-synced-from-tablet".into(),
            events: vec![tagged(0, 40, "tablet", app("B")), tagged(80, 120, "tablet", app("B"))],
        },
    ]);
    let segs = compute_segments(input);
    assert_eq!(segs.len(), 3);
    assert_eq!(segs[0].state, SegmentState::Settled);
    assert!(segs[0].absorbed_short_contention);
    assert_eq!(segs[1].state, SegmentState::Settled);
    assert!(!segs[1].absorbed_short_contention, "genuinely settled, not absorbed");
    assert_eq!(segs[2].state, SegmentState::Settled);
    assert!(segs[2].absorbed_short_contention);
}

#[test]
fn overlapping_idle_holes() {
    let mut input = base(vec![BucketEvents {
        bucket_id: "aw-watcher-window_phone".into(),
        events: vec![plain(0, 600, app("A"))],
    }]);
    input.idle = vec![BucketEvents {
        bucket_id: "aw-watcher-afk_phone".into(),
        events: vec![plain(100, 300, no_data()), plain(200, 400, no_data())],
    }];
    let segs = compute_segments(input);
    assert_eq!(segs.len(), 2);
    assert_eq!((segs[0].start, segs[0].end), (ts(0), ts(100)));
    assert_eq!((segs[1].start, segs[1].end), (ts(400), ts(600)));
}

#[test]
fn idle_is_per_device() {
    let mut input = base(vec![
        BucketEvents {
            bucket_id: "aw-watcher-window_phone".into(),
            events: vec![plain(0, 600, app("A"))],
        },
        BucketEvents {
            bucket_id: "w-synced-from-tablet".into(),
            events: vec![tagged(0, 600, "tablet", app("B"))],
        },
    ]);
    input.idle = vec![BucketEvents {
        bucket_id: "aw-watcher-afk_phone".into(),
        events: vec![plain(100, 300, no_data())],
    }];
    let segs = compute_segments(input);
    let covered: Vec<_> = segs
        .iter()
        .filter(|s| s.start >= ts(100) && s.end <= ts(300))
        .collect();
    assert!(!covered.is_empty());
    for s in covered {
        let devs: Vec<_> = s.active.iter().map(|a| a.device.as_str()).collect();
        assert_eq!(devs, vec!["tablet"], "phone idle must not remove tablet activity");
    }
}

#[test]
fn idle_swallows_everything() {
    let mut input = base(vec![BucketEvents {
        bucket_id: "aw-watcher-window_phone".into(),
        events: vec![plain(100, 200, app("A"))],
    }]);
    input.idle = vec![BucketEvents {
        bucket_id: "aw-watcher-afk_phone".into(),
        events: vec![plain(0, 600, no_data())],
    }];
    assert!(compute_segments(input).is_empty());
}

#[test]
fn determinism_within_bucket() {
    let build = |rev: bool| {
        let mut evs = vec![
            plain(0, 100, app("A")),
            plain(100, 200, app("B")),
            plain(200, 300, app("C")),
        ];
        if rev {
            evs.reverse();
        }
        let mut input = base(vec![
            BucketEvents { bucket_id: "aw-watcher-window_phone".into(), events: evs },
            BucketEvents {
                bucket_id: "w-synced-from-tablet".into(),
                events: vec![tagged(50, 250, "tablet", app("Z"))],
            },
        ]);
        input.min_contention = Duration::seconds(1);
        compute_segments(input)
    };
    assert_eq!(build(false), build(true));
}

#[test]
fn negative_duration_dropped() {
    let input = base(vec![BucketEvents {
        bucket_id: "aw-watcher-window_phone".into(),
        events: vec![
            Event { id: None, timestamp: ts(200), duration: Duration::seconds(-100), data: app("bad") },
            plain(0, 100, app("good")),
        ],
    }]);
    let segs = compute_segments(input);
    assert_eq!(segs.len(), 1);
    assert_eq!((segs[0].start, segs[0].end), (ts(0), ts(100)));
}

#[test]
fn non_string_origin_tag_falls_through() {
    let d = Data::parse(&format!(r#"{{"app":"A","{EVENT_ORIGIN_KEY}":42}}"#)).unwrap();
    let input = base(vec![BucketEvents {
        bucket_id: "aw-watcher-window-synced-from-laptop".into(),
        events: vec![plain(0, 100, d)],
    }]);
    let segs = compute_segments(input);
    assert_eq!(segs[0].active[0].device, "laptop");
}

#[test]
fn chained_contention_is_one_run() {
    let input = base(vec![
        BucketEvents {
            bucket_id: "aw-watcher-window_phone".into(),
            events: vec![plain(0, 40, app("A"))],
        },
        BucketEvents {
            bucket_id: "w-synced-from-tablet".into(),
            events: vec![tagged(0, 80, "tablet", app("B"))],
        },
        BucketEvents {
            bucket_id: "w-synced-from-laptop".into(),
            events: vec![tagged(40, 80, "laptop", app("C"))],
        },
    ]);
    let segs = compute_segments(input);
    assert_eq!(segs.len(), 2);
    assert_eq!(segs[0].state, SegmentState::Contended);
    assert_eq!(segs[1].state, SegmentState::Contended);
}

#[test]
fn tiebreak_equal_durations_lowest_device() {
    let input = base(vec![
        BucketEvents {
            bucket_id: "w-synced-from-b".into(),
            events: vec![tagged(0, 600, "device-b", app("X"))],
        },
        BucketEvents {
            bucket_id: "w-synced-from-a".into(),
            events: vec![tagged(0, 600, "device-a", app("Y"))],
        },
    ]);
    let segs = compute_segments(input);
    assert_eq!(segs.len(), 1);
    assert_eq!(segs[0].foreground_slice().device, "device-a");
}

#[test]
fn tiebreak_within_one_device() {
    let by_bucket = base(vec![
        BucketEvents {
            bucket_id: "aw-watcher-window_phone".into(),
            events: vec![plain(0, 600, app("win"))],
        },
        BucketEvents {
            bucket_id: "aw-watcher-web_phone".into(),
            events: vec![plain(0, 600, app("web"))],
        },
    ]);
    let segs = compute_segments(by_bucket);
    assert_eq!(segs[0].foreground_slice().bucket_id, "aw-watcher-web_phone");

    let by_data = base(vec![BucketEvents {
        bucket_id: "aw-watcher-window_phone".into(),
        events: vec![plain(0, 600, app("bbb")), plain(0, 600, app("aaa"))],
    }]);
    let segs = compute_segments(by_data);
    assert_eq!(segs[0].foreground_slice().data.get("app").unwrap(), "aaa");
}

#[test]
fn idle_shortens_the_claim() {
    let mut input = base(vec![
        BucketEvents {
            bucket_id: "aw-watcher-window_phone".into(),
            events: vec![plain_at(tm(0), tm(60), app("A"))],
        },
        BucketEvents {
            bucket_id: "w-synced-from-b".into(),
            events: vec![tagged_at(tm(0), tm(30), "device-b", app("B"))],
        },
    ]);
    input.idle = vec![BucketEvents {
        bucket_id: "aw-watcher-afk_phone".into(),
        events: vec![plain_at(tm(10), tm(50), no_data())],
    }];
    let segs = compute_segments(input);
    let contended: Vec<_> = segs.iter().filter(|s| s.state == SegmentState::Contended).collect();
    assert_eq!(contended.len(), 1);
    assert_eq!((contended[0].start, contended[0].end), (tm(0), tm(10)));
    assert_eq!(contended[0].foreground_slice().device, "device-b");
}

#[test]
fn unresolved_tracks_state_not_device_count() {
    let input = base(vec![
        BucketEvents {
            bucket_id: "aw-watcher-window_phone".into(),
            events: vec![plain(0, 40, app("A"))],
        },
        BucketEvents {
            bucket_id: "w-synced-from-tablet".into(),
            events: vec![tagged(0, 40, "tablet", app("B"))],
        },
    ]);
    let segs = compute_segments(input);
    assert_eq!(segs.len(), 1);
    assert_eq!(segs[0].state, SegmentState::Settled);
    assert!(segs[0].absorbed_short_contention);
    assert!(!segs[0].unresolved, "demoted to Settled -> not shaded");
    assert!(segs[0].foreground < segs[0].active.len());
}

#[test]
fn coalesce_keeps_flag_change() {
    let input = base(vec![
        BucketEvents {
            bucket_id: "aw-watcher-window_phone".into(),
            events: vec![plain_at(tm(0), tm(120), app("A"))],
        },
        BucketEvents {
            bucket_id: "w-synced-from-b".into(),
            events: vec![tagged_at(tm(0), tm(60), "device-b", app("B"))],
        },
    ]);
    let merged = coalesce(compute_segments(input));
    assert_eq!(merged.len(), 2);
    assert_eq!(merged[0].state, SegmentState::Contended);
    assert_eq!(merged[1].state, SegmentState::Settled);
    assert_eq!(merged[0].foreground_slice().device, "phone");
    assert_eq!(merged[1].foreground_slice().device, "phone");
}

#[test]
fn determinism_through_coalesce() {
    let build = |order: u8| {
        let win = BucketEvents {
            bucket_id: "aw-watcher-window_phone".into(),
            events: vec![plain(0, 600, app("bbb")), plain(0, 600, app("aaa"))],
        };
        let web = BucketEvents {
            bucket_id: "aw-watcher-web_phone".into(),
            events: vec![plain(0, 600, app("ccc"))],
        };
        let tablet = BucketEvents {
            bucket_id: "w-synced-from-tablet".into(),
            events: vec![tagged(200, 800, "tablet", app("Z"))],
        };
        let activity = match order {
            0 => vec![win, web, tablet],
            1 => vec![tablet, win, web],
            _ => vec![web, tablet, win],
        };
        let mut input = base(activity);
        input.min_contention = Duration::seconds(1);
        coalesce(compute_segments(input))
    };
    assert_eq!(build(0), build(1));
    assert_eq!(build(1), build(2));
}

#[test]
fn one_bucket_is_one_device_even_when_only_some_events_are_tagged() {
    let input = base(vec![BucketEvents {
        bucket_id: "aw-watcher-android-synced-from-jude_s_tab_s10_fe".into(),
        events: vec![
            plain(0, 600, app("Syncthing-Fork")),
            tagged(0, 600, "7b54cfe9-uuid", app("Syncthing-Fork")),
        ],
    }]);
    let segs = compute_segments(input);
    assert_eq!(segs.len(), 1);
    let devs: Vec<&str> = {
        let mut d: Vec<&str> = segs[0].active.iter().map(|a| a.device.as_str()).collect();
        d.sort();
        d.dedup();
        d
    };
    assert_eq!(devs, vec!["7b54cfe9-uuid"], "one bucket must be one device");
    assert_eq!(
        segs[0].state,
        SegmentState::Settled,
        "a device cannot contend with itself"
    );
    assert!(!segs[0].unresolved, "nothing to shade: there is only one device here");
}

#[test]
fn untagged_events_follow_their_bucket_tag_not_the_hostname() {
    let input = base(vec![BucketEvents {
        bucket_id: "aw-watcher-android-synced-from-somehost".into(),
        events: vec![
            plain(0, 100, app("A")),
            tagged(200, 300, "peer-uuid", app("B")),
        ],
    }]);
    let segs = compute_segments(input);
    assert_eq!(segs.len(), 2);
    for s in &segs {
        assert_eq!(s.active[0].device, "peer-uuid");
    }
}

#[test]
fn wholly_untagged_bucket_still_falls_back_to_hostname() {
    let input = base(vec![BucketEvents {
        bucket_id: "aw-watcher-android-synced-from-jude_s_tab_s10_fe".into(),
        events: vec![plain(0, 100, app("A"))],
    }]);
    let segs = compute_segments(input);
    assert_eq!(segs[0].active[0].device, "jude_s_tab_s10_fe");
}
