//! Smoothing on blocks built by hand.

use aw_combined::{
    activity_label, smooth, ActiveSlice, Data, Duration, Instant, Segment, SegmentState,
    SmoothOptions,
};

// 2026-09-10 12:00:00 UTC.
const BASE: i64 = 1_789_041_600;

fn ts(sec: i64) -> Instant {
    Instant::from_nanos((BASE + sec) as i128 * 1_000_000_000).unwrap()
}

fn app(name: &str) -> Data {
    Data::parse(&format!(r#"{{"app":"{name}"}}"#)).unwrap()
}

fn seg(a: i64, b: i64, device: &str, label: &str) -> Segment {
    Segment {
        start: ts(a),
        end: ts(b),
        state: SegmentState::Settled,
        active: vec![ActiveSlice {
            device: device.to_string(),
            bucket_id: format!("bucket-{device}"),
            data: app(label),
            source_start: ts(a),
            source_end: ts(b),
        }],
        absorbed_short_contention: false,
        foreground: 0,
        unresolved: false,
        resolved_by: None,
        auto_resolved: false,
        label_override: None,
        ignored: false,
        not_counted: false,
        excluded_labels: Vec::new(),
        deliberate_background: Vec::new(),
        smoothed_seconds: 0,
        absorbed_labels: Vec::new(),
        foreground_shares: Vec::new(),
        bridged_ms: 0,
    }
}

fn label_of(seg: &Segment) -> String {
    seg.label_override
        .clone()
        .unwrap_or_else(|| activity_label(&seg.foreground_slice().data))
}

fn span(seg: &Segment) -> Duration {
    seg.end.since(seg.start)
}

fn shape(segs: &[Segment]) -> Vec<(i64, i64, String)> {
    segs.iter()
        .map(|s| {
            (
                s.start.since(ts(0)).num_seconds(),
                s.end.since(ts(0)).num_seconds(),
                label_of(s),
            )
        })
        .collect()
}

#[test]
fn a_bracketed_sliver_joins_the_stretch_around_it() {
    let segs = vec![
        seg(0, 600, "d1", "YouTube"),
        seg(600, 608, "d1", "One UI Home"),
        seg(608, 1200, "d1", "YouTube"),
    ];
    let out = smooth(segs, SmoothOptions::default());
    assert_eq!(shape(&out), vec![(0, 1200, "YouTube".to_string())]);
    assert_eq!(out[0].smoothed_seconds, 8);
    assert_eq!(out[0].absorbed_labels, vec!["One UI Home".to_string()]);
}

#[test]
fn an_unbracketed_sliver_stays_literal() {
    let segs = vec![
        seg(0, 600, "d1", "YouTube"),
        seg(600, 608, "d1", "One UI Home"),
        seg(608, 1200, "d1", "Firefox"),
    ];
    let out = smooth(segs, SmoothOptions::default());
    assert_eq!(shape(&out).len(), 3);
}

#[test]
fn the_noise_floor_takes_an_unbracketed_crumb_anyway() {
    let segs = vec![
        seg(0, 600, "d1", "YouTube"),
        seg(600, 602, "d1", "One UI Home"),
        seg(602, 1400, "d1", "Firefox"),
    ];
    let out = smooth(segs, SmoothOptions::default());
    assert_eq!(
        shape(&out),
        vec![
            (0, 600, "YouTube".to_string()),
            (600, 1400, "Firefox".to_string())
        ]
    );
    assert_eq!(out[1].absorbed_labels, vec!["One UI Home".to_string()]);
}

#[test]
fn off_still_keeps_the_noise_floor_and_nothing_else() {
    let segs = vec![
        seg(0, 600, "d1", "YouTube"),
        seg(600, 608, "d1", "One UI Home"),
        seg(608, 1200, "d1", "YouTube"),
        seg(1200, 1201, "d1", "Firefox"),
    ];
    let out = smooth(segs, SmoothOptions::from_sliver_secs(0));
    assert_eq!(
        shape(&out),
        vec![
            (0, 600, "YouTube".to_string()),
            (600, 608, "One UI Home".to_string()),
            (608, 1201, "YouTube".to_string()),
        ]
    );
}

#[test]
fn a_gap_is_never_crossed() {
    let segs = vec![
        seg(0, 600, "d1", "YouTube"),
        seg(700, 702, "d1", "One UI Home"),
        seg(702, 1200, "d1", "YouTube"),
    ];
    let out = smooth(segs, SmoothOptions::default());
    assert_eq!(out.len(), 2);
    assert_eq!(out[0].end, ts(600));
    assert_eq!(out[1].start, ts(700));
}

#[test]
fn an_answer_is_never_absorbed_into_an_unanswered_neighbour() {
    let mut segs = vec![
        seg(0, 600, "d1", "YouTube"),
        seg(600, 605, "d1", "One UI Home"),
        seg(605, 1200, "d1", "YouTube"),
    ];
    segs[1].resolved_by = Some("d_1".to_string());
    let out = smooth(segs, SmoothOptions::default());
    assert_eq!(shape(&out).len(), 3);
}

#[test]
fn a_question_is_never_smoothed_away() {
    let mut segs = vec![
        seg(0, 600, "d1", "YouTube"),
        seg(600, 603, "d1", "One UI Home"),
        seg(603, 1200, "d1", "YouTube"),
    ];
    segs[1].unresolved = true;
    segs[1].state = SegmentState::Contended;
    let out = smooth(segs, SmoothOptions::default());
    assert_eq!(shape(&out).len(), 3);
}

#[test]
fn one_decision_never_draws_as_three_blocks() {
    let mut segs = vec![
        seg(0, 300, "d1", "YouTube"),
        seg(300, 900, "d1", "Firefox"),
        seg(900, 1200, "d1", "YouTube"),
    ];
    for s in &mut segs {
        s.resolved_by = Some("d_1".to_string());
    }
    let out = smooth(segs, SmoothOptions::default());
    assert_eq!(out.len(), 1);
    assert_eq!(out[0].start, ts(0));
    assert_eq!(out[0].end, ts(1200));
    assert_eq!(out[0].smoothed_seconds, 600);
}

#[test]
fn a_run_of_slivers_absorbs_into_one_block() {
    let segs = vec![
        seg(0, 600, "d1", "YouTube"),
        seg(600, 604, "d1", "A"),
        seg(604, 610, "d1", "B"),
        seg(610, 613, "d1", "C"),
        seg(613, 1200, "d1", "YouTube"),
    ];
    let out = smooth(segs, SmoothOptions::default());
    assert_eq!(out.len(), 1);
    assert_eq!(
        out[0].absorbed_labels,
        vec!["A".to_string(), "B".to_string(), "C".to_string()]
    );
    assert_eq!(out[0].smoothed_seconds, 13);
}

#[test]
fn smoothing_is_idempotent() {
    let segs = vec![
        seg(0, 600, "d1", "YouTube"),
        seg(600, 608, "d1", "One UI Home"),
        seg(608, 1200, "d1", "YouTube"),
    ];
    let once = smooth(segs, SmoothOptions::default());
    let twice = smooth(once.clone(), SmoothOptions::default());
    assert_eq!(shape(&once), shape(&twice));
    assert_eq!(once[0].smoothed_seconds, twice[0].smoothed_seconds);
}

#[test]
fn no_seconds_are_created_or_lost() {
    let segs = vec![
        seg(0, 600, "d1", "YouTube"),
        seg(600, 608, "d1", "One UI Home"),
        seg(608, 1200, "d1", "YouTube"),
        seg(1200, 1800, "d2", "Firefox"),
    ];
    let before: i64 = segs.iter().map(|s| span(s).num_seconds()).sum();
    let out = smooth(segs, SmoothOptions::default());
    let after: i64 = out.iter().map(|s| span(s).num_seconds()).sum();
    assert_eq!(before, after);
}
