//! Activity that never counts: the launcher alone, the launcher against a device in use, the
//! launcher as the thing that made the day ask questions.

use aw_combined::{
    coalesce, compute_segments, default_min_contention, BucketEvents, Data, Event, Instant,
    NotCountedRule, PipelineInput, Segment, SegmentState, TextMap, EVENT_ORIGIN_KEY,
};

const PHONE: &str = "11111111-1111-1111-1111-111111111111";
const TABLET: &str = "22222222-2222-2222-2222-222222222222";

// 2026-09-10 10:00:00 UTC.
const BASE: i64 = 1_789_034_400;

fn t(min: i64) -> Instant {
    Instant::from_nanos((BASE + min * 60) as i128 * 1_000_000_000).unwrap()
}

fn event(start: Instant, end: Instant, device: &str, app: &str) -> Event {
    let data = Data::parse(&format!(r#"{{"app":"{app}","{EVENT_ORIGIN_KEY}":"{device}"}}"#));
    Event { id: None, timestamp: start, duration: end.since(start), data: data.unwrap() }
}

fn ev(start: i64, end: i64, device: &str, app: &str) -> Event {
    event(t(start), t(end), device, app)
}

fn bucket(id: &str, events: Vec<Event>) -> BucketEvents {
    BucketEvents { bucket_id: id.to_string(), events }
}

fn run(activity: Vec<BucketEvents>, rules: Vec<NotCountedRule>) -> Vec<Segment> {
    coalesce(compute_segments(PipelineInput {
        own_device: PHONE.to_string(),
        hostname_to_uuid: TextMap::new(),
        activity,
        idle: vec![],
        min_contention: default_min_contention(),
        decisions: vec![],
        not_counted: rules,
    }))
}

fn launcher_rule() -> NotCountedRule {
    NotCountedRule::new("One UI Home", false, None).unwrap()
}

fn counted(segments: &[Segment]) -> i64 {
    segments
        .iter()
        .filter(|s| !s.ignored)
        .map(|s| s.end.since(s.start).num_seconds())
        .sum()
}

#[test]
fn an_excluded_app_on_its_own_counts_toward_nothing_but_still_draws() {
    let segments = run(
        vec![bucket(
            "aw-watcher-android_phone",
            vec![ev(0, 30, PHONE, "One UI Home")],
        )],
        vec![launcher_rule()],
    );
    assert_eq!(segments.len(), 1, "the block is still there to look at");
    assert!(segments[0].ignored);
    assert!(
        segments[0].not_counted,
        "a rule did this, not an 'I was away' answer"
    );
    assert_eq!(segments[0].excluded_labels, vec!["One UI Home".to_string()]);
    assert_eq!(counted(&segments), 0);
}

#[test]
fn the_other_device_wins_time_the_excluded_app_was_competing_for() {
    let activity = vec![
        bucket(
            "aw-watcher-android_phone",
            vec![ev(0, 30, PHONE, "One UI Home")],
        ),
        bucket(
            "aw-watcher-window_tablet",
            vec![ev(0, 30, TABLET, "Kindle")],
        ),
    ];

    let before = run(activity.clone(), vec![]);
    assert_eq!(before[0].state, SegmentState::Contended);
    assert!(before[0].unresolved, "without the rule this is a question");

    let after = run(activity, vec![launcher_rule()]);
    assert_eq!(after.len(), 1);
    assert_eq!(after[0].state, SegmentState::Settled);
    assert!(!after[0].unresolved, "the launcher was never a competitor");
    assert!(
        !after[0].ignored,
        "real activity remains, so the time still counts"
    );
    assert_eq!(after[0].foreground_slice().device, TABLET);
    assert_eq!(
        after[0].excluded_labels,
        vec!["One UI Home".to_string()],
        "what was taken out is still sayable"
    );
    assert_eq!(counted(&after), 30 * 60);
}

#[test]
fn no_rules_is_exactly_the_old_behaviour() {
    let activity = vec![
        bucket(
            "aw-watcher-android_phone",
            vec![ev(0, 30, PHONE, "One UI Home")],
        ),
        bucket(
            "aw-watcher-window_tablet",
            vec![ev(0, 30, TABLET, "Kindle")],
        ),
    ];
    let segments = run(activity, vec![]);
    assert!(segments.iter().all(|s| !s.not_counted));
    assert!(segments.iter().all(|s| s.excluded_labels.is_empty()));
    assert_eq!(counted(&segments), 30 * 60);
}

#[test]
fn a_rule_that_matches_nothing_changes_nothing() {
    let segments = run(
        vec![bucket(
            "aw-watcher-window_tablet",
            vec![ev(0, 30, TABLET, "Kindle")],
        )],
        vec![NotCountedRule::new("Solitaire", false, None).unwrap()],
    );
    assert!(!segments[0].ignored);
    assert_eq!(counted(&segments), 30 * 60);
}

#[test]
fn case_insensitivity_is_the_rules_to_ask_for_not_the_default() {
    let activity = vec![bucket(
        "aw-watcher-android_phone",
        vec![ev(0, 30, PHONE, "One UI Home")],
    )];
    let sensitive = run(
        activity.clone(),
        vec![NotCountedRule::new("one ui home", false, None).unwrap()],
    );
    assert!(
        !sensitive[0].ignored,
        "a case-sensitive rule must not match"
    );

    let insensitive = run(
        activity,
        vec![NotCountedRule::new("one ui home", true, None).unwrap()],
    );
    assert!(insensitive[0].ignored);
}

#[test]
fn select_keys_limits_which_fields_a_rule_reads() {
    let segments = run(
        vec![bucket(
            "aw-watcher-android_phone",
            vec![ev(0, 30, PHONE, "One UI Home")],
        )],
        vec![NotCountedRule::new("One UI Home", false, Some(vec!["title".to_string()])).unwrap()],
    );
    assert!(!segments[0].ignored);
}

#[test]
fn an_empty_select_keys_is_refused_rather_than_matching_nothing_quietly() {
    assert!(NotCountedRule::new("x", false, Some(vec![])).is_err());
}

#[test]
fn excluding_one_of_three_leaves_the_other_two_contending() {
    let segments = run(
        vec![
            bucket(
                "aw-watcher-android_phone",
                vec![ev(0, 30, PHONE, "One UI Home")],
            ),
            bucket(
                "aw-watcher-window_tablet",
                vec![ev(0, 30, TABLET, "Kindle")],
            ),
            bucket(
                "aw-watcher-window_desktop-synced-from-desk",
                vec![ev(0, 30, "33333333-3333-3333-3333-333333333333", "vim")],
            ),
        ],
        vec![launcher_rule()],
    );
    assert_eq!(segments[0].state, SegmentState::Contended);
    assert!(segments[0].unresolved);
    assert_eq!(
        segments[0].active.len(),
        2,
        "the launcher is gone, the real two remain"
    );
    assert_eq!(counted(&segments), 30 * 60);
}

#[test]
fn two_devices_that_show_only_what_never_counts_are_not_asked_about() {
    let segments = run(
        vec![
            bucket("aw-watcher-android_phone", vec![ev(0, 30, PHONE, "One UI Home")]),
            bucket("aw-watcher-android_tablet", vec![ev(0, 30, TABLET, "One UI Home")]),
        ],
        vec![launcher_rule()],
    );
    assert_eq!(segments.len(), 1);
    assert!(segments[0].not_counted);
    assert_eq!(segments[0].state, SegmentState::Settled);
    assert!(!segments[0].unresolved);
    assert!(!segments[0].absorbed_short_contention, "there was nothing to absorb");
}
