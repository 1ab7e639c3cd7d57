//! One overlap is one question, and its answers are offered longest first.

use aw_combined::{
    coalesce, compute_segments, default_min_contention, questions, smooth, BucketEvents, Data,
    Event, Instant, PipelineInput, QuestionOptions, Segment, SmoothOptions, TextMap,
    EVENT_ORIGIN_KEY,
};

const PHONE: &str = "11111111-1111-1111-1111-111111111111";
const S25U: &str = "22222222-2222-2222-2222-222222222222";
const TABLET: &str = "33333333-3333-3333-3333-333333333333";

// 2026-09-11 22:00:00 UTC.
const BASE: i64 = 1_789_164_000;

fn t(secs: i64) -> Instant {
    Instant::from_nanos((BASE + secs) as i128 * 1_000_000_000).unwrap()
}

fn event(start: Instant, end: Instant, device: &str, app: &str) -> Event {
    let data = Data::parse(&format!(r#"{{"app":"{app}","{EVENT_ORIGIN_KEY}":"{device}"}}"#));
    Event { id: None, timestamp: start, duration: end.since(start), data: data.unwrap() }
}

fn ev(start: i64, end: i64, device: &str, app: &str) -> Event {
    event(t(start), t(end), device, app)
}

fn bucket(id: &str, events: Vec<Event>) -> BucketEvents {
    BucketEvents { bucket_id: id.to_string(), events }
}

fn day(activity: Vec<BucketEvents>) -> Vec<Segment> {
    smooth(
        coalesce(compute_segments(PipelineInput {
            own_device: PHONE.to_string(),
            hostname_to_uuid: TextMap::new(),
            activity,
            idle: vec![],
            min_contention: default_min_contention(),
            decisions: vec![],
            not_counted: vec![],
        })),
        SmoothOptions::default(),
    )
}

// Emby on the phone from 22:31:53 to 23:10:07 against a peer that blinks out three times.
const A: i64 = 31 * 60 + 53;
const B: i64 = 33 * 60 + 30;
const C: i64 = 33 * 60 + 37;
const D: i64 = 51 * 60 + 53;
const E: i64 = 51 * 60 + 55;
const F: i64 = 60 * 60;
const G: i64 = 60 * 60 + 16;
const H: i64 = 70 * 60 + 7;

fn measured_day() -> Vec<Segment> {
    day(vec![
        bucket("aw-watcher-android_phone", vec![ev(A, H, PHONE, "Emby")]),
        bucket(
            "aw-watcher-android_s25u",
            vec![
                ev(A, B, S25U, "ActivityWatch"),
                ev(C, D, S25U, "ActivityWatch"),
                ev(D, E, S25U, "Interpreter"),
                ev(E, F, S25U, "ActivityWatch"),
                ev(G, H, S25U, "ActivityWatch"),
            ],
        ),
    ])
}

#[test]
fn one_overlap_broken_by_blinks_is_one_question() {
    let segments = measured_day();
    let contended = segments.iter().filter(|s| s.unresolved).count();
    assert!(
        contended >= 3,
        "the day must still contain the blocks that made this several questions, got {contended}"
    );

    let qs = questions(&segments, QuestionOptions::default());
    assert_eq!(
        qs.len(),
        1,
        "22:31:53 -> 23:10:07 is one thing that happened; got {} questions at {:?}",
        qs.len(),
        qs.iter().map(|q| (q.start, q.end)).collect::<Vec<_>>()
    );

    let q = &qs[0];
    assert_eq!(q.start, t(31 * 60 + 53));
    assert_eq!(q.end, t(70 * 60 + 7));
    assert_eq!(
        q.blocks.len(),
        contended,
        "every contended block belongs to the one question"
    );

    let unresolved = q.unresolved_seconds(&segments);
    let span = q.end.since(q.start).num_seconds();
    assert!(
        unresolved < span,
        "the settled slivers must stay out of the answerable time: {unresolved}s of {span}s"
    );
}

#[test]
fn a_long_settled_stretch_between_two_overlaps_is_two_questions() {
    let segments = day(vec![
        bucket("aw-watcher-android_phone", vec![ev(0, 3000, PHONE, "Emby")]),
        bucket(
            "aw-watcher-android_s25u",
            vec![
                ev(0, 1200, S25U, "ActivityWatch"),
                ev(1800, 3000, S25U, "ActivityWatch"),
            ],
        ),
    ]);
    let qs = questions(&segments, QuestionOptions::default());
    assert_eq!(qs.len(), 2, "ten minutes alone ends a competition");
}

#[test]
fn the_owners_example_offers_its_answers_longest_first() {
    let h = |n: f64| (n * 3600.0) as i64;
    let segments = day(vec![
        bucket(
            "aw-watcher-android_phone",
            vec![ev(h(1.0), h(3.0), PHONE, "YouTube")],
        ),
        bucket(
            "aw-watcher-android_s25u",
            vec![ev(h(1.0), h(2.5), S25U, "Game")],
        ),
        bucket(
            "aw-watcher-android_tablet",
            vec![ev(h(1.5), h(2.0), TABLET, "Work")],
        ),
    ]);

    let qs = questions(&segments, QuestionOptions::default());
    assert_eq!(
        qs.len(),
        1,
        "one overlapping stretch, however many times the cast changes inside it"
    );
    let q = &qs[0];

    let order: Vec<&str> = q.competitors.iter().map(|c| c.label.as_str()).collect();
    assert_eq!(order, vec!["YouTube", "Game", "Work"]);

    let secs: Vec<i64> = q.competitors.iter().map(|c| c.seconds).collect();
    assert_eq!(secs, vec![h(2.0), h(1.5), h(0.5)]);

    assert!(q.competitors[0].is_foreground);
    assert_eq!(
        q.competitors.iter().filter(|c| c.is_foreground).count(),
        1,
        "exactly one activity is foreground"
    );

    assert_eq!(q.start, t(h(1.0)));
    assert_eq!(q.end, t(h(2.5)));
}

#[test]
fn a_gap_of_zero_restores_the_old_one_question_per_block() {
    let segments = measured_day();
    let qs = questions(&segments, QuestionOptions::from_gap_secs(0));
    let contended = segments.iter().filter(|s| s.unresolved).count();
    assert_eq!(qs.len(), contended);
}

#[test]
fn a_different_winner_is_a_different_question() {
    let segments = day(vec![
        bucket(
            "aw-watcher-android_phone",
            vec![ev(0, 600, PHONE, "Emby"), ev(600, 3000, PHONE, "Emby")],
        ),
        bucket(
            "aw-watcher-android_s25u",
            vec![ev(0, 3000, S25U, "ActivityWatch")],
        ),
    ]);
    assert_eq!(questions(&segments, QuestionOptions::default()).len(), 1);
}

#[test]
fn with_no_gap_two_blocks_that_touch_are_two_questions() {
    // Cut where the phone changes its app; the winner is the same throughout.
    let blocks = compute_segments(PipelineInput {
        own_device: S25U.to_string(),
        hostname_to_uuid: TextMap::new(),
        activity: vec![
            bucket(
                "aw-watcher-android_phone",
                vec![ev(0, 600, PHONE, "Emby"), ev(600, 1200, PHONE, "Books")],
            ),
            bucket("aw-watcher-android_s25u", vec![ev(0, 1200, S25U, "ActivityWatch")]),
        ],
        idle: vec![],
        min_contention: default_min_contention(),
        decisions: vec![],
        not_counted: vec![],
    });
    assert_eq!(blocks.len(), 2);
    assert!(blocks.iter().all(|s| s.unresolved && s.foreground_slice().device == S25U));
    assert_eq!(blocks[0].end, blocks[1].start);
    assert_eq!(questions(&blocks, QuestionOptions::from_gap_secs(0)).len(), 2);
    assert_eq!(questions(&blocks, QuestionOptions::from_gap_secs(1)).len(), 1);
}
