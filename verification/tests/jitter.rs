//! A hole of a few milliseconds is not a gap, and one app is one block.

use aw_combined::{
    activity_label, coalesce, compute_segments, default_min_contention, smooth, BucketEvents,
    Data, Event, Instant, NotCountedRule, PipelineInput, Segment, SmoothOptions, TextMap,
    EVENT_ORIGIN_KEY,
};

// 2026-09-11 08:00:00 UTC.
const BASE: i64 = 1_789_113_600;

fn at(ms: i64) -> Instant {
    Instant::from_nanos((BASE * 1000 + ms) as i128 * 1_000_000).unwrap()
}

fn screen(a_ms: i64, b_ms: i64, app: &str, classname: &str) -> Event {
    let data = Data::parse(&format!(
        r#"{{"app":"{app}","classname":"{classname}","{EVENT_ORIGIN_KEY}":"phone"}}"#
    ));
    Event {
        id: None,
        timestamp: at(a_ms),
        duration: at(b_ms).since(at(a_ms)),
        data: data.unwrap(),
    }
}

fn event(a_ms: i64, b_ms: i64, app: &str) -> Event {
    screen(a_ms, b_ms, app, "MainActivity")
}

fn input(events: Vec<Event>) -> PipelineInput {
    input_excluding(events, Vec::new())
}

fn input_excluding(events: Vec<Event>, not_counted: Vec<NotCountedRule>) -> PipelineInput {
    PipelineInput {
        own_device: "phone".to_string(),
        hostname_to_uuid: TextMap::new(),
        activity: vec![BucketEvents {
            bucket_id: "aw-watcher-android_phone".to_string(),
            events,
        }],
        idle: Vec::new(),
        min_contention: default_min_contention(),
        decisions: Vec::new(),
        not_counted,
    }
}

fn day(events: Vec<Event>, sliver_secs: i64) -> Vec<Segment> {
    smooth(
        coalesce(compute_segments(input(events))),
        SmoothOptions::from_sliver_secs(sliver_secs),
    )
}

fn labels(segs: &[Segment]) -> Vec<String> {
    segs.iter().map(|s| activity_label(&s.foreground_slice().data)).collect()
}

fn counted_ms(segs: &[Segment]) -> i64 {
    segs.iter().map(|s| s.counted_span().num_milliseconds()).sum()
}

#[test]
fn a_hole_of_a_few_milliseconds_is_not_a_gap() {
    let segs = day(
        vec![event(0, 9_000, "Photos"), event(9_033, 20_000, "Photos")],
        15,
    );
    assert_eq!(labels(&segs), vec!["Photos"], "one app, one block");
}

#[test]
fn the_bridged_hole_is_drawn_over_but_never_counted() {
    let segs = day(
        vec![event(0, 9_000, "Photos"), event(9_033, 20_000, "Photos")],
        15,
    );
    let seg = &segs[0];
    assert_eq!(
        seg.end.since(seg.start).num_milliseconds(),
        20_000,
        "the block is drawn across the whole span"
    );
    assert_eq!(seg.bridged_ms, 33, "and remembers what it drew over");
    assert_eq!(
        seg.counted_span().num_milliseconds(),
        19_967,
        "but counts only what a watcher actually recorded"
    );
}

#[test]
fn a_real_gap_still_breaks_the_day() {
    let segs = day(
        vec![event(0, 9_000, "Photos"), event(17_000, 30_000, "Photos")],
        0,
    );
    assert_eq!(labels(&segs), vec!["Photos", "Photos"]);
}

#[test]
fn one_app_with_two_screens_is_one_block_and_two_shares() {
    let segs = day(
        vec![
            screen(0, 9_000, "Photos", "HomeActivity"),
            screen(9_000, 13_000, "Photos", "StoryViewActivity"),
            screen(13_000, 18_000, "Photos", "HomeActivity"),
        ],
        0,
    );
    assert_eq!(labels(&segs), vec!["Photos"], "one stretch of Photos");

    let shares = &segs[0].foreground_shares;
    assert_eq!(shares.len(), 2, "two screens inside it");
    assert_eq!(shares[0].data.get("classname").unwrap(), "HomeActivity");
    assert_eq!(shares[0].ms, 14_000);
    assert_eq!(shares[1].data.get("classname").unwrap(), "StoryViewActivity");
    assert_eq!(shares[1].ms, 4_000);
    assert_eq!(
        shares.iter().map(|s| s.ms).sum::<i64>(),
        segs[0].counted_span().num_milliseconds(),
        "the shares account for exactly the block's counted time"
    );
}

#[test]
fn the_owners_photos_stretch_stops_being_six_blocks() {
    let events = vec![
        screen(0, 215_615, "Photos", "HomeActivity"),
        screen(215_615, 226_694, "One UI Home", "Launcher"),
        screen(226_727, 235_835, "Photos", "HomeActivity"),
        screen(235_849, 240_075, "Photos", "StoryViewActivity"),
        screen(240_083, 244_990, "Photos", "HomeActivity"),
        screen(245_524, 247_094, "Photos", "HomeActivity"),
        screen(248_959, 251_378, "One UI Home", "Launcher"),
        screen(252_386, 254_550, "One UI Home", "Launcher"),
        screen(254_563, 332_323, "Photos", "HomeActivity"),
    ];
    let literal = day(events.clone(), 0);
    assert_eq!(
        labels(&literal),
        vec!["Photos", "One UI Home", "Photos", "One UI Home", "Photos",],
        "with smoothing off the launcher visits are still real, but each app draws once"
    );

    let smoothed = day(events.clone(), 15);
    assert_eq!(
        labels(&smoothed),
        vec!["Photos"],
        "at the owner's 15s the whole stretch is one block of Photos"
    );
    assert_eq!(
        smoothed[0].absorbed_labels,
        vec!["One UI Home".to_string()],
        "and it says what it swallowed rather than hiding it"
    );

    let recorded: i64 = events.iter().map(|e| e.duration.num_milliseconds()).sum();
    assert_eq!(counted_ms(&smoothed), recorded);
    assert_eq!(counted_ms(&literal), recorded);
}

#[test]
fn a_detour_through_two_apps_is_still_went_and_came_back() {
    let segs = day(
        vec![
            event(0, 300_000, "YouTube"),
            event(300_000, 310_000, "Photos"),
            event(310_000, 322_000, "Gallery"),
            event(322_000, 600_000, "YouTube"),
        ],
        15,
    );
    assert_eq!(labels(&segs), vec!["YouTube"]);
    assert_eq!(
        segs[0].absorbed_labels,
        vec!["Gallery".to_string(), "Photos".to_string()]
    );
}

#[test]
fn a_run_of_slivers_lands_in_the_anchor_not_in_another_sliver() {
    let segs = day(
        vec![
            event(0, 300_000, "YouTube"),
            event(300_000, 310_000, "A"),
            event(310_000, 322_000, "B"),
            event(322_000, 336_000, "C"),
            event(336_000, 600_000, "YouTube"),
        ],
        15,
    );
    assert_eq!(labels(&segs), vec!["YouTube"]);
    assert_eq!(
        segs[0].absorbed_labels,
        vec!["A".to_string(), "B".to_string(), "C".to_string()]
    );
}

#[test]
fn an_unbracketed_run_stays_literal() {
    let segs = day(
        vec![
            event(0, 300_000, "YouTube"),
            event(300_000, 310_000, "A"),
            event(310_000, 322_000, "B"),
            event(322_000, 600_000, "Reddit"),
        ],
        15,
    );
    assert_eq!(labels(&segs), vec!["YouTube", "A", "B", "Reddit"]);
}

#[test]
fn the_threshold_does_something_at_last() {
    let events = vec![
        event(0, 60_000, "YouTube"),
        event(60_014, 68_000, "One UI Home"),
        event(68_033, 130_000, "YouTube"),
    ];
    assert_eq!(
        labels(&day(events.clone(), 0)).len(),
        3,
        "off means literal, whatever the holes"
    );
    assert_eq!(
        labels(&day(events.clone(), 15)),
        vec!["YouTube"],
        "and at 15s the launcher flick is rounded away"
    );
}

#[test]
fn raising_the_threshold_never_adds_blocks_when_every_block_is_short() {
    let events = vec![
        event(0, 18_000, "YouTube"),
        event(18_008, 22_000, "One UI Home"),
        event(22_033, 40_000, "YouTube"),
        event(40_534, 43_000, "Photos"),
        event(44_008, 47_000, "Photos"),
        event(47_013, 61_000, "Reddit"),
        event(61_010, 64_000, "One UI Home"),
        event(64_020, 79_000, "Reddit"),
    ];
    let recorded: i64 = events.iter().map(|e| e.duration.num_milliseconds()).sum();
    let mut last = usize::MAX;
    for secs in [0, 5, 10, 15, 20, 30, 45, 60, 120, 300, 3600] {
        let segs = day(events.clone(), secs);
        assert!(
            segs.len() <= last,
            "{secs}s produced {} blocks, more than a smaller threshold's {last}",
            segs.len()
        );
        assert_eq!(
            counted_ms(&segs),
            recorded,
            "{secs}s changed what the day counts"
        );
        last = segs.len();
    }
}

#[test]
fn raising_the_threshold_never_adds_blocks_on_a_jittery_day() {
    let events = vec![
        event(0, 30_000, "YouTube"),
        event(30_008, 34_000, "One UI Home"),
        event(34_033, 41_000, "YouTube"),
        event(41_534, 43_000, "Photos"),
        event(44_008, 47_000, "Photos"),
        event(47_013, 120_000, "Reddit"),
    ];
    let recorded: i64 = events.iter().map(|e| e.duration.num_milliseconds()).sum();
    let mut last = usize::MAX;
    for secs in [0, 5, 10, 15, 30, 60, 300] {
        let segs = day(events.clone(), secs);
        assert!(
            segs.len() <= last,
            "{secs}s produced more blocks than a smaller threshold"
        );
        assert_eq!(
            counted_ms(&segs),
            recorded,
            "{secs}s changed how much the day counts"
        );
        last = segs.len();
    }
}

#[test]
fn a_bracket_does_not_disappear_when_the_threshold_rises() {
    let events = vec![
        event(0, 20_000, "Photos"),
        event(20_000, 30_000, "One UI Home"),
        event(30_000, 50_000, "Photos"),
    ];
    assert_eq!(labels(&day(events.clone(), 15)), vec!["Photos"]);
    assert_eq!(
        labels(&day(events.clone(), 60)),
        vec!["Photos"],
        "raising the threshold un-absorbed a sliver it had already absorbed"
    );
}

#[test]
fn a_run_in_a_day_of_short_blocks_still_collapses() {
    let events = vec![
        event(0, 20_000, "YouTube"),
        event(20_000, 30_000, "A"),
        event(30_000, 42_000, "B"),
        event(42_000, 62_000, "YouTube"),
    ];
    for secs in [15, 30, 60, 300] {
        let segs = day(events.clone(), secs);
        assert_eq!(labels(&segs), vec!["YouTube"], "at {secs}s");
    }
}

#[test]
fn a_sliver_never_joins_a_neighbour_that_is_not_the_bracket() {
    let events = vec![
        event(0, 300_000, "YouTube"),
        event(300_000, 314_000, "A"),
        event(314_000, 324_000, "B"),
        event(324_000, 338_000, "C"),
        event(338_000, 600_000, "YouTube"),
    ];
    let segs = day(events, 15);
    assert_eq!(labels(&segs), vec!["YouTube"]);
    assert_eq!(
        segs[0].absorbed_labels,
        vec!["A".to_string(), "B".to_string(), "C".to_string()]
    );
}

#[test]
fn an_unbracketed_run_between_short_blocks_is_still_left_alone() {
    let events = vec![
        event(0, 20_000, "YouTube"),
        event(20_000, 28_000, "A"),
        event(28_000, 36_000, "B"),
        event(36_000, 56_000, "Reddit"),
    ];
    for secs in [15, 60, 300] {
        assert_eq!(
            labels(&day(events.clone(), secs)),
            vec!["YouTube", "A", "B", "Reddit"],
            "at {secs}s"
        );
    }
}

#[test]
fn smoothing_never_moves_a_second_across_the_not_counted_line() {
    let events = vec![
        event(0, 60_000, "Photos"),
        event(60_014, 68_000, "One UI Home"),
        event(68_033, 130_000, "Photos"),
        event(130_040, 134_000, "Reddit"),
        event(134_020, 200_000, "One UI Home"),
    ];
    let rule = NotCountedRule::new("One UI Home", false, None).expect("a literal regex compiles");
    let segs = smooth(
        coalesce(compute_segments(input_excluding(
            events.clone(),
            vec![rule],
        ))),
        SmoothOptions::from_sliver_secs(60),
    );

    let recorded: i64 = events.iter().map(|e| e.duration.num_milliseconds()).sum();
    let counted: i64 = segs
        .iter()
        .filter(|s| !s.ignored)
        .map(|s| s.counted_span().num_milliseconds())
        .sum();
    // The span of a block that does not count is its uncounted one: `counted_span` leaves out what
    // a rule excluded, and would be nothing here.
    let excluded: i64 = segs
        .iter()
        .filter(|s| s.ignored)
        .map(|s| s.uncounted_span().num_milliseconds())
        .sum();

    let launcher: i64 = events
        .iter()
        .filter(|e| e.data.get("app").unwrap() == "One UI Home")
        .map(|e| e.duration.num_milliseconds())
        .sum();
    assert_eq!(excluded, launcher);
    assert_eq!(counted + excluded, recorded, "the day still adds up");
    assert!(
        segs.iter()
            .all(|s| s.absorbed_labels.iter().all(|l| l != "One UI Home")),
        "an excluded block was absorbed into one that counts"
    );
}
