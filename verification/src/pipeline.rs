//! The pipeline from events to attributed segments.

use vstd::prelude::*;

use crate::apply::{
    a_pick_was_running, apply, best, best_is_admitted, can_act, decided, rule_for_is_a_rule,
};
use crate::attribute::{attribute, attributions, winner_is_best};
use crate::classify::{classified, classify, contested, short_run};
use crate::exclude::{exclude, excluded, marks_of, never_counts, taken_out, unmarked, RuleV};
use crate::model::{
    attributed, events_end, roles_of, InputV, PipelineInput, Segment, SegmentState, SegmentV,
    SliceV,
};
use crate::normalise::{
    activity_of, idle_of, idle_time_is_taken_out, normalise, normalised, on_device,
};
use crate::segment::{
    atomic, between, disjoint, in_intervals, in_segments, segment, segmented,
    segments_partition_activity,
};
use crate::time::Duration;

verus! {

/// Default minimum contention in seconds.
pub const DEFAULT_MIN_CONTENTION_SECS: i64 = 60;

/// Default minimum contention: contended runs shorter than this are absorbed.
pub fn default_min_contention() -> (r: Duration)
    ensures
        r@ == DEFAULT_MIN_CONTENTION_SECS * 1_000_000_000,
{
    Duration::seconds(DEFAULT_MIN_CONTENTION_SECS)
}

/// The segments cut from an input, without what never counts.
pub open spec fn cut_and_excluded(input: InputV) -> Seq<SegmentV> {
    excluded(segmented(normalised(input)), input.not_counted)
}

/// The segments of an input: cut, excluded, classified, decided and attributed.
pub open spec fn computed(input: InputV) -> Seq<SegmentV> {
    attributions(
        decided(
            classified(cut_and_excluded(input), input.min_contention),
            input.decisions,
            roles_of(input.hostname_to_uuid),
        ),
    )
}

proof fn unmarked_len(slices: Seq<SliceV>, marks: Seq<bool>, n: int)
    requires
        0 <= n <= slices.len(),
        marks.len() == slices.len(),
    ensures
        unmarked(slices, marks, n).len() <= n,
        forall|i: int| 0 <= i < n && !#[trigger] marks[i] ==> unmarked(slices, marks, n).len() > 0,
        forall|k: int|
            0 <= k < unmarked(slices, marks, n).len() ==> slices.contains(
                #[trigger] unmarked(slices, marks, n)[k],
            ),
    decreases n,
{
    if n > 0 {
        unmarked_len(slices, marks, n - 1);
        let rest = unmarked(slices, marks, n - 1);
        let all = unmarked(slices, marks, n);
        assert forall|k: int| 0 <= k < all.len() implies slices.contains(#[trigger] all[k]) by {
            if k < rest.len() {
                assert(all[k] == rest[k]);
            } else {
                assert(slices[n - 1] == all[k]);
            }
        }
    }
}

/// Taking slices out leaves at least one, and only slices that were there.
pub proof fn taken_out_keeps(seg: SegmentV, marks: Seq<bool>)
    requires
        marks.len() == seg.active.len(),
        seg.active.len() > 0,
    ensures
        taken_out(seg, marks).active.len() > 0,
        forall|k: int|
            0 <= k < taken_out(seg, marks).active.len() ==> seg.active.contains(
                #[trigger] taken_out(seg, marks).active[k],
            ),
{
    unmarked_len(seg.active, marks, marks.len() as int);
    if marks.contains(false) {
        let i = choose|i: int| 0 <= i < marks.len() && marks[i] == false;
        assert(!marks[i]);
    }
    assert forall|k: int| 0 <= k < taken_out(seg, marks).active.len() implies seg.active.contains(
        #[trigger] taken_out(seg, marks).active[k],
    ) by {
        if taken_out(seg, marks).active == seg.active {
            assert(seg.active[k] == taken_out(seg, marks).active[k]);
        }
    }
}

/// Every segment that is cut has at least one slice left after exclusion.
pub proof fn something_is_active(input: InputV)
    ensures
        forall|i: int|
            0 <= i < cut_and_excluded(input).len() ==> (#[trigger] cut_and_excluded(
                input,
            )[i]).active.len() > 0,
{
    let segs = segmented(normalised(input));
    segments_partition_activity(normalised(input));
    assert forall|i: int| 0 <= i < cut_and_excluded(input).len() implies (#[trigger] cut_and_excluded(
        input,
    )[i]).active.len() > 0 by {
        assert(atomic(normalised(input), segs[i]));
        taken_out_keeps(segs[i], marks_of(input.not_counted, segs[i].active));
    }
}

/// Run the whole pipeline: normalise, segment, exclude, classify, apply decisions, attribute.
///
/// Merging and smoothing are separate calls: the pipeline itself loses nothing.
pub fn compute_segments(input: PipelineInput) -> (r: Vec<Segment>)
    requires
        events_end(input.deep_view().activity),
        events_end(input.deep_view().idle),
    ensures
        r.deep_view() == computed(input.deep_view()),
{
    let ghost iv = input.deep_view();
    let intervals = normalise(&input);
    let mut segments = segment(&intervals);
    exclude(&mut segments, &input.not_counted);
    classify(&mut segments, input.min_contention);
    let roles = input.roles_by_uuid();
    apply(&mut segments, &input.decisions, &roles);
    proof {
        something_is_active(iv);
        let cut = cut_and_excluded(iv);
        let sv = segments.deep_view();
        assert(sv.len() == segments.len());
        assert forall|i: int| 0 <= i < segments.len() implies (#[trigger] segments[i]).active.len()
            > 0 by {
            assert(sv[i] == segments@[i].deep_view());
            assert(sv[i].active == cut[i].active);
            assert(sv[i].active.len() == segments@[i].active.len());
        }
    }
    attribute(&mut segments);
    segments
}

/// A segment through the later steps keeps its span, its slices and what exclusion said of it.
pub proof fn later_steps_keep(input: InputV, i: int)
    requires
        0 <= i < computed(input).len(),
    ensures
        computed(input).len() == cut_and_excluded(input).len(),
        computed(input)[i].start == cut_and_excluded(input)[i].start,
        computed(input)[i].end == cut_and_excluded(input)[i].end,
        computed(input)[i].active == cut_and_excluded(input)[i].active,
        computed(input)[i].not_counted == cut_and_excluded(input)[i].not_counted,
        computed(input)[i].excluded_labels == cut_and_excluded(input)[i].excluded_labels,
        cut_and_excluded(input)[i].ignored ==> computed(input)[i].ignored,
{
}

/// Exactly one activity counts at any instant: the segments do not overlap, and each of them has
/// one of its own slices in the foreground.
pub proof fn one_activity_counts_at_any_instant(input: InputV)
    ensures
        disjoint(computed(input)),
        forall|i: int| 0 <= i < computed(input).len() ==> attributed(#[trigger] computed(input)[i]),
{
    let cut = cut_and_excluded(input);
    let roles = roles_of(input.hostname_to_uuid);
    let marked = classified(cut, input.min_contention);
    let d = decided(marked, input.decisions, roles);
    let out = computed(input);
    something_is_active(input);
    segments_partition_activity(normalised(input));
    assert forall|i: int, j: int| 0 <= i < j < out.len() implies (#[trigger] out[i]).end <= (
    #[trigger] out[j]).start by {
        later_steps_keep(input, i);
        later_steps_keep(input, j);
        let segs = segmented(normalised(input));
        assert(segs[i].end <= segs[j].start);
    }
    assert forall|i: int| 0 <= i < out.len() implies attributed(#[trigger] out[i]) by {
        let seg = marked[i];
        assert(cut[i].active.len() > 0);
        winner_is_best(d[i].active, d[i].active.len() as int);
        best_is_admitted(
            input.decisions,
            crate::apply::answers(seg, roles),
            input.decisions.len() as int,
        );
        segment_is_fresh(input, i);
        if d[i].foreground != usize::MAX {
            settled_foreground(seg, input, roles);
        }
    }
}

/// The foreground that a decision names is one of the segment's slices.
proof fn settled_foreground(seg: SegmentV, input: InputV, roles: Map<Seq<char>, Seq<char>>)
    requires
        seg.foreground == usize::MAX,
    ensures
        ({
            let d = crate::apply::settled(seg, input.decisions, roles);
            d.foreground == usize::MAX || 0 <= d.foreground < seg.active.len()
        }),
{
    let ds = input.decisions;
    best_is_admitted(ds, crate::apply::answers(seg, roles), ds.len() as int);
    match best(ds, crate::apply::answers(seg, roles), ds.len() as int) {
        Some(i) => {
            assert(can_act(seg.active, ds[i], roles));
            if let Some(pick) = ds[i].resolution.foreground {
                a_pick_was_running(seg.active, pick, roles);
            }
        },
        None => {
            rule_for_is_a_rule(ds, seg.active, roles);
            if let Some(i) = crate::apply::rule_for(ds, seg.active, roles) {
                if let Some(pick) = ds[i].resolution.foreground {
                    a_pick_was_running(seg.active, pick, roles);
                }
            }
        },
    }
}

/// The segments cover a moment exactly when some device is active then: one of its activity events
/// covers the moment and none of its own idle periods does.
pub proof fn the_day_covers_what_was_active(input: InputV)
    ensures
        forall|t: int| #[trigger]
            in_segments(computed(input), t) <==> exists|device: Seq<char>| #[trigger]
                on_device(activity_of(input), device, t) && !on_device(idle_of(input), device, t),
{
    let ivs = normalised(input);
    let segs = segmented(ivs);
    let out = computed(input);
    segments_partition_activity(ivs);
    idle_time_is_taken_out(input);
    assert(out.len() == segs.len());
    assert forall|t: int| #[trigger] in_segments(out, t) <==> exists|device: Seq<char>| #[trigger]
        on_device(activity_of(input), device, t) && !on_device(idle_of(input), device, t) by {
        assert(in_segments(out, t) <==> in_segments(segs, t)) by {
            if in_segments(out, t) {
                let k = choose|k: int|
                    0 <= k < out.len() && (#[trigger] out[k]).start <= t < out[k].end;
                later_steps_keep(input, k);
                assert(segs[k].start <= t < segs[k].end);
            }
            if in_segments(segs, t) {
                let k = choose|k: int|
                    0 <= k < segs.len() && (#[trigger] segs[k]).start <= t < segs[k].end;
                later_steps_keep(input, k);
                assert(out[k].start <= t < out[k].end);
            }
        }
        assert(in_segments(segs, t) <==> in_intervals(ivs, t));
        if in_intervals(ivs, t) {
            let i = choose|i: int|
                0 <= i < ivs.len() && (#[trigger] ivs[i]).start <= t < ivs[i].end;
            assert(on_device(ivs, ivs[i].device, t));
            assert(on_device(activity_of(input), ivs[i].device, t));
        }
        if exists|device: Seq<char>| #[trigger]
            on_device(activity_of(input), device, t) && !on_device(idle_of(input), device, t) {
            let device = choose|device: Seq<char>| #[trigger]
                on_device(activity_of(input), device, t) && !on_device(idle_of(input), device, t);
            assert(on_device(ivs, device, t));
            let i = choose|i: int|
                0 <= i < ivs.len() && (#[trigger] ivs[i]).device == device && ivs[i].start <= t
                    < ivs[i].end;
            assert(ivs[i].start <= t < ivs[i].end);
        }
    }
}

/// A segment is open exactly where two devices competed for long enough and no decision settled
/// it. One that a decision settled is never open.
pub proof fn open_means_contended_and_undecided(input: InputV, i: int)
    requires
        0 <= i < computed(input).len(),
    ensures
        ({
            let cut = cut_and_excluded(input);
            let seg = computed(input)[i];
            &&& seg.unresolved <==> contested(cut[i]) && !short_run(
                cut,
                i,
                input.min_contention,
            ) && seg.resolved_by is None
            &&& seg.unresolved <==> seg.state == SegmentState::Contended
        }),
{
    let cut = cut_and_excluded(input);
    let roles = roles_of(input.hostname_to_uuid);
    let marked = classified(cut, input.min_contention);
    let segs = segmented(normalised(input));
    segment_is_fresh(input, i);
}

/// A segment that has just been cut carries no decision.
pub proof fn segment_is_fresh(input: InputV, i: int)
    requires
        0 <= i < cut_and_excluded(input).len(),
    ensures
        cut_and_excluded(input)[i].resolved_by is None,
        cut_and_excluded(input)[i].foreground == usize::MAX,
        cut_and_excluded(input)[i].ignored == cut_and_excluded(input)[i].not_counted,
{
    let ivs = normalised(input);
    let at = crate::segment::marks(ivs);
    between_is_fresh(ivs, at, at.len() - 1, i);
}

proof fn between_is_fresh(ivs: Seq<crate::normalise::IntervalV>, at: Seq<int>, n: int, k: int)
    requires
        0 <= k < between(ivs, at, n).len(),
    ensures
        between(ivs, at, n)[k].resolved_by is None,
        between(ivs, at, n)[k].foreground == usize::MAX,
        !between(ivs, at, n)[k].ignored,
        !between(ivs, at, n)[k].not_counted,
    decreases n,
{
    if n > 0 {
        let rest = between(ivs, at, n - 1);
        if k < rest.len() {
            between_is_fresh(ivs, at, n - 1, k);
        }
    }
}

/// What never counts is never a competitor: in a segment that counts no slice matches a rule, and
/// in one that a rule emptied every slice does, it counts toward nothing, and nothing is asked about
/// it.
pub proof fn what_never_counts_never_competes(input: InputV, i: int)
    requires
        0 <= i < computed(input).len(),
    ensures
        ({
            let seg = computed(input)[i];
            &&& !seg.not_counted ==> forall|k: int|
                0 <= k < seg.active.len() ==> !never_counts(
                    input.not_counted,
                    (#[trigger] seg.active[k]).data,
                )
            &&& seg.not_counted ==> !seg.unresolved
            &&& seg.not_counted ==> seg.ignored && forall|k: int|
                0 <= k < seg.active.len() ==> never_counts(
                    input.not_counted,
                    (#[trigger] seg.active[k]).data,
                )
        }),
{
    later_steps_keep(input, i);
    let ivs = normalised(input);
    let segs = segmented(ivs);
    segments_partition_activity(ivs);
    let at = crate::segment::marks(ivs);
    between_is_fresh(ivs, at, at.len() - 1, i);
    let marks = marks_of(input.not_counted, segs[i].active);
    assert(atomic(ivs, segs[i]));
    assert(marks[0] == true || marks[0] == false);
    unmarked_matches(input.not_counted, segs[i].active, marks, marks.len() as int);
    let out = cut_and_excluded(input)[i];
    assert(out == taken_out(segs[i], marks));
    if !marks.contains(true) {
        assert forall|k: int| 0 <= k < out.active.len() implies !never_counts(
            input.not_counted,
            (#[trigger] out.active[k]).data,
        ) by {
            assert(marks[k] == never_counts(input.not_counted, segs[i].active[k].data));
            if marks[k] {
                assert(marks.contains(true));
            }
        }
    } else if !marks.contains(false) {
        assert forall|k: int| 0 <= k < out.active.len() implies never_counts(
            input.not_counted,
            (#[trigger] out.active[k]).data,
        ) by {
            assert(marks[k] == never_counts(input.not_counted, segs[i].active[k].data));
            if !marks[k] {
                assert(marks.contains(false));
            }
        }
    }
}

proof fn unmarked_matches(
    rules: Seq<RuleV>,
    slices: Seq<SliceV>,
    marks: Seq<bool>,
    n: int,
)
    requires
        marks == marks_of(rules, slices),
        0 <= n <= slices.len(),
    ensures
        forall|k: int|
            0 <= k < unmarked(slices, marks, n).len() ==> !never_counts(
                rules,
                (#[trigger] unmarked(slices, marks, n)[k]).data,
            ),
    decreases n,
{
    if n > 0 {
        unmarked_matches(rules, slices, marks, n - 1);
        let rest = unmarked(slices, marks, n - 1);
        let all = unmarked(slices, marks, n);
        assert forall|k: int| 0 <= k < all.len() implies !never_counts(
            rules,
            (#[trigger] all[k]).data,
        ) by {
            if k < rest.len() {
                assert(all[k] == rest[k]);
            }
        }
    }
}

} // verus!
