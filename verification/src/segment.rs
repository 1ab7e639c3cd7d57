//! Cut the timeline at every interval's ends, and list what covers each piece.

use vstd::prelude::*;

use crate::list;
use crate::model::{ActiveSlice, Segment, SegmentState, SegmentV, SliceV};
use crate::normalise::{Interval, IntervalV};
use crate::order::{
    arranged, arranged_contains, arranged_in_order, arranged_keeps, in_order, sort, Sortable,
};
use crate::time::Instant;

verus! {

/// The starts and ends of the first `n` intervals.
pub open spec fn ends_of(ivs: Seq<IntervalV>, n: int) -> Seq<int>
    decreases n,
{
    if n <= 0 {
        Seq::empty()
    } else {
        ends_of(ivs, n - 1).push(ivs[n - 1].start).push(ivs[n - 1].end)
    }
}

/// Every start and end, ascending, each once.
pub open spec fn marks(ivs: Seq<IntervalV>) -> Seq<int> {
    list::deduped(arranged::<Instant>(ends_of(ivs, ivs.len() as int)))
}

/// An interval as a slice of a segment.
pub open spec fn slice_of(iv: IntervalV) -> SliceV {
    SliceV {
        device: iv.device,
        bucket_id: iv.bucket_id,
        data: iv.data,
        source_start: iv.start,
        source_end: iv.end,
    }
}

/// Those of the first `n` intervals that span the whole of `a` to `b`.
pub open spec fn covering(ivs: Seq<IntervalV>, a: int, b: int, n: int) -> Seq<SliceV>
    decreases n,
{
    if n <= 0 {
        Seq::empty()
    } else if ivs[n - 1].start <= a && b <= ivs[n - 1].end {
        covering(ivs, a, b, n - 1).push(slice_of(ivs[n - 1]))
    } else {
        covering(ivs, a, b, n - 1)
    }
}

/// A segment as it is cut: settled, and nothing decided about it.
pub open spec fn fresh(a: int, b: int, slices: Seq<SliceV>) -> SegmentV {
    SegmentV {
        start: a,
        end: b,
        state: SegmentState::Settled,
        active: arranged::<ActiveSlice>(slices),
        absorbed_short_contention: false,
        foreground: usize::MAX as int,
        unresolved: false,
        resolved_by: None,
        auto_resolved: false,
        label_override: None,
        ignored: false,
        not_counted: false,
        excluded_labels: Seq::empty(),
        deliberate_background: Seq::empty(),
        smoothed_seconds: 0,
        absorbed_labels: Seq::empty(),
        foreground_shares: Seq::empty(),
        bridged_ms: 0,
    }
}

/// The segments between the first `n + 1` marks. Where nothing was active there is none.
pub open spec fn between(ivs: Seq<IntervalV>, at: Seq<int>, n: int) -> Seq<SegmentV>
    decreases n,
{
    if n <= 0 {
        Seq::empty()
    } else {
        let rest = between(ivs, at, n - 1);
        let slices = covering(ivs, at[n - 1], at[n], ivs.len() as int);
        if slices.len() > 0 {
            rest.push(fresh(at[n - 1], at[n], slices))
        } else {
            rest
        }
    }
}

/// The atomic segments of a list of intervals.
pub open spec fn segmented(ivs: Seq<IntervalV>) -> Seq<SegmentV> {
    between(ivs, marks(ivs), marks(ivs).len() - 1)
}

/// Every start and end, ascending, each once.
fn boundaries(intervals: &Vec<Interval>) -> (r: Vec<Instant>)
    ensures
        r.deep_view() == marks(intervals.deep_view()),
{
    let ghost ivs = intervals.deep_view();
    let mut ends: Vec<Instant> = Vec::new();
    assert(ends.deep_view() =~= Seq::empty());
    let mut i: usize = 0;
    while i < intervals.len()
        invariant
            i <= intervals.len(),
            ivs == intervals.deep_view(),
            ends.deep_view() == ends_of(ivs, i as int),
        decreases intervals.len() - i,
    {
        assert(ivs[i as int] == intervals@[i as int].deep_view());
        list::push(&mut ends, intervals[i].start);
        list::push(&mut ends, intervals[i].end);
        i = i + 1;
    }
    assert(ivs.len() == intervals.len());
    sort(&mut ends);
    let ghost all = ends.deep_view();
    assert(all.len() == ends.len());
    let mut out: Vec<Instant> = Vec::new();
    assert(out.deep_view() =~= Seq::empty());
    let mut k: usize = 0;
    while k < ends.len()
        invariant
            k <= ends.len(),
            all == ends.deep_view(),
            out.deep_view() == list::runs(all, k as int),
        decreases ends.len() - k,
    {
        assert(all[k as int] == ends@[k as int]@);
        if k > 0 {
            assert(all[k - 1] == ends@[k - 1]@);
        }
        if k == 0 || ends[k] != ends[k - 1] {
            list::push(&mut out, ends[k]);
        }
        k = k + 1;
    }
    out
}

/// Cut the timeline at every interval's start and end and return one segment per piece during
/// which anything was active.
///
/// Adjacent segments are not merged: a boundary from any device's app change is a real boundary.
pub fn segment(intervals: &Vec<Interval>) -> (r: Vec<Segment>)
    ensures
        r.deep_view() == segmented(intervals.deep_view()),
{
    let ghost ivs = intervals.deep_view();
    let at = boundaries(intervals);
    let ghost av = at.deep_view();
    assert(av.len() == at.len());
    let mut segments: Vec<Segment> = Vec::new();
    assert(segments.deep_view() =~= Seq::empty());
    let mut k: usize = 1;
    while k < at.len()
        invariant
            1 <= k,
            k <= at.len() || (at.len() == 0 && k == 1),
            av == at.deep_view(),
            av.len() == at.len(),
            ivs == intervals.deep_view(),
            segments.deep_view() == between(ivs, av, k - 1),
        decreases at.len() - k,
    {
        let a = at[k - 1];
        let b = at[k];
        assert(av[k - 1] == a@ && av[k as int] == b@);
        let mut active: Vec<ActiveSlice> = Vec::new();
        assert(active.deep_view() =~= Seq::empty());
        let mut i: usize = 0;
        while i < intervals.len()
            invariant
                i <= intervals.len(),
                ivs == intervals.deep_view(),
                active.deep_view() == covering(ivs, a@, b@, i as int),
            decreases intervals.len() - i,
        {
            let iv = &intervals[i];
            assert(ivs[i as int] == iv.deep_view());
            if !a.earlier_than(iv.start) && !iv.end.earlier_than(b) {
                list::push(
                    &mut active,
                    ActiveSlice {
                        device: iv.device.clone(),
                        bucket_id: iv.bucket_id.clone(),
                        data: iv.data.clone(),
                        source_start: iv.start,
                        source_end: iv.end,
                    },
                );
            }
            i = i + 1;
        }
        assert(ivs.len() == intervals.len());
        assert(active.deep_view().len() == active.len());
        if active.len() > 0 {
            let ghost slices = active.deep_view();
            sort(&mut active);
            let seg = Segment {
                start: a,
                end: b,
                state: SegmentState::Settled,
                active,
                absorbed_short_contention: false,
                foreground: usize::MAX,
                unresolved: false,
                resolved_by: None,
                auto_resolved: false,
                label_override: None,
                ignored: false,
                not_counted: false,
                excluded_labels: Vec::new(),
                deliberate_background: Vec::new(),
                smoothed_seconds: 0,
                absorbed_labels: Vec::new(),
                foreground_shares: Vec::new(),
                bridged_ms: 0,
            };
            assert(seg.deep_view() =~= fresh(a@, b@, slices));
            list::push(&mut segments, seg);
        }
        k = k + 1;
    }
    segments
}

/// Strictly ascending.
pub open spec fn ascending(at: Seq<int>) -> bool {
    forall|i: int, j: int| 0 <= i < j < at.len() ==> (#[trigger] at[i]) < (#[trigger] at[j])
}

proof fn runs_ascending(s: Seq<int>, n: int)
    requires
        in_order::<Instant>(s),
        0 <= n <= s.len(),
    ensures
        ascending(list::runs(s, n)),
    decreases n,
{
    if n > 0 {
        runs_ascending(s, n - 1);
        list::runs_contain(s, n - 1);
        let r = list::runs(s, n - 1);
        if !(n >= 2 && s[n - 1] == s[n - 2]) && n >= 2 {
            assert(!<Instant as Sortable>::precedes(s[n - 1], s[n - 2]));
            assert(r.last() == s[n - 2]);
            assert forall|i: int, j: int| 0 <= i < j < r.len() + 1 implies (#[trigger] r.push(
                s[n - 1],
            )[i]) < (#[trigger] r.push(s[n - 1])[j]) by {
                if j == r.len() && i < r.len() - 1 {
                    assert(r[i] < r[r.len() - 1]);
                }
            }
        }
    }
}

proof fn ends_of_contains(ivs: Seq<IntervalV>, n: int, i: int)
    requires
        0 <= i < n <= ivs.len(),
    ensures
        ends_of(ivs, n).contains(ivs[i].start),
        ends_of(ivs, n).contains(ivs[i].end),
    decreases n,
{
    let rest = ends_of(ivs, n - 1);
    let s = ends_of(ivs, n);
    if i == n - 1 {
        assert(s[rest.len() as int] == ivs[i].start);
        assert(s[rest.len() as int + 1] == ivs[i].end);
    } else {
        ends_of_contains(ivs, n - 1, i);
        let a = choose|a: int| 0 <= a < rest.len() && rest[a] == ivs[i].start;
        let b = choose|b: int| 0 <= b < rest.len() && rest[b] == ivs[i].end;
        assert(s[a] == ivs[i].start);
        assert(s[b] == ivs[i].end);
    }
}

/// The marks ascend, and every interval starts and ends at one of them.
pub proof fn marks_sound(ivs: Seq<IntervalV>)
    ensures
        ascending(marks(ivs)),
        forall|i: int|
            0 <= i < ivs.len() ==> marks(ivs).contains((#[trigger] ivs[i]).start) && marks(
                ivs,
            ).contains(ivs[i].end),
{
    let e = ends_of(ivs, ivs.len() as int);
    let s = arranged::<Instant>(e);
    arranged_in_order::<Instant>(e);
    runs_ascending(s, s.len() as int);
    list::runs_contain(s, s.len() as int);
    assert(s.take(s.len() as int) =~= s);
    assert forall|i: int| 0 <= i < ivs.len() implies marks(ivs).contains((#[trigger] ivs[i]).start)
        && marks(ivs).contains(ivs[i].end) by {
        ends_of_contains(ivs, ivs.len() as int, i);
        arranged_contains::<Instant>(e, ivs[i].start);
        arranged_contains::<Instant>(e, ivs[i].end);
        assert(s.take(s.len() as int).contains(ivs[i].start));
        assert(s.take(s.len() as int).contains(ivs[i].end));
    }
}

/// The slices over a span are exactly the intervals that cover it.
proof fn covering_sound(ivs: Seq<IntervalV>, a: int, b: int, n: int)
    requires
        0 <= n <= ivs.len(),
    ensures
        forall|i: int|
            0 <= i < n && (#[trigger] ivs[i]).start <= a && b <= ivs[i].end ==> covering(
                ivs,
                a,
                b,
                n,
            ).contains(slice_of(ivs[i])),
        forall|k: int|
            0 <= k < covering(ivs, a, b, n).len() ==> exists|i: int|
                0 <= i < n && (#[trigger] ivs[i]).start <= a && b <= ivs[i].end && slice_of(ivs[i])
                    == #[trigger] covering(ivs, a, b, n)[k],
    decreases n,
{
    if n > 0 {
        covering_sound(ivs, a, b, n - 1);
        let rest = covering(ivs, a, b, n - 1);
        let all = covering(ivs, a, b, n);
        assert forall|i: int|
            0 <= i < n && (#[trigger] ivs[i]).start <= a && b <= ivs[i].end implies all.contains(
            slice_of(ivs[i]),
        ) by {
            if i == n - 1 {
                assert(all[rest.len() as int] == slice_of(ivs[i]));
            } else {
                assert(rest.contains(slice_of(ivs[i])));
                let k = choose|k: int| 0 <= k < rest.len() && rest[k] == slice_of(ivs[i]);
                assert(all[k] == slice_of(ivs[i]));
            }
        }
        assert forall|k: int| 0 <= k < all.len() implies exists|i: int|
            0 <= i < n && (#[trigger] ivs[i]).start <= a && b <= ivs[i].end && slice_of(ivs[i])
                == #[trigger] all[k] by {
            if k < rest.len() {
                assert(all[k] == rest[k]);
            } else {
                assert(ivs[n - 1].start <= a);
            }
        }
    }
}

/// Where the slices over a span come from.
pub open spec fn from_interval(ivs: Seq<IntervalV>, s: SliceV) -> bool {
    exists|i: int| 0 <= i < ivs.len() && slice_of(#[trigger] ivs[i]) == s
}

/// What every atomic segment is: it lasts some time, something is active in it, and every slice
/// is an interval that spans it.
pub open spec fn atomic(ivs: Seq<IntervalV>, seg: SegmentV) -> bool {
    &&& seg.start < seg.end
    &&& seg.active.len() > 0
    &&& forall|k: int|
        0 <= k < seg.active.len() ==> from_interval(ivs, #[trigger] seg.active[k])
            && seg.active[k].source_start <= seg.start && seg.end <= seg.active[k].source_end
}

proof fn fresh_atomic(ivs: Seq<IntervalV>, a: int, b: int)
    requires
        a < b,
        covering(ivs, a, b, ivs.len() as int).len() > 0,
    ensures
        atomic(ivs, fresh(a, b, covering(ivs, a, b, ivs.len() as int))),
{
    let slices = covering(ivs, a, b, ivs.len() as int);
    let active = arranged::<ActiveSlice>(slices);
    arranged_keeps::<ActiveSlice>(slices);
    covering_sound(ivs, a, b, ivs.len() as int);
    assert forall|k: int| 0 <= k < active.len() implies from_interval(ivs, #[trigger] active[k])
        && active[k].source_start <= a && b <= active[k].source_end by {
        arranged_contains::<ActiveSlice>(slices, active[k]);
        assert(active.contains(active[k]));
        let j = choose|j: int| 0 <= j < slices.len() && slices[j] == active[k];
        assert(slices[j] == active[k]);
    }
}

/// Whether `t` falls inside one of the segments.
pub open spec fn in_segments(segs: Seq<SegmentV>, t: int) -> bool {
    exists|k: int| 0 <= k < segs.len() && (#[trigger] segs[k]).start <= t < segs[k].end
}

/// Whether `t` falls inside one of the intervals.
pub open spec fn in_intervals(ivs: Seq<IntervalV>, t: int) -> bool {
    exists|i: int| 0 <= i < ivs.len() && (#[trigger] ivs[i]).start <= t < ivs[i].end
}

/// Each segment ends before the next begins.
pub open spec fn disjoint(segs: Seq<SegmentV>) -> bool {
    forall|i: int, j: int|
        0 <= i < j < segs.len() ==> (#[trigger] segs[i]).end <= (#[trigger] segs[j]).start
}

proof fn between_sound(ivs: Seq<IntervalV>, at: Seq<int>, n: int)
    requires
        ascending(at),
        0 <= n < at.len(),
    ensures
        disjoint(between(ivs, at, n)),
        forall|k: int| 0 <= k < between(ivs, at, n).len() ==> atomic(ivs, #[trigger] between(ivs, at, n)[k]),
        forall|k: int|
            0 <= k < between(ivs, at, n).len() ==> (#[trigger] between(ivs, at, n)[k]).end <= at[n],
    decreases n,
{
    if n > 0 {
        between_sound(ivs, at, n - 1);
        let slices = covering(ivs, at[n - 1], at[n], ivs.len() as int);
        if slices.len() > 0 {
            fresh_atomic(ivs, at[n - 1], at[n]);
        }
    }
}

/// The piece between two marks is a segment wherever something spans it.
proof fn between_has(ivs: Seq<IntervalV>, at: Seq<int>, n: int, k: int)
    requires
        0 <= k < n < at.len(),
        covering(ivs, at[k], at[k + 1], ivs.len() as int).len() > 0,
    ensures
        exists|s: int|
            0 <= s < between(ivs, at, n).len() && (#[trigger] between(ivs, at, n)[s]).start == at[k]
                && between(ivs, at, n)[s].end == at[k + 1],
    decreases n,
{
    let rest = between(ivs, at, n - 1);
    let all = between(ivs, at, n);
    if k == n - 1 {
        assert(all[rest.len() as int].start == at[k]);
    } else {
        between_has(ivs, at, n - 1, k);
        let s = choose|s: int| 0 <= s < rest.len() && (#[trigger] rest[s]).start == at[k] && rest[s].end == at[k + 1];
        assert(all[s] == rest[s]);
    }
}

/// The last mark no later than `t`.
proof fn mark_before(at: Seq<int>, t: int, lo: int) -> (k: int)
    requires
        ascending(at),
        0 <= lo < at.len(),
        at[lo] <= t < at.last(),
    ensures
        lo <= k < at.len() - 1,
        at[k] <= t < at[k + 1],
    decreases at.len() - lo,
{
    if t < at[lo + 1] {
        lo
    } else {
        mark_before(at, t, lo + 1)
    }
}

/// The segments cover exactly the time during which anything was active, without overlapping; in
/// each of them something is active, and every slice spans it whole.
pub proof fn segments_partition_activity(ivs: Seq<IntervalV>)
    ensures
        disjoint(segmented(ivs)),
        forall|k: int| 0 <= k < segmented(ivs).len() ==> atomic(ivs, #[trigger] segmented(ivs)[k]),
        forall|t: int| #[trigger] in_segments(segmented(ivs), t) <==> in_intervals(ivs, t),
{
    let at = marks(ivs);
    let segs = segmented(ivs);
    marks_sound(ivs);
    if at.len() > 0 {
        between_sound(ivs, at, at.len() - 1);
    }
    assert forall|t: int| #[trigger] in_segments(segs, t) <==> in_intervals(ivs, t) by {
        if in_segments(segs, t) {
            let k = choose|k: int| 0 <= k < segs.len() && (#[trigger] segs[k]).start <= t < segs[k].end;
            assert(atomic(ivs, segs[k]));
            assert(from_interval(ivs, segs[k].active[0]));
            let i = choose|i: int| 0 <= i < ivs.len() && slice_of(#[trigger] ivs[i]) == segs[k].active[0];
            assert(ivs[i].start <= t < ivs[i].end);
        }
        if in_intervals(ivs, t) {
            let i = choose|i: int| 0 <= i < ivs.len() && (#[trigger] ivs[i]).start <= t < ivs[i].end;
            assert(at.contains(ivs[i].start) && at.contains(ivs[i].end));
            let a = choose|a: int| 0 <= a < at.len() && at[a] == ivs[i].start;
            let b = choose|b: int| 0 <= b < at.len() && at[b] == ivs[i].end;
            assert(at[b] <= at.last());
            let k = mark_before(at, t, a);
            assert(at[a] <= at[k]);
            assert(k + 1 <= b) by {
                if b < k + 1 {
                    assert(at[b] <= at[k]);
                }
            }
            assert(at[k + 1] <= at[b]);
            covering_sound(ivs, at[k], at[k + 1], ivs.len() as int);
            assert(covering(ivs, at[k], at[k + 1], ivs.len() as int).contains(slice_of(ivs[i])));
            between_has(ivs, at, at.len() - 1, k);
        }
    }
}

} // verus!
