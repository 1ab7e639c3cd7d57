//! Mark each segment settled or contended, then absorb short contended runs.

use vstd::prelude::*;

use crate::model::{Segment, SegmentState, SegmentV, SliceV};
use crate::time::{in_range, Duration};

verus! {

/// Whether two devices or more are active.
pub open spec fn two_devices(slices: Seq<SliceV>) -> bool {
    exists|i: int, j: int|
        0 <= i < slices.len() && 0 <= j < slices.len() && (#[trigger] slices[i]).device != (
        #[trigger] slices[j]).device
}

/// Whether two devices or more compete for a segment. Where every activity is one that never counts
/// there is nothing to compete for.
pub open spec fn contested(seg: SegmentV) -> bool {
    !seg.not_counted && two_devices(seg.active)
}

/// Whether segment `k` goes on with the contention of the one before it: both are contested and
/// they meet.
pub open spec fn continues(segs: Seq<SegmentV>, k: int) -> bool {
    0 < k < segs.len() && contested(segs[k]) && contested(segs[k - 1]) && segs[k].start
        == segs[k - 1].end
}

/// The first segment of the run that `k` is part of.
pub open spec fn run_start(segs: Seq<SegmentV>, k: int) -> int
    decreases k,
{
    if continues(segs, k) {
        run_start(segs, k - 1)
    } else {
        k
    }
}

/// One past the last segment of the run that `k` is part of.
pub open spec fn run_end(segs: Seq<SegmentV>, k: int) -> int
    decreases segs.len() - k,
{
    if continues(segs, k + 1) {
        run_end(segs, k + 1)
    } else {
        k + 1
    }
}

/// How long segments `a` up to `b` last together.
pub open spec fn total(segs: Seq<SegmentV>, a: int, b: int) -> int
    decreases b - a,
{
    if b <= a {
        0
    } else {
        total(segs, a, b - 1) + (segs[b - 1].end - segs[b - 1].start)
    }
}

/// Whether the run that `k` is part of is shorter than `min`.
pub open spec fn short_run(segs: Seq<SegmentV>, k: int, min: int) -> bool {
    total(segs, run_start(segs, k), run_end(segs, k)) < min
}

/// The segments, each marked settled or contended. Contended is what two devices compete for, unless
/// the whole run of it is shorter than `min`.
pub open spec fn classified(segs: Seq<SegmentV>, min: int) -> Seq<SegmentV> {
    Seq::new(
        segs.len(),
        |k: int|
            if !contested(segs[k]) {
                SegmentV { state: SegmentState::Settled, ..segs[k] }
            } else if short_run(segs, k, min) {
                SegmentV {
                    state: SegmentState::Settled,
                    absorbed_short_contention: true,
                    ..segs[k]
                }
            } else {
                SegmentV { state: SegmentState::Contended, ..segs[k] }
            },
    )
}

/// Whether two devices or more compete for a segment.
fn is_contested(seg: &Segment) -> (r: bool)
    ensures
        r == contested(seg.deep_view()),
{
    if seg.not_counted {
        return false;
    }
    let ghost slices = seg.active.deep_view();
    assert(slices.len() == seg.active.len());
    let mut i: usize = 1;
    while i < seg.active.len()
        invariant
            1 <= i,
            !seg.not_counted,
            slices == seg.active.deep_view(),
            forall|j: int| 0 <= j < i && j < slices.len() ==> (#[trigger] slices[j]).device == slices[0].device,
        decreases seg.active.len() - i,
    {
        assert(slices[i as int] == seg.active@[i as int].deep_view());
        assert(slices[0] == seg.active@[0].deep_view());
        if seg.active[i].device != seg.active[0].device {
            assert(slices[i as int].device != slices[0].device);
            return true;
        }
        i = i + 1;
    }
    false
}

/// A run of meeting segments lasts from its first start to its last end.
proof fn total_telescopes(segs: Seq<SegmentV>, a: int, b: int)
    requires
        0 <= a < b <= segs.len(),
        forall|k: int| a < k < b ==> #[trigger] continues(segs, k),
    ensures
        total(segs, a, b) == segs[b - 1].end - segs[a].start,
    decreases b - a,
{
    if a + 1 < b {
        assert(continues(segs, b - 1));
        total_telescopes(segs, a, b - 1);
    } else {
        assert(total(segs, a, b - 1) == 0);
    }
}

/// Segments `a` up to `b` are a whole run of contention.
spec fn is_run(segs: Seq<SegmentV>, a: int, b: int) -> bool {
    &&& 0 <= a < b <= segs.len()
    &&& contested(segs[a])
    &&& !continues(segs, a)
    &&& !continues(segs, b)
    &&& forall|i: int| a < i < b ==> #[trigger] continues(segs, i)
}

/// Every segment of a run is contested and has the run's ends.
proof fn run_bounds(segs: Seq<SegmentV>, a: int, b: int, k: int)
    requires
        is_run(segs, a, b),
        a <= k < b,
    ensures
        run_start(segs, k) == a,
        run_end(segs, k) == b,
        contested(segs[k]),
{
    run_bounds_start(segs, a, k);
    run_bounds_end(segs, b, k);
    if k > a {
        assert(continues(segs, k));
    }
}

proof fn run_bounds_start(segs: Seq<SegmentV>, a: int, k: int)
    requires
        0 <= a <= k,
        !continues(segs, a),
        forall|i: int| a < i <= k ==> #[trigger] continues(segs, i),
    ensures
        run_start(segs, k) == a,
    decreases k - a,
{
    if a < k {
        run_bounds_start(segs, a, k - 1);
    }
}

proof fn run_bounds_end(segs: Seq<SegmentV>, b: int, k: int)
    requires
        0 <= k < b,
        !continues(segs, b),
        forall|i: int| k < i < b ==> #[trigger] continues(segs, i),
    ensures
        run_end(segs, k) == b,
    decreases b - k,
{
    if k + 1 < b {
        assert(continues(segs, k + 1));
        run_bounds_end(segs, b, k + 1);
    }
}

/// Two lists that differ in nothing that makes a run.
spec fn same_spans(a: Seq<SegmentV>, b: Seq<SegmentV>) -> bool {
    &&& a.len() == b.len()
    &&& forall|k: int|
        0 <= k < a.len() ==> (#[trigger] a[k]).start == b[k].start && a[k].end == b[k].end
            && a[k].active == b[k].active && a[k].not_counted == b[k].not_counted
}

proof fn same_total(a: Seq<SegmentV>, b: Seq<SegmentV>, i: int, j: int)
    requires
        same_spans(a, b),
        0 <= i <= j <= a.len(),
    ensures
        total(a, i, j) == total(b, i, j),
    decreases j - i,
{
    if i < j {
        same_total(a, b, i, j - 1);
        assert(a[j - 1].start == b[j - 1].start);
    }
}

proof fn same_run(a: Seq<SegmentV>, b: Seq<SegmentV>, i: int, j: int)
    requires
        same_spans(a, b),
        is_run(a, i, j),
    ensures
        is_run(b, i, j),
        total(a, i, j) == total(b, i, j),
{
    same_total(a, b, i, j);
    assert forall|k: int| #[trigger] continues(b, k) == continues(a, k) by {
        if 0 < k < a.len() {
            assert(a[k].start == b[k].start);
            assert(a[k - 1].start == b[k - 1].start);
        }
    }
    assert(a[i].start == b[i].start);
}

/// The run that starts at segment `i`: one past its last segment, and how long it lasts.
fn run_from(segments: &Vec<Segment>, i: usize) -> (r: (usize, i128))
    requires
        i < segments.len(),
        contested(segments.deep_view()[i as int]),
        !continues(segments.deep_view(), i as int),
    ensures
        is_run(segments.deep_view(), i as int, r.0 as int),
        r.1 == total(segments.deep_view(), i as int, r.0 as int),
{
    let ghost segs = segments.deep_view();
    assert(segs.len() == segments.len());
    assert(segs[i as int] == segments@[i as int].deep_view());
    let _ = segments[i].start.nanos();
    let _ = segments[i].end.nanos();
    let mut length: i128 = segments[i].end.since(segments[i].start).nanos;
    proof {
        assert(total(segs, i as int, i as int) == 0);
        assert(total(segs, i as int, i + 1) == segs[i as int].end - segs[i as int].start);
    }
    let mut j: usize = i + 1;
    while j < segments.len()
        invariant
            i < j <= segments.len(),
            segments.len() == segs.len(),
            segs == segments.deep_view(),
            contested(segs[j - 1]),
            !continues(segs, i as int),
            contested(segs[i as int]),
            in_range(segs[i as int].start),
            forall|k: int| i < k < j ==> #[trigger] continues(segs, k),
            length == total(segs, i as int, j as int),
        decreases segments.len() - j,
    {
        assert(segs[j as int] == segments@[j as int].deep_view());
        assert(segs[j - 1] == segments@[j - 1].deep_view());
        if !(is_contested(&segments[j]) && segments[j].start == segments[j - 1].end) {
            return (j, length);
        }
        assert(continues(segs, j as int));
        let _ = segments[j].end.nanos();
        proof {
            total_telescopes(segs, i as int, j + 1);
        }
        length = length + segments[j].end.since(segments[j].start).nanos;
        j = j + 1;
    }
    (j, length)
}

/// 1. A segment is contended where it covers two distinct devices or more, else settled.
/// 2. Each maximal run of contended segments that meet is taken as a whole: where it is shorter
///    than `min_contention`, every segment in it is settled after all and marked. Exactly
///    `min_contention` stays contended.
///
/// Runs and not single segments, because segments are cut at every app change on every device: a
/// long contention where either device switches app often is many short segments.
pub fn classify(segments: &mut Vec<Segment>, min_contention: Duration)
    ensures
        final(segments).deep_view() == classified(old(segments).deep_view(), min_contention@),
{
    let ghost segs = segments.deep_view();
    let ghost min = min_contention@;
    let ghost goal = classified(segs, min);
    assert(segs.len() == segments.len());
    let mut i: usize = 0;
    while i < segments.len()
        invariant
            i <= segments.len(),
            segments.len() == segs.len(),
            min == min_contention@,
            goal == classified(segs, min),
            !continues(segs, i as int),
            forall|j: int| 0 <= j < i ==> #[trigger] segments.deep_view()[j] == goal[j],
            forall|j: int| i <= j < segs.len() ==> #[trigger] segments.deep_view()[j] == segs[j],
        decreases segments.len() - i,
    {
        let ghost before = segments.deep_view();
        assert(before[i as int] == segments@[i as int].deep_view());
        if !is_contested(&segments[i]) {
            segments[i].state = SegmentState::Settled;
            assert(segments.deep_view() =~= before.update(i as int, goal[i as int]));
            i = i + 1;
            assert(!continues(segs, i as int));
        } else {
            proof {
                assert(same_spans(before, segs));
                assert(continues(before, i as int) == continues(segs, i as int));
            }
            let (j, length) = run_from(segments, i);
            proof {
                same_run(before, segs, i as int, j as int);
            }
            let short: bool = length < min_contention.nanos;
            let first: usize = i;
            while i < j
                invariant
                    first <= i <= j <= segments.len(),
                    segments.len() == segs.len(),
                    goal == classified(segs, min),
                    short == (total(segs, first as int, j as int) < min),
                    is_run(segs, first as int, j as int),
                    forall|k: int| 0 <= k < i ==> #[trigger] segments.deep_view()[k] == goal[k],
                    forall|k: int|
                        i <= k < segs.len() ==> #[trigger] segments.deep_view()[k] == segs[k],
                decreases j - i,
            {
                let ghost now = segments.deep_view();
                assert(now[i as int] == segments@[i as int].deep_view());
                proof {
                    run_bounds(segs, first as int, j as int, i as int);
                }
                if short {
                    segments[i].state = SegmentState::Settled;
                    segments[i].absorbed_short_contention = true;
                } else {
                    segments[i].state = SegmentState::Contended;
                }
                assert(segments.deep_view() =~= now.update(i as int, goal[i as int]));
                i = i + 1;
            }
        }
    }
    assert(segments.deep_view() =~= goal);
}

} // verus!
