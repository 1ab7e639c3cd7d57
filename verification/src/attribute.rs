//! Provisional attribution: for every segment, pick the single slice that counts, and say whether
//! the segment is still an open question.
//!
//! The pick is provisional: it changes the number a segment contributes to a day's total, never
//! whether the segment is still open. Only a decision settles that.

use vstd::prelude::*;

use crate::model::{ActiveSlice, Segment, SegmentState, SegmentV, SliceV};
use crate::text;

verus! {

/// How long the activity behind a slice ran.
pub open spec fn ran_for(s: SliceV) -> int {
    s.source_end - s.source_start
}

/// Whether slice `x` outranks `y`:
///
/// 1. the longer originating activity;
/// 2. on a tie the lower device;
/// 3. on a tie the lower bucket id, since one device may have two overlapping buckets;
/// 4. on a tie the lower data, by the text it is written with.
pub open spec fn outranks(x: SliceV, y: SliceV) -> bool {
    ran_for(x) > ran_for(y) || (ran_for(x) == ran_for(y) && (text::before(x.device, y.device) || (
    x.device == y.device && (text::before(x.bucket_id, y.bucket_id) || (x.bucket_id == y.bucket_id
        && text::before(x.data.text, y.data.text))))))
}

/// The winner among the first `n` slices. Of slices that rank alike it is the last.
pub open spec fn winner(slices: Seq<SliceV>, n: int) -> int
    decreases n,
{
    if n <= 1 {
        0
    } else {
        let w = winner(slices, n - 1);
        if outranks(slices[w], slices[n - 1]) {
            w
        } else {
            n - 1
        }
    }
}

/// A segment with its foreground chosen, unless a decision has named one already.
pub open spec fn with_foreground(seg: SegmentV) -> SegmentV {
    SegmentV {
        foreground: if seg.foreground == usize::MAX {
            winner(seg.active, seg.active.len() as int)
        } else {
            seg.foreground
        },
        unresolved: seg.state == SegmentState::Contended,
        ..seg
    }
}

/// The segments, each with its foreground chosen.
pub open spec fn attributions(segs: Seq<SegmentV>) -> Seq<SegmentV> {
    Seq::new(segs.len(), |i: int| with_foreground(segs[i]))
}

/// Ranking is a strict order in which being ranked alike is transitive too.
pub proof fn outranks_is_weak_order(a: SliceV, b: SliceV, c: SliceV)
    ensures
        !outranks(a, a),
        outranks(a, b) ==> !outranks(b, a),
        outranks(a, b) && outranks(b, c) ==> outranks(a, c),
        !outranks(a, b) && !outranks(b, c) ==> !outranks(a, c),
{
    text::before_is_weak_order(a.device, b.device, c.device);
    text::before_is_weak_order(a.bucket_id, b.bucket_id, c.bucket_id);
    text::before_is_weak_order(a.data.text, b.data.text, c.data.text);
}

/// No slice outranks the winner, and the winner outranks every slice behind it.
pub proof fn winner_is_best(slices: Seq<SliceV>, n: int)
    requires
        0 < n <= slices.len(),
    ensures
        0 <= winner(slices, n) < n,
        forall|j: int| 0 <= j < n ==> !outranks(#[trigger] slices[j], slices[winner(slices, n)]),
        forall|j: int|
            winner(slices, n) < j < n ==> outranks(slices[winner(slices, n)], #[trigger] slices[j]),
    decreases n,
{
    if n == 1 {
        outranks_is_weak_order(slices[0], slices[0], slices[0]);
    } else {
        winner_is_best(slices, n - 1);
        let w = winner(slices, n - 1);
        let x = winner(slices, n);
        assert forall|j: int| 0 <= j < n implies !outranks(#[trigger] slices[j], slices[x]) by {
            outranks_is_weak_order(slices[j], slices[w], slices[x]);
            outranks_is_weak_order(slices[x], slices[j], slices[x]);
            outranks_is_weak_order(slices[w], slices[n - 1], slices[n - 1]);
        }
    }
}

/// Whether slice `x` outranks `y`.
fn is_ahead(x: &ActiveSlice, y: &ActiveSlice) -> (r: bool)
    ensures
        r == outranks(x.deep_view(), y.deep_view()),
{
    proof {
        text::before_is_weak_order(x.device@, y.device@, y.device@);
        text::before_is_weak_order(x.bucket_id@, y.bucket_id@, y.bucket_id@);
    }
    let a: i128 = x.source_end.since(x.source_start).nanos;
    let b: i128 = y.source_end.since(y.source_start).nanos;
    if a != b {
        a > b
    } else if x.device != y.device {
        text::is_before(x.device.as_str(), y.device.as_str())
    } else if x.bucket_id != y.bucket_id {
        text::is_before(x.bucket_id.as_str(), y.bucket_id.as_str())
    } else {
        text::is_before(x.data.text.as_str(), y.data.text.as_str())
    }
}

fn pick(slices: &Vec<ActiveSlice>) -> (r: usize)
    requires
        slices.len() > 0,
    ensures
        r == winner(slices.deep_view(), slices.len() as int),
        r < slices.len(),
{
    let mut w: usize = 0;
    let mut i: usize = 1;
    while i < slices.len()
        invariant
            1 <= i <= slices.len(),
            w < i,
            w == winner(slices.deep_view(), i as int),
        decreases slices.len() - i,
    {
        assert(slices.deep_view()[i as int] == slices@[i as int].deep_view());
        assert(slices.deep_view()[w as int] == slices@[w as int].deep_view());
        if !is_ahead(&slices[w], &slices[i]) {
            w = i;
        }
        i = i + 1;
    }
    w
}

/// Set the foreground of every segment, and whether it is still open.
///
/// A segment is open where it is contended. One that was demoted for being short is settled, so it
/// is never asked about, but it goes through the same pick, so its time is credited to its longest
/// activity rather than lost.
pub fn attribute(segments: &mut Vec<Segment>)
    requires
        forall|i: int| 0 <= i < old(segments).len() ==> (#[trigger] old(segments)[i]).active.len() > 0,
    ensures
        final(segments).deep_view() == attributions(old(segments).deep_view()),
{
    let ghost segs = segments.deep_view();
    let mut i: usize = 0;
    while i < segments.len()
        invariant
            i <= segments.len(),
            segments.len() == segs.len(),
            forall|j: int| i <= j < segments.len() ==> (#[trigger] segments[j]).active.len() > 0,
            forall|j: int|
                0 <= j < i ==> #[trigger] segments.deep_view()[j] == attributions(segs)[j],
            forall|j: int| i <= j < segs.len() ==> #[trigger] segments.deep_view()[j] == segs[j],
        decreases segments.len() - i,
    {
        let ghost before = segments.deep_view();
        assert(before[i as int] == segments@[i as int].deep_view());
        assert(before[i as int].active.len() == segments@[i as int].active.len());
        if segments[i].foreground == usize::MAX {
            let w = pick(&segments[i].active);
            segments[i].foreground = w;
        }
        segments[i].unresolved = segments[i].state == SegmentState::Contended;
        assert(segments.deep_view() =~= before.update(i as int, attributions(segs)[i as int]));
        i = i + 1;
    }
    assert(segments.deep_view() =~= attributions(segs));
}

} // verus!
