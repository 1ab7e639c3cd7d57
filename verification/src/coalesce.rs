//! Merge adjacent segments that attribute to the same thing, so that a day does not draw as a wall
//! of slivers.
//!
//! A presentation step: the merged segment's slices are the union of its parts', so per-instant
//! detail of the background is gone. What was in the foreground is kept, as shares. Two blocks
//! merge where one app on one device goes on, whatever screen or window title it shows, and across
//! a hole short enough to be watcher jitter. A bridged hole is drawn over and never counted.

use vstd::prelude::*;

use crate::list;
use crate::model::{
    activity_label, attributed, foreground_of, label, same_data, share_ms, under, ActiveSlice,
    DataV, ForegroundShare, Segment, SegmentV, ShareV, SliceV,
};
use crate::order::{arranged, arranged_contains, arranged_keeps, sort, Sortable};
use crate::text;
use crate::time::{whole_millis, Duration};

verus! {

/// How long a hole between two blocks may be before it counts as a real gap, in milliseconds.
/// Watcher jitter reaches up to about this; time away starts well above it.
pub const JITTER_GAP_MS: i64 = 2_000;

/// The longest hole that counts as none.
pub fn jitter_gap() -> (r: Duration)
    ensures
        r@ == JITTER_GAP_MS * 1_000_000,
{
    Duration::milliseconds(JITTER_GAP_MS)
}

/// Longest first; a share that counts before one that does not; then by label, then by the text of
/// the data, so that two devices holding the same day list the same order.
impl Sortable for ForegroundShare {
    open spec fn precedes(a: ShareV, b: ShareV) -> bool {
        a.ms > b.ms || (a.ms == b.ms && ((!a.not_counted && b.not_counted) || (a.not_counted
            == b.not_counted && (text::before(label(a.data), label(b.data)) || (label(a.data)
            == label(b.data) && text::before(a.data.text, b.data.text))))))
    }

    proof fn weak_order(a: ShareV, b: ShareV, c: ShareV) {
        text::before_is_weak_order(label(a.data), label(b.data), label(c.data));
        text::before_is_weak_order(a.data.text, b.data.text, c.data.text);
    }

    fn sorts_before(&self, other: &Self) -> (r: bool) {
        if self.ms != other.ms {
            return self.ms > other.ms;
        }
        if self.not_counted != other.not_counted {
            return other.not_counted;
        }
        let a = activity_label(&self.data);
        let b = activity_label(&other.data);
        text::is_before(a.as_str(), b.as_str()) || (a == b && text::is_before(
            self.data.text.as_str(),
            other.data.text.as_str(),
        ))
    }
}

/// A segment with its starting share, its own winning activity for its whole span, unless it has
/// shares already.
pub open spec fn seeded(seg: SegmentV) -> SegmentV {
    if seg.foreground_shares.len() > 0 {
        seg
    } else {
        SegmentV {
            foreground_shares: seq![
                ShareV {
                    data: foreground_of(seg).data,
                    ms: whole_millis(seg.end - seg.start) - seg.bridged_ms,
                    not_counted: seg.ignored || seg.not_counted,
                },
            ],
            ..seg
        }
    }
}

/// The segments, each with its shares.
pub open spec fn all_seeded(segs: Seq<SegmentV>) -> Seq<SegmentV> {
    Seq::new(segs.len(), |i: int| seeded(segs[i]))
}

/// Whether two blocks are close enough to be treated as touching.
pub open spec fn adjacent(prev: SegmentV, next: SegmentV) -> bool {
    0 <= next.start - prev.end <= JITTER_GAP_MS * 1_000_000
}

/// Whether two blocks merge: they touch within jitter, one app on one device is in the foreground
/// of both, and everything that classification, exclusion and decisions have set is equal.
pub open spec fn mergeable(prev: SegmentV, next: SegmentV) -> bool {
    &&& adjacent(prev, next)
    &&& prev.state == next.state
    &&& prev.unresolved == next.unresolved
    &&& prev.absorbed_short_contention == next.absorbed_short_contention
    &&& prev.resolved_by == next.resolved_by
    &&& prev.auto_resolved == next.auto_resolved
    &&& prev.label_override == next.label_override
    &&& prev.ignored == next.ignored
    &&& prev.not_counted == next.not_counted
    &&& prev.excluded_labels == next.excluded_labels
    &&& prev.deliberate_background == next.deliberate_background
    &&& foreground_of(prev).device == foreground_of(next).device
    &&& label(foreground_of(prev).data) == label(foreground_of(next).data)
}

/// `own` with those of the first `n` texts of `more` that it does not hold.
pub open spec fn united(own: Seq<Seq<char>>, more: Seq<Seq<char>>, n: int) -> Seq<Seq<char>>
    decreases n,
{
    if n <= 0 {
        own
    } else {
        let rest = united(own, more, n - 1);
        if rest.contains(more[n - 1]) {
            rest
        } else {
            rest.push(more[n - 1])
        }
    }
}

/// The first share from `i` on with this data and flag.
pub open spec fn share_at(shares: Seq<ShareV>, data: DataV, not_counted: bool, i: int) -> Option<
    int,
>
    decreases shares.len() - i,
{
    if i < 0 || i >= shares.len() {
        None
    } else if same_data(shares[i].data, data) && shares[i].not_counted == not_counted {
        Some(i)
    } else {
        share_at(shares, data, not_counted, i + 1)
    }
}

/// The shares with `ms` more for this data and flag.
pub open spec fn credited(shares: Seq<ShareV>, data: DataV, ms: int, not_counted: bool) -> Seq<
    ShareV,
> {
    match share_at(shares, data, not_counted, 0) {
        Some(i) => shares.update(i, ShareV { ms: shares[i].ms + ms, ..shares[i] }),
        None => shares.push(ShareV { data, ms, not_counted }),
    }
}

/// The shares of two blocks together: summed per distinct activity.
pub open spec fn pooled(own: Seq<ShareV>, more: Seq<ShareV>, n: int) -> Seq<ShareV>
    decreases n,
{
    if n <= 0 {
        own
    } else {
        credited(
            pooled(own, more, n - 1),
            more[n - 1].data,
            more[n - 1].ms,
            more[n - 1].not_counted,
        )
    }
}

/// Whether two slices are the same activity, whatever span each was cut from.
pub open spec fn same_slice(a: SliceV, b: SliceV) -> bool {
    a.device == b.device && a.bucket_id == b.bucket_id && same_data(a.data, b.data)
}

/// The first slice from `i` on that is the same activity as `s`.
pub open spec fn slice_at(slices: Seq<SliceV>, s: SliceV, i: int) -> Option<int>
    decreases slices.len() - i,
{
    if i < 0 || i >= slices.len() {
        None
    } else if same_slice(slices[i], s) {
        Some(i)
    } else {
        slice_at(slices, s, i + 1)
    }
}

/// A slice that stands for both: it describes the whole of the two spans.
pub open spec fn widened(a: SliceV, b: SliceV) -> SliceV {
    SliceV {
        source_start: if b.source_start < a.source_start {
            b.source_start
        } else {
            a.source_start
        },
        source_end: if b.source_end > a.source_end {
            b.source_end
        } else {
            a.source_end
        },
        ..a
    }
}

/// The slices of two blocks together, each activity once.
pub open spec fn gathered(own: Seq<SliceV>, more: Seq<SliceV>, n: int) -> Seq<SliceV>
    decreases n,
{
    if n <= 0 {
        own
    } else {
        let rest = gathered(own, more, n - 1);
        match slice_at(rest, more[n - 1], 0) {
            Some(i) => rest.update(i, widened(rest[i], more[n - 1])),
            None => rest.push(more[n - 1]),
        }
    }
}

/// Two blocks as one.
pub open spec fn merge(prev: SegmentV, next: SegmentV) -> SegmentV {
    let active = arranged::<ActiveSlice>(
        gathered(prev.active, next.active, next.active.len() as int),
    );
    SegmentV {
        end: next.end,
        active,
        foreground: slice_at(active, foreground_of(prev), 0)->0,
        smoothed_seconds: prev.smoothed_seconds + next.smoothed_seconds,
        absorbed_labels: arranged::<String>(
            united(prev.absorbed_labels, next.absorbed_labels, next.absorbed_labels.len() as int),
        ),
        foreground_shares: arranged::<ForegroundShare>(
            pooled(
                prev.foreground_shares,
                next.foreground_shares,
                next.foreground_shares.len() as int,
            ),
        ),
        bridged_ms: prev.bridged_ms + whole_millis(next.start - prev.end) + next.bridged_ms,
        ..prev
    }
}

/// The first `n` blocks, each merged into the one before it where the two merge.
pub open spec fn folded(segs: Seq<SegmentV>, n: int) -> Seq<SegmentV>
    decreases n,
{
    if n <= 0 {
        Seq::empty()
    } else {
        let rest = folded(segs, n - 1);
        if rest.len() > 0 && mergeable(rest.last(), segs[n - 1]) {
            rest.drop_last().push(merge(rest.last(), segs[n - 1]))
        } else {
            rest.push(segs[n - 1])
        }
    }
}

/// The segments with adjacent ones that attribute alike merged.
pub open spec fn coalesced(segs: Seq<SegmentV>) -> Seq<SegmentV> {
    folded(all_seeded(segs), segs.len() as int)
}

pub open spec fn size(x: int) -> int {
    if x >= 0 {
        x
    } else {
        -x
    }
}

pub open spec fn share_size() -> spec_fn(ShareV) -> int {
    |s: ShareV| size(s.ms)
}

/// The numbers a block keeps, taken together.
pub open spec fn load(seg: SegmentV) -> int {
    size(seg.bridged_ms) + size(seg.smoothed_seconds) + list::total(
        seg.foreground_shares,
        share_size(),
    )
}

/// The milliseconds of the hole before block `k`, where it would be bridged.
pub open spec fn hole_before(segs: Seq<SegmentV>, k: int) -> int {
    if 0 < k < segs.len() && adjacent(segs[k - 1], segs[k]) {
        whole_millis(segs[k].start - segs[k - 1].end)
    } else {
        0
    }
}

pub open spec fn loads() -> spec_fn(SegmentV) -> int {
    |s: SegmentV| load(s)
}

/// The sum of `f` over the first `n` blocks and the holes between them.
pub open spec fn burden_of(segs: Seq<SegmentV>, f: spec_fn(SegmentV) -> int, n: int) -> int
    decreases n,
{
    if n <= 0 {
        0
    } else {
        burden_of(segs, f, n - 1) + hole_before(segs, n - 1) + f(segs[n - 1])
    }
}

/// The numbers of the first `n` blocks and the holes between them, taken together.
pub open spec fn burden(segs: Seq<SegmentV>, n: int) -> int {
    burden_of(segs, loads(), n)
}

/// Every block has its foreground, and what the blocks keep adds up to no more than `i64` holds.
pub open spec fn coalesce_fits(segs: Seq<SegmentV>) -> bool {
    &&& forall|i: int| 0 <= i < segs.len() ==> attributed(#[trigger] segs[i])
    &&& burden(all_seeded(segs), segs.len() as int) <= i64::MAX
}

pub proof fn load_is_positive(seg: SegmentV)
    ensures
        load(seg) >= 0,
        size(seg.bridged_ms) <= load(seg),
        size(seg.smoothed_seconds) <= load(seg),
        list::total(seg.foreground_shares, share_size()) <= load(seg),
        0 <= list::total(seg.foreground_shares, share_size()),
{
    list::sum_bounds(seg.foreground_shares, share_size(), 0);
}

pub proof fn burden_of_grows(segs: Seq<SegmentV>, f: spec_fn(SegmentV) -> int, i: int, n: int)
    requires
        0 <= i <= n <= segs.len(),
        forall|s: SegmentV| #[trigger] f(s) >= 0,
    ensures
        0 <= burden_of(segs, f, i) <= burden_of(segs, f, n),
    decreases n,
{
    if n > 0 {
        assert(f(segs[n - 1]) >= 0);
        if i < n {
            burden_of_grows(segs, f, i, n - 1);
        } else {
            burden_of_grows(segs, f, n - 1, n - 1);
        }
    }
}

pub proof fn burden_grows(segs: Seq<SegmentV>, i: int, n: int)
    requires
        0 <= i <= n <= segs.len(),
    ensures
        0 <= burden(segs, i) <= burden(segs, n),
{
    assert forall|s: SegmentV| #[trigger] loads()(s) >= 0 by {
        load_is_positive(s);
    }
    burden_of_grows(segs, loads(), i, n);
}

/// Give every segment its starting share, unless it has shares already.
pub fn seed_shares(segments: &mut Vec<Segment>)
    requires
        coalesce_fits(old(segments).deep_view()),
    ensures
        final(segments).deep_view() == all_seeded(old(segments).deep_view()),
{
    let ghost segs = segments.deep_view();
    let ghost goal = all_seeded(segs);
    let mut i: usize = 0;
    while i < segments.len()
        invariant
            i <= segments.len(),
            segments.len() == segs.len(),
            goal == all_seeded(segs),
            coalesce_fits(segs),
            forall|j: int| 0 <= j < i ==> #[trigger] segments.deep_view()[j] == goal[j],
            forall|j: int| i <= j < segs.len() ==> #[trigger] segments.deep_view()[j] == segs[j],
        decreases segments.len() - i,
    {
        let ghost before = segments.deep_view();
        assert(before[i as int] == segments@[i as int].deep_view());
        assert(before[i as int] == segs[i as int]);
        assert(attributed(segs[i as int]));
        assert(segs[i as int].active.len() == segments@[i as int].active.len());
        assert(segs[i as int].foreground_shares.len() == segments@[i as int].foreground_shares.len());
        if segments[i].foreground_shares.len() == 0 {
            let _ = segments[i].start.nanos();
            let _ = segments[i].end.nanos();
            let span = segments[i].end.since(segments[i].start).num_milliseconds();
            proof {
                burden_grows(goal, i as int, goal.len() as int);
                burden_grows(goal, i + 1, goal.len() as int);
                load_is_positive(goal[i as int]);
                let shares = goal[i as int].foreground_shares;
                list::sum_bounds(shares, share_size(), 1);
                assert(share_size()(shares[0]) <= i64::MAX);
            }
            let ms: i64 = span - segments[i].bridged_ms;
            let not_counted: bool = segments[i].ignored || segments[i].not_counted;
            let data = segments[i].foreground_slice().data.clone();
            let mut shares: Vec<ForegroundShare> = Vec::new();
            shares.push(ForegroundShare { data, ms, not_counted });
            segments[i].foreground_shares = shares;
            assert(segments@[i as int].foreground_shares.deep_view() =~= goal[i as int].foreground_shares);
        }
        assert(segments.deep_view() =~= before.update(i as int, goal[i as int]));
        i = i + 1;
    }
    assert(segments.deep_view() =~= goal);
}

/// Whether two blocks are close enough to be treated as touching.
pub fn is_adjacent(prev: &Segment, next: &Segment) -> (r: bool)
    ensures
        r == adjacent(prev.deep_view(), next.deep_view()),
{
    let hole: i128 = next.start.since(prev.end).nanos;
    hole >= 0 && hole <= jitter_gap().nanos
}

fn is_mergeable(prev: &Segment, next: &Segment) -> (r: bool)
    requires
        attributed(prev.deep_view()),
        attributed(next.deep_view()),
    ensures
        r == mergeable(prev.deep_view(), next.deep_view()),
{
    assert(prev.active.deep_view().len() == prev.active.len());
    assert(next.active.deep_view().len() == next.active.len());
    is_adjacent(prev, next) && prev.state == next.state && prev.unresolved == next.unresolved
        && prev.absorbed_short_contention == next.absorbed_short_contention && list::same_option(
        &prev.resolved_by,
        &next.resolved_by,
    ) && prev.auto_resolved == next.auto_resolved && list::same_option(
        &prev.label_override,
        &next.label_override,
    ) && prev.ignored == next.ignored && prev.not_counted == next.not_counted && list::same_texts(
        &prev.excluded_labels,
        &next.excluded_labels,
    ) && list::same_texts(&prev.deliberate_background, &next.deliberate_background)
        && prev.foreground_slice().device == next.foreground_slice().device && activity_label(
        &prev.foreground_slice().data,
    ) == activity_label(&next.foreground_slice().data)
}

/// Add to `own` the texts of `more` that it does not hold, and sort.
pub fn unite_labels(own: &mut Vec<String>, more: &Vec<String>)
    ensures
        final(own).deep_view() == arranged::<String>(
            united(old(own).deep_view(), more.deep_view(), more.len() as int),
        ),
{
    let ghost before = own.deep_view();
    let mut i: usize = 0;
    while i < more.len()
        invariant
            i <= more.len(),
            own.deep_view() == united(before, more.deep_view(), i as int),
        decreases more.len() - i,
    {
        assert(more.deep_view()[i as int] == more@[i as int]@);
        if !list::contains_text(own, &more[i]) {
            list::push(own, more[i].clone());
        }
        i = i + 1;
    }
    sort(own);
}

/// Add `ms` to the share with this data and flag, or list it as a share of its own.
pub fn credit(shares: &mut Vec<ForegroundShare>, share: ForegroundShare)
    requires
        list::total(old(shares).deep_view(), share_size()) + size(share.ms as int) <= i64::MAX,
    ensures
        final(shares).deep_view() == credited(
            old(shares).deep_view(),
            share.data.deep_view(),
            share.ms as int,
            share.not_counted,
        ),
{
    let ghost before = shares.deep_view();
    assert(before.len() == shares.len());
    let mut i: usize = 0;
    while i < shares.len()
        invariant
            i <= shares.len(),
            before == shares.deep_view(),
            before == old(shares).deep_view(),
            list::total(before, share_size()) + size(share.ms as int) <= i64::MAX,
            share_at(before, share.data.deep_view(), share.not_counted, 0) == share_at(
                before,
                share.data.deep_view(),
                share.not_counted,
                i as int,
            ),
        decreases shares.len() - i,
    {
        assert(before[i as int] == shares@[i as int].deep_view());
        if shares[i].data.same(&share.data) && shares[i].not_counted == share.not_counted {
            proof {
                list::sum_bounds(before, share_size(), before.len() as int);
                assert(share_size()(before[i as int]) <= list::total(before, share_size()));
            }
            shares[i].ms = shares[i].ms + share.ms;
            assert(shares.deep_view() =~= before.update(
                i as int,
                ShareV { ms: before[i as int].ms + share.ms, ..before[i as int] },
            ));
            return;
        }
        i = i + 1;
    }
    list::push(shares, share);
}

/// Crediting adds exactly what is credited, under its own flag and to the sizes together.
pub proof fn credited_adds(shares: Seq<ShareV>, data: DataV, ms: int, not_counted: bool)
    ensures
        list::total(credited(shares, data, ms, not_counted), share_size()) <= list::total(
            shares,
            share_size(),
        ) + size(ms),
        share_ms(credited(shares, data, ms, not_counted), not_counted) == share_ms(
            shares,
            not_counted,
        ) + ms,
        share_ms(credited(shares, data, ms, not_counted), !not_counted) == share_ms(
            shares,
            !not_counted,
        ),
        credited(shares, data, ms, not_counted).len() > 0,
{
    share_at_sound(shares, data, not_counted, 0);
    match share_at(shares, data, not_counted, 0) {
        Some(i) => {
            let s = ShareV { ms: shares[i].ms + ms, ..shares[i] };
            list::total_update(shares, share_size(), i, s);
            list::total_update(shares, under(not_counted), i, s);
            list::total_update(shares, under(!not_counted), i, s);
        },
        None => {
            let s = ShareV { data, ms, not_counted };
            list::total_push(shares, share_size(), s);
            list::total_push(shares, under(not_counted), s);
            list::total_push(shares, under(!not_counted), s);
        },
    }
}

pub proof fn share_at_sound(shares: Seq<ShareV>, data: DataV, not_counted: bool, i: int)
    ensures
        share_at(shares, data, not_counted, i) matches Some(k) ==> i <= k < shares.len()
            && same_data(shares[k].data, data) && shares[k].not_counted == not_counted,
    decreases shares.len() - i,
{
    if 0 <= i < shares.len() {
        share_at_sound(shares, data, not_counted, i + 1);
    }
}

/// Pooling two blocks' shares adds them up, flag by flag.
pub proof fn pooled_adds(own: Seq<ShareV>, more: Seq<ShareV>, n: int)
    requires
        0 <= n <= more.len(),
    ensures
        list::total(pooled(own, more, n), share_size()) <= list::total(own, share_size())
            + list::sum(more, share_size(), n),
        share_ms(pooled(own, more, n), false) == share_ms(own, false) + list::sum(
            more,
            under(false),
            n,
        ),
        share_ms(pooled(own, more, n), true) == share_ms(own, true) + list::sum(
            more,
            under(true),
            n,
        ),
        own.len() > 0 || n > 0 ==> pooled(own, more, n).len() > 0,
    decreases n,
{
    if n > 0 {
        pooled_adds(own, more, n - 1);
        let s = more[n - 1];
        credited_adds(pooled(own, more, n - 1), s.data, s.ms, s.not_counted);
    }
}

fn pool_shares(own: &mut Vec<ForegroundShare>, more: Vec<ForegroundShare>)
    requires
        list::total(old(own).deep_view(), share_size()) + list::total(
            more.deep_view(),
            share_size(),
        ) <= i64::MAX,
    ensures
        final(own).deep_view() == arranged::<ForegroundShare>(
            pooled(old(own).deep_view(), more.deep_view(), more.len() as int),
        ),
{
    let ghost before = own.deep_view();
    let ghost mv = more.deep_view();
    assert(mv.len() == more.len());
    let mut i: usize = 0;
    while i < more.len()
        invariant
            i <= more.len(),
            mv == more.deep_view(),
            mv.len() == more.len(),
            list::total(before, share_size()) + list::total(mv, share_size()) <= i64::MAX,
            own.deep_view() == pooled(before, mv, i as int),
        decreases more.len() - i,
    {
        assert(mv[i as int] == more@[i as int].deep_view());
        proof {
            pooled_adds(before, mv, i as int);
            list::sum_bounds(mv, share_size(), i + 1);
            assert(share_size()(mv[i as int]) == size(mv[i as int].ms));
        }
        credit(own, more[i].clone());
        i = i + 1;
    }
    sort(own);
}

fn is_same_slice(a: &ActiveSlice, b: &ActiveSlice) -> (r: bool)
    ensures
        r == same_slice(a.deep_view(), b.deep_view()),
{
    a.device == b.device && a.bucket_id == b.bucket_id && a.data.same(&b.data)
}

fn find_slice(slices: &Vec<ActiveSlice>, s: &ActiveSlice) -> (r: Option<usize>)
    ensures
        match r {
            Some(i) => i < slices.len() && slice_at(slices.deep_view(), s.deep_view(), 0) == Some(
                i as int,
            ),
            None => slice_at(slices.deep_view(), s.deep_view(), 0) is None,
        },
{
    let ghost sv = slices.deep_view();
    let mut i: usize = 0;
    while i < slices.len()
        invariant
            i <= slices.len(),
            sv == slices.deep_view(),
            slice_at(sv, s.deep_view(), 0) == slice_at(sv, s.deep_view(), i as int),
        decreases slices.len() - i,
    {
        assert(sv[i as int] == slices@[i as int].deep_view());
        if is_same_slice(&slices[i], s) {
            return Some(i);
        }
        i = i + 1;
    }
    None
}

fn gather_slices(own: &mut Vec<ActiveSlice>, more: &Vec<ActiveSlice>)
    ensures
        final(own).deep_view() == arranged::<ActiveSlice>(
            gathered(old(own).deep_view(), more.deep_view(), more.len() as int),
        ),
{
    let ghost before = own.deep_view();
    let ghost mv = more.deep_view();
    let mut i: usize = 0;
    while i < more.len()
        invariant
            i <= more.len(),
            mv == more.deep_view(),
            own.deep_view() == gathered(before, mv, i as int),
        decreases more.len() - i,
    {
        let s = &more[i];
        assert(mv[i as int] == s.deep_view());
        let ghost now = own.deep_view();
        match find_slice(own, s) {
            Some(k) => {
                assert(now[k as int] == own@[k as int].deep_view());
                own[k].source_start = own[k].source_start.earlier_of(s.source_start);
                own[k].source_end = own[k].source_end.later_of(s.source_end);
                assert(own.deep_view() =~= now.update(
                    k as int,
                    widened(now[k as int], s.deep_view()),
                ));
            },
            None => {
                list::push(own, s.clone());
            },
        }
        i = i + 1;
    }
    sort(own);
}

pub proof fn slice_at_sound(slices: Seq<SliceV>, s: SliceV, i: int)
    requires
        0 <= i,
    ensures
        match slice_at(slices, s, i) {
            Some(k) => i <= k < slices.len() && same_slice(slices[k], s),
            None => forall|j: int| i <= j < slices.len() ==> !same_slice(#[trigger] slices[j], s),
        },
    decreases slices.len() - i,
{
    if i < slices.len() {
        slice_at_sound(slices, s, i + 1);
    }
}

/// Gathering keeps every activity that was there, in its place.
proof fn gathered_keeps(own: Seq<SliceV>, more: Seq<SliceV>, n: int, k: int)
    requires
        0 <= n <= more.len(),
        0 <= k < own.len(),
    ensures
        own.len() <= gathered(own, more, n).len(),
        same_slice(gathered(own, more, n)[k], own[k]),
    decreases n,
{
    if n > 0 {
        gathered_keeps(own, more, n - 1, k);
        slice_at_sound(gathered(own, more, n - 1), more[n - 1], 0);
    }
}

/// A merged block has its foreground: the activity that `prev` had.
pub proof fn merge_attributed(prev: SegmentV, next: SegmentV)
    requires
        attributed(prev),
    ensures
        attributed(merge(prev, next)),
        slice_at(merge(prev, next).active, foreground_of(prev), 0) is Some,
        same_slice(foreground_of(merge(prev, next)), foreground_of(prev)),
{
    let all = gathered(prev.active, next.active, next.active.len() as int);
    let active = arranged::<ActiveSlice>(all);
    gathered_keeps(prev.active, next.active, next.active.len() as int, prev.foreground);
    arranged_contains::<ActiveSlice>(all, all[prev.foreground]);
    assert(all.contains(all[prev.foreground]));
    let j = choose|j: int| 0 <= j < active.len() && active[j] == all[prev.foreground];
    slice_at_sound(active, foreground_of(prev), 0);
    assert(same_slice(active[j], foreground_of(prev)));
}

/// A merged block keeps no more than its parts and the hole between them.
pub proof fn merge_load(prev: SegmentV, next: SegmentV)
    requires
        adjacent(prev, next),
    ensures
        load(merge(prev, next)) <= load(prev) + load(next) + whole_millis(next.start - prev.end),
{
    let more = next.foreground_shares;
    pooled_adds(prev.foreground_shares, more, more.len() as int);
    list::total_arranged::<ForegroundShare>(
        pooled(prev.foreground_shares, more, more.len() as int),
        share_size(),
    );
}

/// Merge `next` into `prev`.
fn merge_into(prev: &mut Segment, next: Segment)
    requires
        adjacent(old(prev).deep_view(), next.deep_view()),
        attributed(old(prev).deep_view()),
        load(old(prev).deep_view()) + load(next.deep_view()) + whole_millis(
            next.start@ - old(prev).end@,
        ) <= i64::MAX,
    ensures
        final(prev).deep_view() == merge(old(prev).deep_view(), next.deep_view()),
{
    let ghost pv = prev.deep_view();
    let ghost nv = next.deep_view();
    assert(pv.active.len() == prev.active.len());
    proof {
        merge_attributed(pv, nv);
        merge_load(pv, nv);
        load_is_positive(pv);
        load_is_positive(nv);
    }
    let fg = prev.foreground_slice().clone();
    let hole = next.start.since(prev.end).num_milliseconds();
    prev.bridged_ms = prev.bridged_ms + hole;
    prev.bridged_ms = prev.bridged_ms + next.bridged_ms;
    prev.smoothed_seconds = prev.smoothed_seconds + next.smoothed_seconds;
    unite_labels(&mut prev.absorbed_labels, &next.absorbed_labels);
    pool_shares(&mut prev.foreground_shares, next.foreground_shares);
    gather_slices(&mut prev.active, &next.active);
    assert(nv.absorbed_labels.len() == next.absorbed_labels.len());
    assert(nv.foreground_shares.len() == next.foreground_shares.len());
    assert(nv.active.len() == next.active.len());
    proof {
        slice_at_by_key(prev.active.deep_view(), fg.deep_view(), foreground_of(pv), 0);
    }
    match find_slice(&prev.active, &fg) {
        Some(i) => {
            prev.foreground = i;
        },
        None => {
            assert(false);
        },
    }
    prev.end = next.end;
    assert(prev.deep_view() =~= merge(pv, nv));
}

proof fn slice_at_by_key(slices: Seq<SliceV>, a: SliceV, b: SliceV, i: int)
    requires
        same_slice(a, b),
    ensures
        slice_at(slices, a, i) == slice_at(slices, b, i),
    decreases slices.len() - i,
{
    if 0 <= i < slices.len() {
        slice_at_by_key(slices, a, b, i + 1);
    }
}

/// What folding keeps: as many numbers as it was given, a foreground in every block, and the end
/// of the last one.
pub proof fn folded_sound(segs: Seq<SegmentV>, n: int)
    requires
        0 <= n <= segs.len(),
        forall|i: int| 0 <= i < segs.len() ==> attributed(#[trigger] segs[i]),
    ensures
        forall|i: int| 0 <= i < folded(segs, n).len() ==> attributed(#[trigger] folded(segs, n)[i]),
        list::total(folded(segs, n), loads()) <= burden(segs, n),
        n > 0 ==> folded(segs, n).len() > 0 && folded(segs, n).last().end == segs[n - 1].end,
        folded(segs, n).len() <= n,
    decreases n,
{
    if n > 0 {
        folded_sound(segs, n - 1);
        let f = loads();
        let rest = folded(segs, n - 1);
        let seg = segs[n - 1];
        assert(attributed(seg));
        if rest.len() > 0 && mergeable(rest.last(), seg) {
            assert(n > 1);
            let m = merge(rest.last(), seg);
            assert(attributed(rest[rest.len() - 1]));
            merge_attributed(rest.last(), seg);
            merge_load(rest.last(), seg);
            assert(rest =~= rest.drop_last().push(rest.last()));
            list::total_push(rest.drop_last(), f, rest.last());
            list::total_push(rest.drop_last(), f, m);
            assert(hole_before(segs, n - 1) == whole_millis(seg.start - rest.last().end));
        } else {
            list::total_push(rest, f, seg);
            assert(hole_before(segs, n - 1) >= 0);
        }
    }
}

/// Merge adjacent segments whose attribution is identical.
pub fn coalesce(segments: Vec<Segment>) -> (r: Vec<Segment>)
    requires
        coalesce_fits(segments.deep_view()),
    ensures
        r.deep_view() == coalesced(segments.deep_view()),
{
    let ghost segs = segments.deep_view();
    let ghost given = all_seeded(segs);
    let mut segments = segments;
    assert(segs.len() == segments.len());
    seed_shares(&mut segments);
    assert(segments.deep_view().len() == segments.len());
    let mut out: Vec<Segment> = Vec::new();
    assert(out.deep_view() =~= Seq::empty());
    assert forall|i: int| 0 <= i < given.len() implies attributed(#[trigger] given[i]) by {
        assert(attributed(segs[i]));
    }
    let ghost all = segments@;
    assert(segments.deep_view() == given);
    for seg in it: segments
        invariant
            it.seq() == all,
            all.len() == given.len(),
            forall|i: int| 0 <= i < all.len() ==> (#[trigger] all[i]).deep_view() == given[i],
            forall|i: int| 0 <= i < given.len() ==> attributed(#[trigger] given[i]),
            burden(given, given.len() as int) <= i64::MAX,
            out.deep_view() == folded(given, it.index() as int),
    {
        let ghost i = it.index() as int;
        assert(seg.deep_view() == given[i]);
        proof {
            folded_sound(given, i);
            burden_grows(given, i + 1, given.len() as int);
        }
        let ghost before = out.deep_view();
        assert(before.len() == out.len());
        assert(attributed(given[i]));
        if out.len() > 0 {
            let last: usize = out.len() - 1;
            assert(before[last as int] == out@[last as int].deep_view());
            assert(attributed(before[last as int]));
            if is_mergeable(&out[last], &seg) {
                proof {
                    let f = loads();
                    assert forall|s: SegmentV| #[trigger] f(s) >= 0 by {
                        load_is_positive(s);
                    }
                    list::sum_bounds(before, f, before.len() as int);
                    assert(f(before[last as int]) == load(before[last as int]));
                    assert(hole_before(given, i) == whole_millis(given[i].start - before.last().end));
                }
                merge_into(&mut out[last], seg);
                assert(out.deep_view() =~= before.drop_last().push(
                    merge(before.last(), given[i]),
                ));
            } else {
                list::push(&mut out, seg);
            }
        } else {
            list::push(&mut out, seg);
        }
    }
    out
}

/// The milliseconds of a block under a flag.
pub open spec fn block_ms(not_counted: bool) -> spec_fn(SegmentV) -> int {
    |s: SegmentV| share_ms(s.foreground_shares, not_counted)
}

/// Merging two blocks adds up their time, flag by flag.
pub proof fn merge_adds(prev: SegmentV, next: SegmentV, not_counted: bool)
    ensures
        share_ms(merge(prev, next).foreground_shares, not_counted) == share_ms(
            prev.foreground_shares,
            not_counted,
        ) + share_ms(next.foreground_shares, not_counted),
{
    let more = next.foreground_shares;
    pooled_adds(prev.foreground_shares, more, more.len() as int);
    list::total_arranged::<ForegroundShare>(
        pooled(prev.foreground_shares, more, more.len() as int),
        under(not_counted),
    );
}

proof fn folded_adds(segs: Seq<SegmentV>, n: int, not_counted: bool)
    requires
        0 <= n <= segs.len(),
    ensures
        list::total(folded(segs, n), block_ms(not_counted)) == list::sum(
            segs,
            block_ms(not_counted),
            n,
        ),
    decreases n,
{
    if n > 0 {
        folded_adds(segs, n - 1, not_counted);
        let f = block_ms(not_counted);
        let rest = folded(segs, n - 1);
        let seg = segs[n - 1];
        if rest.len() > 0 && mergeable(rest.last(), seg) {
            let m = merge(rest.last(), seg);
            merge_adds(rest.last(), seg, not_counted);
            assert(rest =~= rest.drop_last().push(rest.last()));
            list::total_push(rest.drop_last(), f, rest.last());
            list::total_push(rest.drop_last(), f, m);
        } else {
            list::total_push(rest, f, seg);
        }
    }
}

/// Merging neither creates nor loses a millisecond, counted or not.
pub proof fn coalescing_keeps_every_millisecond(segs: Seq<SegmentV>, not_counted: bool)
    ensures
        list::total(coalesced(segs), block_ms(not_counted)) == list::total(
            all_seeded(segs),
            block_ms(not_counted),
        ),
{
    folded_adds(all_seeded(segs), segs.len() as int, not_counted);
}

/// The first of the given blocks that went into each merged block.
pub open spec fn group_starts(segs: Seq<SegmentV>, n: int) -> Seq<int>
    decreases n,
{
    if n <= 0 {
        Seq::empty()
    } else {
        let rest = folded(segs, n - 1);
        if rest.len() > 0 && mergeable(rest.last(), segs[n - 1]) {
            group_starts(segs, n - 1)
        } else {
            group_starts(segs, n - 1).push(n - 1)
        }
    }
}

/// The last of the given blocks that went into merged block `k`.
pub open spec fn group_end(segs: Seq<SegmentV>, n: int, k: int) -> int {
    if k + 1 < group_starts(segs, n).len() {
        group_starts(segs, n)[k + 1] - 1
    } else {
        n - 1
    }
}

/// Whether two blocks carry the same standing and the same foreground: what merging compares,
/// besides the place.
pub open spec fn alike(a: SegmentV, b: SegmentV) -> bool {
    &&& a.state == b.state
    &&& a.unresolved == b.unresolved
    &&& a.absorbed_short_contention == b.absorbed_short_contention
    &&& a.resolved_by == b.resolved_by
    &&& a.auto_resolved == b.auto_resolved
    &&& a.label_override == b.label_override
    &&& a.ignored == b.ignored
    &&& a.not_counted == b.not_counted
    &&& a.excluded_labels == b.excluded_labels
    &&& a.deliberate_background == b.deliberate_background
    &&& foreground_of(a).device == foreground_of(b).device
    &&& label(foreground_of(a).data) == label(foreground_of(b).data)
}

/// What a merged block is made of: given blocks `a` to `b`, all alike, each touching the next.
pub open spec fn made_of(m: SegmentV, segs: Seq<SegmentV>, a: int, b: int) -> bool {
    &&& 0 <= a <= b < segs.len()
    &&& m.start == segs[a].start
    &&& m.end == segs[b].end
    &&& forall|i: int| a <= i <= b ==> alike(m, #[trigger] segs[i])
    &&& forall|i: int| a < i <= b ==> meets(segs, i)
}

/// Whether block `i` touches the one before it within jitter.
pub open spec fn meets(segs: Seq<SegmentV>, i: int) -> bool {
    0 < i < segs.len() && adjacent(segs[i - 1], segs[i])
}

/// Whether block `k` does not merge with the one before it.
pub open spec fn parted(segs: Seq<SegmentV>, k: int) -> bool {
    0 < k < segs.len() && !mergeable(segs[k - 1], segs[k])
}

/// Merging puts runs of the given blocks together, one after another, leaving none out, and stops
/// only where two neighbours do not merge.
pub proof fn folded_groups(segs: Seq<SegmentV>, n: int)
    requires
        0 <= n <= segs.len(),
        forall|i: int| 0 <= i < segs.len() ==> attributed(#[trigger] segs[i]),
    ensures
        ({
            let out = folded(segs, n);
            let starts = group_starts(segs, n);
            &&& starts.len() == out.len()
            &&& n > 0 ==> out.len() > 0 && starts[0] == 0
            &&& forall|k: int|
                0 <= k < out.len() ==> made_of(
                    #[trigger] out[k],
                    segs,
                    starts[k],
                    group_end(segs, n, k),
                ) && attributed(out[k]) && starts[k] < n
            &&& forall|k: int, l: int|
                0 <= k < l < starts.len() ==> (#[trigger] starts[k]) < (#[trigger] starts[l])
            &&& forall|k: int| 0 < k < out.len() ==> #[trigger] parted(out, k)
        }),
    decreases n,
{
    if n > 0 {
        folded_groups(segs, n - 1);
        let rest = folded(segs, n - 1);
        let held = group_starts(segs, n - 1);
        let out = folded(segs, n);
        let starts = group_starts(segs, n);
        let seg = segs[n - 1];
        let last = rest.len() - 1;
        assert(attributed(segs[n - 1]));
        if rest.len() > 0 && mergeable(rest.last(), seg) {
            let m = merge(rest.last(), seg);
            assert(attributed(rest[last]));
            merge_attributed(rest[last], seg);
            assert(made_of(rest[last], segs, held[last], n - 2));
            assert(out[last] == m);
            assert(alike(m, rest[last]));
            assert(made_of(m, segs, held[last], n - 1)) by {
                assert forall|i: int| held[last] <= i <= n - 1 implies alike(
                    m,
                    #[trigger] segs[i],
                ) by {
                    if i < n - 1 {
                        assert(alike(rest[last], segs[i]));
                    }
                }
                assert forall|i: int| held[last] < i <= n - 1 implies meets(segs, i) by {}
            }
            assert forall|k: int| 0 <= k < out.len() implies made_of(
                #[trigger] out[k],
                segs,
                starts[k],
                group_end(segs, n, k),
            ) && attributed(out[k]) && starts[k] < n by {
                if k < last {
                    assert(out[k] == rest[k]);
                    assert(group_end(segs, n, k) == group_end(segs, n - 1, k));
                }
            }
            assert forall|k: int| 0 < k < out.len() implies #[trigger] parted(out, k) by {
                assert(out[k - 1] == rest[k - 1]);
                assert(parted(rest, k));
                if k < last {
                    assert(out[k] == rest[k]);
                }
            }
        } else {
            assert(out == rest.push(seg));
            assert(starts == held.push(n - 1));
            assert forall|k: int| 0 <= k < out.len() implies made_of(
                #[trigger] out[k],
                segs,
                starts[k],
                group_end(segs, n, k),
            ) && attributed(out[k]) && starts[k] < n by {
                if k < rest.len() {
                    assert(out[k] == rest[k]);
                    assert(starts[k] == held[k]);
                    assert(group_end(segs, n, k) == group_end(segs, n - 1, k)) by {
                        if k + 1 < rest.len() {
                            assert(starts[k + 1] == held[k + 1]);
                        }
                    }
                }
            }
            assert forall|k: int, l: int| 0 <= k < l < starts.len() implies (#[trigger] starts[k])
                < (#[trigger] starts[l]) by {
                assert(starts[k] == held[k]);
                if l < held.len() {
                    assert(starts[l] == held[l]);
                } else {
                    assert(made_of(rest[k], segs, held[k], group_end(segs, n - 1, k)));
                }
            }
            assert forall|k: int| 0 < k < out.len() implies #[trigger] parted(out, k) by {
                assert(out[k - 1] == rest[k - 1]);
                if k < rest.len() {
                    assert(parted(rest, k));
                    assert(out[k] == rest[k]);
                }
            }
        }
    }
}

/// Folding keeps the shares.
pub proof fn folded_has_shares(segs: Seq<SegmentV>, n: int)
    requires
        0 <= n <= segs.len(),
        forall|i: int| 0 <= i < segs.len() ==> (#[trigger] segs[i]).foreground_shares.len() > 0,
    ensures
        forall|k: int|
            0 <= k < folded(segs, n).len() ==> (#[trigger] folded(
                segs,
                n,
            )[k]).foreground_shares.len() > 0,
    decreases n,
{
    if n > 0 {
        folded_has_shares(segs, n - 1);
        let rest = folded(segs, n - 1);
        let seg = segs[n - 1];
        if rest.len() > 0 && mergeable(rest.last(), seg) {
            assert(rest[rest.len() - 1].foreground_shares.len() > 0);
            let more = seg.foreground_shares;
            let own = rest.last().foreground_shares;
            pooled_adds(own, more, more.len() as int);
            arranged_keeps::<ForegroundShare>(pooled(own, more, more.len() as int));
        }
    }
}

/// Where no two neighbours merge, folding changes nothing.
proof fn folded_fixed(segs: Seq<SegmentV>, n: int)
    requires
        0 <= n <= segs.len(),
        forall|k: int| 0 < k < segs.len() ==> #[trigger] parted(segs, k),
    ensures
        folded(segs, n) == segs.take(n),
    decreases n,
{
    if n > 0 {
        folded_fixed(segs, n - 1);
        let rest = folded(segs, n - 1);
        if n > 1 {
            assert(parted(segs, n - 1));
            assert(rest.last() == segs[n - 2]);
        }
        assert(folded(segs, n) =~= segs.take(n));
    } else {
        assert(folded(segs, n) =~= segs.take(n));
    }
}

/// Merging once is enough: nothing is left to merge, and merging again changes nothing.
pub proof fn coalescing_is_idempotent(segs: Seq<SegmentV>)
    requires
        forall|i: int| 0 <= i < segs.len() ==> attributed(#[trigger] segs[i]),
    ensures
        forall|k: int| 0 < k < coalesced(segs).len() ==> #[trigger] parted(coalesced(segs), k),
        coalesced(coalesced(segs)) == coalesced(segs),
{
    let given = all_seeded(segs);
    assert forall|i: int| 0 <= i < given.len() implies attributed(#[trigger] given[i])
        && given[i].foreground_shares.len() > 0 by {
        assert(attributed(segs[i]));
    }
    folded_groups(given, given.len() as int);
    folded_has_shares(given, given.len() as int);
    let out = coalesced(segs);
    assert(all_seeded(out) =~= out);
    folded_fixed(out, out.len() as int);
    assert(out.take(out.len() as int) =~= out);
}

/// Both ends on a whole millisecond, the start no later than the end.
pub open spec fn on_milliseconds(seg: SegmentV) -> bool {
    seg.start % 1_000_000 == 0 && seg.end % 1_000_000 == 0 && seg.start <= seg.end
}

/// By how many whole milliseconds the time recorded in a block and the holes bridged to draw it fall
/// short of its drawn span.
pub open spec fn shortfall() -> spec_fn(SegmentV) -> int {
    |s: SegmentV|
        whole_millis(s.end - s.start) - share_ms(s.foreground_shares, false) - share_ms(
            s.foreground_shares,
            true,
        ) - s.bridged_ms
}

/// The time recorded in a block and the holes bridged to draw it add up to its drawn span.
pub open spec fn accounted(seg: SegmentV) -> bool {
    share_ms(seg.foreground_shares, false) + share_ms(seg.foreground_shares, true)
        + seg.bridged_ms == whole_millis(seg.end - seg.start)
}

/// Three lengths rounded one by one fall short of all three rounded together by two whole
/// milliseconds at most, and by none where they are whole.
pub proof fn rounding_three(x: int, y: int, z: int)
    requires
        x >= 0,
        y >= 0,
        z >= 0,
    ensures
        0 <= whole_millis(x + y + z) - whole_millis(x) - whole_millis(y) - whole_millis(z) <= 2,
        x % 1_000_000 == 0 && y % 1_000_000 == 0 && z % 1_000_000 == 0 ==> whole_millis(x + y + z)
            == whole_millis(x) + whole_millis(y) + whole_millis(z),
{
}

/// Merging two blocks gives one that falls short by what both did and two milliseconds at most, and
/// by nothing more where both end on whole milliseconds.
pub proof fn merge_accounts(prev: SegmentV, next: SegmentV)
    requires
        adjacent(prev, next),
        prev.start <= prev.end,
        next.start <= next.end,
    ensures
        ({
            let m = merge(prev, next);
            let both = shortfall()(prev) + shortfall()(next);
            &&& m.start <= m.end
            &&& both <= shortfall()(m) <= both + 2
            &&& on_milliseconds(prev) && on_milliseconds(next) ==> on_milliseconds(m)
                && shortfall()(m) == both
        }),
{
    merge_adds(prev, next, false);
    merge_adds(prev, next, true);
    let x = prev.end - prev.start;
    let y = next.start - prev.end;
    let z = next.end - next.start;
    rounding_three(x, y, z);
    assert(merge(prev, next).end - merge(prev, next).start == x + y + z);
}

/// Folding makes blocks fall short by two milliseconds at most for each that is joined to another.
pub proof fn folded_accounts(segs: Seq<SegmentV>, n: int)
    requires
        0 <= n <= segs.len(),
        forall|i: int|
            0 <= i < segs.len() ==> (#[trigger] segs[i]).start <= segs[i].end && shortfall()(segs[i])
                >= 0,
    ensures
        ({
            let out = folded(segs, n);
            let given = list::sum(segs, shortfall(), n);
            &&& forall|k: int|
                0 <= k < out.len() ==> (#[trigger] out[k]).start <= out[k].end && shortfall()(out[k])
                    >= 0
            &&& given <= list::total(out, shortfall()) <= given + 2 * (n - out.len())
            &&& (forall|i: int| 0 <= i < segs.len() ==> on_milliseconds(#[trigger] segs[i])) ==> (
            forall|k: int| 0 <= k < out.len() ==> on_milliseconds(#[trigger] out[k])) && list::total(
                out,
                shortfall(),
            ) == given
        }),
    decreases n,
{
    let f = shortfall();
    if n > 0 {
        folded_accounts(segs, n - 1);
        let rest = folded(segs, n - 1);
        let seg = segs[n - 1];
        assert(segs[n - 1].start <= segs[n - 1].end);
        if rest.len() > 0 && mergeable(rest.last(), seg) {
            let m = merge(rest.last(), seg);
            assert(rest[rest.len() - 1].start <= rest[rest.len() - 1].end);
            merge_accounts(rest.last(), seg);
            assert(rest =~= rest.drop_last().push(rest.last()));
            list::total_push(rest.drop_last(), f, rest.last());
            list::total_push(rest.drop_last(), f, m);
            if forall|i: int| 0 <= i < segs.len() ==> on_milliseconds(#[trigger] segs[i]) {
                assert(on_milliseconds(segs[n - 1]));
                assert(on_milliseconds(rest[rest.len() - 1]));
            }
        } else {
            list::total_push(rest, f, seg);
        }
    } else {
        assert(folded(segs, n) =~= Seq::empty());
    }
}

/// Where the sum of what is never negative is nothing, each is nothing.
pub proof fn nothing_short(segs: Seq<SegmentV>, n: int)
    requires
        0 <= n <= segs.len(),
        forall|i: int| 0 <= i < segs.len() ==> shortfall()(#[trigger] segs[i]) >= 0,
    ensures
        list::sum(segs, shortfall(), n) >= 0,
        list::sum(segs, shortfall(), n) == 0 ==> forall|i: int|
            0 <= i < n ==> accounted(#[trigger] segs[i]),
    decreases n,
{
    if n > 0 {
        nothing_short(segs, n - 1);
        assert(shortfall()(segs[n - 1]) >= 0);
    }
}

/// Where every block is accounted for, none falls short.
pub proof fn none_short(segs: Seq<SegmentV>, n: int)
    requires
        0 <= n <= segs.len(),
        forall|i: int| 0 <= i < segs.len() ==> accounted(#[trigger] segs[i]),
    ensures
        list::sum(segs, shortfall(), n) == 0,
    decreases n,
{
    if n > 0 {
        none_short(segs, n - 1);
        assert(accounted(segs[n - 1]));
    }
}

/// A block that starts with its own span as its one share is accounted for.
pub proof fn seeding_accounts(seg: SegmentV)
    requires
        seg.foreground_shares.len() == 0,
    ensures
        accounted(seeded(seg)),
{
    let shares = seeded(seg).foreground_shares;
    assert(list::sum(shares, under(false), 0) == 0);
    assert(list::sum(shares, under(true), 0) == 0);
    assert(list::sum(shares, under(false), 1) == under(false)(shares[0]));
    assert(list::sum(shares, under(true), 1) == under(true)(shares[0]));
}

/// Merging keeps every block's shares and bridged holes adding up to what it draws, but for what
/// rounding to whole milliseconds takes: no block's exceed its span, and together they fall short by
/// two milliseconds at most for each block that was joined to another. For blocks cut on whole
/// milliseconds they add up exactly.
pub proof fn coalescing_accounts_for_every_block(segs: Seq<SegmentV>)
    requires
        forall|i: int|
            0 <= i < segs.len() ==> (#[trigger] segs[i]).start <= segs[i].end && accounted(
                seeded(segs[i]),
            ),
    ensures
        ({
            let out = coalesced(segs);
            &&& forall|k: int| 0 <= k < out.len() ==> shortfall()(#[trigger] out[k]) >= 0
            &&& list::total(out, shortfall()) <= 2 * (segs.len() - out.len())
            &&& (forall|i: int| 0 <= i < segs.len() ==> on_milliseconds(#[trigger] segs[i]))
                ==> forall|k: int|
                0 <= k < out.len() ==> accounted(#[trigger] out[k]) && on_milliseconds(out[k])
        }),
{
    let given = all_seeded(segs);
    let n = given.len() as int;
    let out = coalesced(segs);
    assert forall|i: int| 0 <= i < n implies (#[trigger] given[i]).start <= given[i].end
        && accounted(given[i]) && shortfall()(given[i]) >= 0 by {
        assert(segs[i].start <= segs[i].end);
    }
    none_short(given, n);
    folded_accounts(given, n);
    if forall|i: int| 0 <= i < segs.len() ==> on_milliseconds(#[trigger] segs[i]) {
        assert forall|i: int| 0 <= i < n implies on_milliseconds(#[trigger] given[i]) by {
            assert(on_milliseconds(segs[i]));
        }
        nothing_short(out, out.len() as int);
    }
}

} // verus!
