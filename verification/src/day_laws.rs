//! What a day shows, said of the events it was computed from.

use vstd::prelude::*;

use crate::exclude::{
    hits, marked_labels, marks_of, never_counts, regex_match, rule_matches, selected_hit,
    taken_out, unmarked, RuleV,
};
use crate::json::{document, text_of, Json, Member};
use crate::list;
use crate::model::{
    data_from, label, string_at, string_from, string_members, ActiveSlice, BucketV, DataV, EventV,
    InputV, SegmentV, SliceV, EVENT_ORIGIN_KEY,
};
use crate::normalise::{
    activity_of, bucket_device, bucket_intervals, busy, carve, carving_is_exact, idle_of, in_spans,
    interval_of, intervals_last, intervals_of, lowest_tag, narrowed, normalised, on_device,
    pieces_of, spans_on, spans_on_sound, without, Interval, IntervalV, SYNCED_FROM,
};
use crate::order::{arranged, arranged_contains, arranged_in_order, in_order};
use crate::pattern::sound_pattern;
use crate::pipeline::{computed, cut_and_excluded, later_steps_keep};
use crate::segment::{
    atomic, between, covering, ends_of, fresh, in_intervals, in_segments, marks, marks_sound,
    segmented, segments_partition_activity, slice_of,
};
use crate::text;
use crate::time::{Instant, SpanV};

verus! {

/// Whether an event goes on at `t`.
pub open spec fn goes_on(e: EventV, t: int) -> bool {
    e.timestamp <= t < e.timestamp + e.duration
}

/// The device that bucket `b` is of.
pub open spec fn device_of(input: InputV, b: BucketV) -> Seq<char> {
    bucket_device(b.events, b.bucket_id, input.own_device, input.hostname_to_uuid)
}

/// Whether a device is idle at `t`: an event of one of its idle buckets goes on then.
pub open spec fn idle_at(input: InputV, device: Seq<char>, t: int) -> bool {
    exists|b: int, e: int|
        0 <= b < input.idle.len() && 0 <= e < input.idle[b].events.len() && device_of(
            input,
            input.idle[b],
        ) == device && goes_on(#[trigger] input.idle[b].events[e], t)
}

/// Whether event `e` of activity bucket `b` is what a slice was cut from.
pub open spec fn source_of(input: InputV, s: SliceV, b: int, e: int) -> bool {
    &&& 0 <= b < input.activity.len()
    &&& 0 <= e < input.activity[b].events.len()
    &&& s.device == device_of(input, input.activity[b])
    &&& s.bucket_id == input.activity[b].bucket_id
    &&& s.data == input.activity[b].events[e].data
}

/// Whether a slice's source is as much of an event as can be had around it without idle time of the
/// slice's device: it lies within the event, the device is not idle during it, and it starts and
/// ends where the event does or where idle time does.
pub open spec fn whole_source(input: InputV, s: SliceV, e: EventV) -> bool {
    &&& e.timestamp <= s.source_start < s.source_end <= e.timestamp + e.duration
    &&& forall|t: int| s.source_start <= t < s.source_end ==> !#[trigger] idle_at(input, s.device, t)
    &&& s.source_start == e.timestamp || idle_at(input, s.device, s.source_start - 1)
    &&& s.source_end == e.timestamp + e.duration || idle_at(input, s.device, s.source_end)
}

spec fn one_event(device: Seq<char>, bucket_id: Seq<char>) -> spec_fn(EventV) -> Seq<IntervalV> {
    |e: EventV|
        if e.duration > 0 {
            seq![interval_of(e, device, bucket_id)]
        } else {
            Seq::empty()
        }
}

proof fn bucket_flat(bucket: BucketV, device: Seq<char>, n: int)
    requires
        0 <= n <= bucket.events.len(),
    ensures
        bucket_intervals(bucket, device, n) == list::flat(
            bucket.events,
            one_event(device, bucket.bucket_id),
            n,
        ),
    decreases n,
{
    if n > 0 {
        bucket_flat(bucket, device, n - 1);
        assert(bucket_intervals(bucket, device, n) =~= list::flat(
            bucket.events,
            one_event(device, bucket.bucket_id),
            n,
        ));
    }
}

spec fn one_bucket(own: Seq<char>, hosts: Map<Seq<char>, Seq<char>>) -> spec_fn(BucketV) -> Seq<
    IntervalV,
> {
    |b: BucketV|
        bucket_intervals(
            b,
            bucket_device(b.events, b.bucket_id, own, hosts),
            b.events.len() as int,
        )
}

proof fn buckets_flat(
    buckets: Seq<BucketV>,
    own: Seq<char>,
    hosts: Map<Seq<char>, Seq<char>>,
    n: int,
)
    requires
        0 <= n <= buckets.len(),
    ensures
        intervals_of(buckets, own, hosts, n) == list::flat(buckets, one_bucket(own, hosts), n),
    decreases n,
{
    if n > 0 {
        buckets_flat(buckets, own, hosts, n - 1);
    }
}

/// The interval of one event of one bucket.
spec fn interval_at(input: InputV, buckets: Seq<BucketV>, b: int, e: int) -> IntervalV {
    interval_of(buckets[b].events[e], device_of(input, buckets[b]), buckets[b].bucket_id)
}

/// Every event that lasts has its interval, and every interval is that of an event.
proof fn intervals_hold(input: InputV, buckets: Seq<BucketV>, iv: IntervalV)
    ensures
        intervals_of(
            buckets,
            input.own_device,
            input.hostname_to_uuid,
            buckets.len() as int,
        ).contains(iv) <==> exists|b: int, e: int|
            0 <= b < buckets.len() && 0 <= e < buckets[b].events.len()
                && buckets[b].events[e].duration > 0 && iv == #[trigger] interval_at(
                input,
                buckets,
                b,
                e,
            ),
{
    let own = input.own_device;
    let hosts = input.hostname_to_uuid;
    let n = buckets.len() as int;
    let f = one_bucket(own, hosts);
    buckets_flat(buckets, own, hosts, n);
    list::flat_contains(buckets, f, n, iv);
    if intervals_of(buckets, own, hosts, n).contains(iv) {
        let b = choose|b: int| 0 <= b < n && f(#[trigger] buckets[b]).contains(iv);
        let bucket = buckets[b];
        let device = device_of(input, bucket);
        let g = one_event(device, bucket.bucket_id);
        let m = bucket.events.len() as int;
        bucket_flat(bucket, device, m);
        list::flat_contains(bucket.events, g, m, iv);
        let e = choose|e: int| 0 <= e < m && g(#[trigger] bucket.events[e]).contains(iv);
        assert(bucket.events[e].duration > 0);
        assert(iv == interval_at(input, buckets, b, e));
    }
    if exists|b: int, e: int|
        0 <= b < buckets.len() && 0 <= e < buckets[b].events.len() && buckets[b].events[e].duration
            > 0 && iv == #[trigger] interval_at(input, buckets, b, e) {
        let (b, e) = choose|b: int, e: int|
            0 <= b < buckets.len() && 0 <= e < buckets[b].events.len()
                && buckets[b].events[e].duration > 0 && iv == #[trigger] interval_at(
                input,
                buckets,
                b,
                e,
            );
        let bucket = buckets[b];
        let device = device_of(input, bucket);
        let g = one_event(device, bucket.bucket_id);
        let m = bucket.events.len() as int;
        bucket_flat(bucket, device, m);
        list::flat_contains(bucket.events, g, m, iv);
        assert(g(bucket.events[e])[0] == iv);
        assert(g(bucket.events[e]).contains(iv));
        assert(f(buckets[b]).contains(iv));
    }
}

/// A device is idle when one of its idle intervals covers the moment.
proof fn idle_is_idle(input: InputV, device: Seq<char>, t: int)
    ensures
        on_device(idle_of(input), device, t) <==> idle_at(input, device, t),
{
    let ivs = idle_of(input);
    if on_device(ivs, device, t) {
        let i = choose|i: int|
            0 <= i < ivs.len() && (#[trigger] ivs[i]).device == device && ivs[i].start <= t
                < ivs[i].end;
        assert(ivs.contains(ivs[i]));
        intervals_hold(input, input.idle, ivs[i]);
        let (b, e) = choose|b: int, e: int|
            0 <= b < input.idle.len() && 0 <= e < input.idle[b].events.len()
                && input.idle[b].events[e].duration > 0 && ivs[i] == #[trigger] interval_at(
                input,
                input.idle,
                b,
                e,
            );
        assert(goes_on(input.idle[b].events[e], t));
    }
    if idle_at(input, device, t) {
        let (b, e) = choose|b: int, e: int|
            0 <= b < input.idle.len() && 0 <= e < input.idle[b].events.len() && device_of(
                input,
                input.idle[b],
            ) == device && goes_on(#[trigger] input.idle[b].events[e], t);
        let iv = interval_at(input, input.idle, b, e);
        intervals_hold(input, input.idle, iv);
        let i = choose|i: int| 0 <= i < ivs.len() && ivs[i] == iv;
        assert(ivs[i].device == device);
    }
}

spec fn left_of(idle: Seq<IntervalV>) -> spec_fn(IntervalV) -> Seq<IntervalV> {
    |iv: IntervalV| without(iv, spans_on(idle, iv.device, idle.len() as int))
}

proof fn busy_is_flat(activity: Seq<IntervalV>, idle: Seq<IntervalV>, n: int)
    requires
        0 <= n <= activity.len(),
    ensures
        busy(activity, idle, n) == list::flat(activity, left_of(idle), n),
    decreases n,
{
    if n > 0 {
        busy_is_flat(activity, idle, n - 1);
    }
}

proof fn pieces_hold(iv: IntervalV, pieces: Seq<SpanV>, n: int, x: IntervalV)
    requires
        0 <= n <= pieces.len(),
    ensures
        pieces_of(iv, pieces, n).contains(x) <==> exists|k: int|
            0 <= k < n && (#[trigger] pieces[k]).end > pieces[k].start && x == narrowed(
                iv,
                pieces[k],
            ),
    decreases n,
{
    if n > 0 {
        pieces_hold(iv, pieces, n - 1, x);
        let rest = pieces_of(iv, pieces, n - 1);
        let all = pieces_of(iv, pieces, n);
        if all.contains(x) {
            let k = choose|k: int| 0 <= k < all.len() && all[k] == x;
            if k < rest.len() {
                assert(rest[k] == x);
                assert(rest.contains(x));
            }
        }
        if rest.contains(x) {
            let k = choose|k: int| 0 <= k < rest.len() && rest[k] == x;
            assert(all[k] == x);
        }
        if pieces[n - 1].end > pieces[n - 1].start {
            assert(all[rest.len() as int] == narrowed(iv, pieces[n - 1]));
        }
    }
}

/// Whether an interval is what is left of an event around some moment: as much of it as can be had
/// without idle time of its device.
pub open spec fn left_whole(input: InputV, iv: IntervalV, b: int, e: int) -> bool {
    source_of(input, slice_of(iv), b, e) && whole_source(
        input,
        slice_of(iv),
        input.activity[b].events[e],
    )
}

/// A piece that a carving leaves has the ends that a whole source has.
proof fn piece_is_whole(p: SpanV, holes: Seq<SpanV>, k: int)
    requires
        p.start < p.end,
        crate::normalise::lasting(holes),
        0 <= k < carve(p, holes, holes.len() as int).len(),
    ensures
        ({
            let q = carve(p, holes, holes.len() as int)[k];
            &&& p.start <= q.start < q.end <= p.end
            &&& forall|t: int| q.start <= t < q.end ==> !#[trigger] in_spans(holes, t)
            &&& q.start == p.start || in_spans(holes, q.start - 1)
            &&& q.end == p.end || in_spans(holes, q.end)
        }),
{
    let n = holes.len() as int;
    let pieces = carve(p, holes, n);
    carving_is_exact(p, holes, n);
    assert(holes.take(n) =~= holes);
    let q = pieces[k];
    assert(in_spans(pieces, q.start));
    assert(in_spans(pieces, q.end - 1)) by {
        assert(pieces[k].start <= q.end - 1 < pieces[k].end);
    }
    assert forall|t: int| q.start <= t < q.end implies !#[trigger] in_spans(holes, t) by {
        assert(pieces[k].start <= t < pieces[k].end);
        assert(in_spans(pieces, t));
    }
    if q.start > p.start && !in_spans(holes, q.start - 1) {
        assert(in_spans(pieces, q.start - 1));
        let l = choose|l: int|
            0 <= l < pieces.len() && (#[trigger] pieces[l]).start <= q.start - 1 < pieces[l].end;
        if l < k {
            assert(pieces[l].end < pieces[k].start);
        } else if l > k {
            assert(pieces[k].end < pieces[l].start);
        }
    }
    if q.end < p.end && !in_spans(holes, q.end) {
        assert(in_spans(pieces, q.end));
        let l = choose|l: int|
            0 <= l < pieces.len() && (#[trigger] pieces[l]).start <= q.end < pieces[l].end;
        if l < k {
            assert(pieces[l].end < pieces[k].start);
        } else if l > k {
            assert(pieces[k].end < pieces[l].start);
        }
    }
}

/// The idle spans of a device cover exactly its idle time.
proof fn idle_spans(input: InputV, device: Seq<char>)
    ensures
        ({
            let holes = spans_on(idle_of(input), device, idle_of(input).len() as int);
            &&& crate::normalise::lasting(holes)
            &&& forall|t: int| #[trigger] in_spans(holes, t) <==> idle_at(input, device, t)
        }),
{
    let idle = idle_of(input);
    let n = idle.len() as int;
    intervals_last(input.idle, input.own_device, input.hostname_to_uuid, input.idle.len() as int);
    spans_on_sound(idle, device, n);
    assert(idle.take(n) =~= idle);
    let holes = spans_on(idle, device, n);
    assert forall|t: int| #[trigger] in_spans(holes, t) <==> idle_at(input, device, t) by {
        idle_is_idle(input, device, t);
    }
}

/// Every interval that is left is the whole of what is left of an event there.
proof fn what_is_left_is_whole(input: InputV, iv: IntervalV)
    requires
        normalised(input).contains(iv),
    ensures
        exists|b: int, e: int| #[trigger] left_whole(input, iv, b, e),
{
    let activity = activity_of(input);
    let idle = idle_of(input);
    let n = activity.len() as int;
    arranged_contains::<Interval>(busy(activity, idle, n), iv);
    busy_is_flat(activity, idle, n);
    list::flat_contains(activity, left_of(idle), n, iv);
    let j = choose|j: int| 0 <= j < n && left_of(idle)(#[trigger] activity[j]).contains(iv);
    let a = activity[j];
    assert(activity.contains(a));
    intervals_hold(input, input.activity, a);
    let (b, e) = choose|b: int, e: int|
        0 <= b < input.activity.len() && 0 <= e < input.activity[b].events.len()
            && input.activity[b].events[e].duration > 0 && a == #[trigger] interval_at(
            input,
            input.activity,
            b,
            e,
        );
    let holes = spans_on(idle, a.device, idle.len() as int);
    idle_spans(input, a.device);
    let p = SpanV { start: a.start, end: a.end };
    let pieces = carve(p, holes, holes.len() as int);
    pieces_hold(a, pieces, pieces.len() as int, iv);
    let k = choose|k: int|
        0 <= k < pieces.len() && (#[trigger] pieces[k]).end > pieces[k].start && iv == narrowed(
            a,
            pieces[k],
        );
    piece_is_whole(p, holes, k);
    let s = slice_of(iv);
    assert forall|t: int| s.source_start <= t < s.source_end implies !#[trigger] idle_at(
        input,
        s.device,
        t,
    ) by {
        assert(!in_spans(holes, t));
    }
    assert(s.source_start == a.start || in_spans(holes, s.source_start - 1));
    assert(s.source_end == a.end || in_spans(holes, s.source_end));
    assert(left_whole(input, iv, b, e));
}

/// Wherever an event goes on and its device is not idle, the interval around that moment is left.
proof fn what_goes_on_is_left(input: InputV, b: int, e: int, t: int)
    requires
        0 <= b < input.activity.len(),
        0 <= e < input.activity[b].events.len(),
        goes_on(input.activity[b].events[e], t),
        !idle_at(input, device_of(input, input.activity[b]), t),
    ensures
        exists|iv: IntervalV| #[trigger]
            normalised(input).contains(iv) && iv.start <= t < iv.end && left_whole(input, iv, b, e),
{
    let activity = activity_of(input);
    let idle = idle_of(input);
    let n = activity.len() as int;
    let a = interval_at(input, input.activity, b, e);
    intervals_hold(input, input.activity, a);
    let j = choose|j: int| 0 <= j < n && activity[j] == a;
    let holes = spans_on(idle, a.device, idle.len() as int);
    idle_spans(input, a.device);
    let p = SpanV { start: a.start, end: a.end };
    let pieces = carve(p, holes, holes.len() as int);
    carving_is_exact(p, holes, holes.len() as int);
    assert(holes.take(holes.len() as int) =~= holes);
    assert(!in_spans(holes, t));
    assert(in_spans(pieces, t));
    let k = choose|k: int| 0 <= k < pieces.len() && (#[trigger] pieces[k]).start <= t < pieces[k].end;
    let iv = narrowed(a, pieces[k]);
    pieces_hold(a, pieces, pieces.len() as int, iv);
    assert(pieces[k].end > pieces[k].start && iv == narrowed(a, pieces[k]));
    assert(left_of(idle)(activity[j]).contains(iv));
    list::flat_contains(activity, left_of(idle), n, iv);
    busy_is_flat(activity, idle, n);
    arranged_contains::<Interval>(busy(activity, idle, n), iv);
    assert(normalised(input).contains(iv));
    piece_is_whole(p, holes, k);
    let s = slice_of(iv);
    assert forall|u: int| s.source_start <= u < s.source_end implies !#[trigger] idle_at(
        input,
        s.device,
        u,
    ) by {
        assert(!in_spans(holes, u));
    }
    assert(s.source_start == a.start || in_spans(holes, s.source_start - 1));
    assert(s.source_end == a.end || in_spans(holes, s.source_end));
    assert(left_whole(input, iv, b, e));
}

proof fn between_is(ivs: Seq<IntervalV>, at: Seq<int>, n: int, k: int) -> (m: int)
    requires
        0 <= k < between(ivs, at, n).len(),
    ensures
        0 <= m < n,
        between(ivs, at, n)[k] == fresh(
            at[m],
            at[m + 1],
            covering(ivs, at[m], at[m + 1], ivs.len() as int),
        ),
    decreases n,
{
    if n > 0 {
        let rest = between(ivs, at, n - 1);
        if k < rest.len() {
            between_is(ivs, at, n - 1, k)
        } else {
            n - 1
        }
    } else {
        0
    }
}

proof fn covering_holds(ivs: Seq<IntervalV>, a: int, b: int, n: int, s: SliceV)
    requires
        0 <= n <= ivs.len(),
    ensures
        covering(ivs, a, b, n).contains(s) <==> exists|i: int|
            0 <= i < n && (#[trigger] ivs[i]).start <= a && b <= ivs[i].end && slice_of(ivs[i])
                == s,
    decreases n,
{
    if n > 0 {
        covering_holds(ivs, a, b, n - 1, s);
        let rest = covering(ivs, a, b, n - 1);
        let all = covering(ivs, a, b, n);
        if all.contains(s) {
            let k = choose|k: int| 0 <= k < all.len() && all[k] == s;
            if k < rest.len() {
                assert(rest[k] == s);
                assert(rest.contains(s));
            }
        }
        if rest.contains(s) {
            let k = choose|k: int| 0 <= k < rest.len() && rest[k] == s;
            assert(all[k] == s);
        }
        if ivs[n - 1].start <= a && b <= ivs[n - 1].end {
            assert(all[rest.len() as int] == slice_of(ivs[n - 1]));
        }
    }
}

/// A segment that is cut has the slice of an interval exactly where the interval covers any moment
/// of it, and it starts and ends where intervals do.
proof fn cut_shows_intervals(ivs: Seq<IntervalV>, k: int, t: int)
    requires
        0 <= k < segmented(ivs).len(),
        segmented(ivs)[k].start <= t < segmented(ivs)[k].end,
    ensures
        ({
            let seg = segmented(ivs)[k];
            &&& forall|i: int|
                0 <= i < ivs.len() && (#[trigger] ivs[i]).start <= t < ivs[i].end
                    ==> seg.active.contains(slice_of(ivs[i]))
            &&& forall|s: SliceV| #[trigger]
                seg.active.contains(s) ==> s.source_start <= t < s.source_end && exists|i: int|
                    0 <= i < ivs.len() && slice_of(#[trigger] ivs[i]) == s
            &&& exists|i: int|
                0 <= i < ivs.len() && ((#[trigger] ivs[i]).start == seg.start || ivs[i].end
                    == seg.start)
            &&& exists|i: int|
                0 <= i < ivs.len() && ((#[trigger] ivs[i]).start == seg.end || ivs[i].end
                    == seg.end)
        }),
{
    let at = marks(ivs);
    let n = ivs.len() as int;
    let m = between_is(ivs, at, at.len() - 1, k);
    let seg = segmented(ivs)[k];
    let (a, b) = (at[m], at[m + 1]);
    let slices = covering(ivs, a, b, n);
    marks_sound(ivs);
    assert forall|i: int| 0 <= i < ivs.len() && (#[trigger] ivs[i]).start <= t < ivs[i].end
        implies seg.active.contains(slice_of(ivs[i])) by {
        let p = choose|p: int| 0 <= p < at.len() && at[p] == ivs[i].start;
        let q = choose|q: int| 0 <= q < at.len() && at[q] == ivs[i].end;
        if p > m {
            assert(at[m + 1] <= at[p]);
        }
        if q <= m {
            assert(at[q] <= at[m]);
        }
        assert(at[p] <= at[m]);
        assert(at[m + 1] <= at[q]);
        covering_holds(ivs, a, b, n, slice_of(ivs[i]));
        arranged_contains::<ActiveSlice>(slices, slice_of(ivs[i]));
    }
    assert forall|s: SliceV| #[trigger] seg.active.contains(s) implies s.source_start <= t
        < s.source_end && exists|i: int| 0 <= i < ivs.len() && slice_of(#[trigger] ivs[i]) == s by {
        arranged_contains::<ActiveSlice>(slices, s);
        covering_holds(ivs, a, b, n, s);
    }
    mark_is_an_end(ivs, m);
    mark_is_an_end(ivs, m + 1);
}

proof fn ends_hold(ivs: Seq<IntervalV>, n: int, x: int)
    requires
        0 <= n <= ivs.len(),
        ends_of(ivs, n).contains(x),
    ensures
        exists|i: int| 0 <= i < n && ((#[trigger] ivs[i]).start == x || ivs[i].end == x),
    decreases n,
{
    let all = ends_of(ivs, n);
    let k = choose|k: int| 0 <= k < all.len() && all[k] == x;
    if n > 0 {
        let rest = ends_of(ivs, n - 1);
        if k < rest.len() {
            assert(rest[k] == x);
            ends_hold(ivs, n - 1, x);
        } else {
            assert(ivs[n - 1].start == x || ivs[n - 1].end == x);
        }
    }
}

proof fn mark_is_an_end(ivs: Seq<IntervalV>, m: int)
    requires
        0 <= m < marks(ivs).len(),
    ensures
        exists|i: int|
            0 <= i < ivs.len() && ((#[trigger] ivs[i]).start == marks(ivs)[m] || ivs[i].end
                == marks(ivs)[m]),
{
    let e = ends_of(ivs, ivs.len() as int);
    let s = arranged::<Instant>(e);
    let x = marks(ivs)[m];
    list::runs_contain(s, s.len() as int);
    assert(s.take(s.len() as int) =~= s);
    assert(marks(ivs).contains(x));
    assert(s.contains(x));
    arranged_contains::<Instant>(e, x);
    ends_hold(ivs, ivs.len() as int, x);
}

proof fn unmarked_holds(slices: Seq<SliceV>, marked: Seq<bool>, n: int, s: SliceV)
    requires
        0 <= n <= slices.len(),
        marked.len() == slices.len(),
    ensures
        unmarked(slices, marked, n).contains(s) <==> exists|k: int|
            0 <= k < n && !marked[k] && #[trigger] slices[k] == s,
    decreases n,
{
    if n > 0 {
        unmarked_holds(slices, marked, n - 1, s);
        let rest = unmarked(slices, marked, n - 1);
        let all = unmarked(slices, marked, n);
        if all.contains(s) {
            let k = choose|k: int| 0 <= k < all.len() && all[k] == s;
            if k < rest.len() {
                assert(rest[k] == s);
                assert(rest.contains(s));
            } else {
                assert(slices[n - 1] == s);
            }
        }
        if rest.contains(s) {
            let k = choose|k: int| 0 <= k < rest.len() && rest[k] == s;
            assert(all[k] == s);
        }
        if !marked[n - 1] {
            assert(all[rest.len() as int] == slices[n - 1]);
        }
    }
}

proof fn labels_hold(slices: Seq<SliceV>, marked: Seq<bool>, n: int, l: Seq<char>)
    requires
        0 <= n <= slices.len(),
        marked.len() == slices.len(),
    ensures
        marked_labels(slices, marked, n).contains(l) <==> exists|k: int|
            0 <= k < n && marked[k] && label((#[trigger] slices[k]).data) == l,
    decreases n,
{
    if n > 0 {
        labels_hold(slices, marked, n - 1, l);
        let rest = marked_labels(slices, marked, n - 1);
        let all = marked_labels(slices, marked, n);
        if all.contains(l) {
            let k = choose|k: int| 0 <= k < all.len() && all[k] == l;
            if k < rest.len() {
                assert(rest[k] == l);
                assert(rest.contains(l));
            } else {
                assert(label(slices[n - 1].data) == l);
            }
        }
        if rest.contains(l) {
            let k = choose|k: int| 0 <= k < rest.len() && rest[k] == l;
            assert(all[k] == l);
        }
        if marked[n - 1] {
            assert(all[rest.len() as int] == label(slices[n - 1].data));
        }
    }
}

/// What exclusion leaves of a segment, whichever way it goes: it stops counting just where every
/// slice never counts, and keeps them all then; otherwise it keeps the slices that count. The labels
/// of those that never count are listed.
proof fn taking_out_is_exact(seg: SegmentV, rules: Seq<RuleV>, s: SliceV)
    requires
        seg.active.len() > 0,
        !seg.not_counted,
        seg.excluded_labels.len() == 0,
    ensures
        ({
            let out = taken_out(seg, marks_of(rules, seg.active));
            &&& out.not_counted <==> forall|k: int|
                0 <= k < seg.active.len() ==> never_counts(rules, (#[trigger] seg.active[k]).data)
            &&& out.active.contains(s) <==> seg.active.contains(s) && (out.not_counted
                || !never_counts(rules, s.data))
            &&& forall|l: Seq<char>| #[trigger]
                out.excluded_labels.contains(l) <==> exists|k: int|
                    0 <= k < seg.active.len() && never_counts(
                        rules,
                        (#[trigger] seg.active[k]).data,
                    ) && label(seg.active[k].data) == l
        }),
{
    let marked = marks_of(rules, seg.active);
    let n = seg.active.len() as int;
    let out = taken_out(seg, marked);
    unmarked_holds(seg.active, marked, n, s);
    assert(forall|k: int| 0 <= k < n ==> marked[k] == never_counts(rules, #[trigger] seg.active[k].data));
    if !marked.contains(true) {
        assert forall|k: int| 0 <= k < n implies !never_counts(
            rules,
            (#[trigger] seg.active[k]).data,
        ) by {
            if marked[k] {
                assert(marked.contains(true));
            }
        }
        assert(!never_counts(rules, seg.active[0].data));
    } else {
        let x = choose|x: int| 0 <= x < n && marked[x] == true;
        assert(marked[x]);
        if !marked.contains(false) {
            assert forall|k: int| 0 <= k < n implies never_counts(
                rules,
                (#[trigger] seg.active[k]).data,
            ) by {
                if !marked[k] {
                    assert(marked.contains(false));
                }
            }
        } else {
            let y = choose|y: int| 0 <= y < n && marked[y] == false;
            assert(!never_counts(rules, seg.active[y].data));
        }
        let labels = marked_labels(seg.active, marked, n);
        let sorted = arranged::<String>(labels);
        list::runs_contain(sorted, sorted.len() as int);
        assert(sorted.take(sorted.len() as int) =~= sorted);
        assert forall|l: Seq<char>| #[trigger] out.excluded_labels.contains(l) <==> exists|k: int|
            0 <= k < n && never_counts(rules, (#[trigger] seg.active[k]).data) && label(
                seg.active[k].data,
            ) == l by {
            arranged_contains::<String>(labels, l);
            labels_hold(seg.active, marked, n, l);
        }
    }
}

/// Whether event `e` of activity bucket `b` goes on at `t` and its device is not idle then.
pub open spec fn shows_at(input: InputV, b: int, e: int, t: int) -> bool {
    &&& 0 <= b < input.activity.len()
    &&& 0 <= e < input.activity[b].events.len()
    &&& goes_on(input.activity[b].events[e], t)
    &&& !idle_at(input, device_of(input, input.activity[b]), t)
}

/// Whether slice `s` is cut from event `e` of activity bucket `b` around the moment `t`.
pub open spec fn cut_from(input: InputV, s: SliceV, b: int, e: int, t: int) -> bool {
    source_of(input, s, b, e) && whole_source(input, s, input.activity[b].events[e])
        && s.source_start <= t < s.source_end
}

/// At every moment a day shows exactly what was recorded then. A segment has a slice for each event
/// that goes on at any moment of it while the event's device is not idle: of the event's device,
/// bucket and data, and with as much of the event for its source as is free of idle time. It has no
/// other slice. What never counts is left out, and listed by its label, unless there is nothing
/// else: then the segment does not count.
pub proof fn the_day_shows_what_went_on(input: InputV, i: int, t: int)
    requires
        0 <= i < computed(input).len(),
        computed(input)[i].start <= t < computed(input)[i].end,
    ensures
        ({
            let seg = computed(input)[i];
            let rules = input.not_counted;
            &&& forall|b: int, e: int| #[trigger]
                shows_at(input, b, e, t) && (seg.not_counted || !never_counts(
                    rules,
                    input.activity[b].events[e].data,
                )) ==> exists|k: int|
                    0 <= k < seg.active.len() && cut_from(
                        input,
                        #[trigger] seg.active[k],
                        b,
                        e,
                        t,
                    )
            &&& forall|k: int|
                0 <= k < seg.active.len() ==> exists|b: int, e: int| #[trigger]
                    shows_at(input, b, e, t) && cut_from(
                        input,
                        #[trigger] seg.active[k],
                        b,
                        e,
                        t,
                    ) && (seg.not_counted || !never_counts(
                        rules,
                        input.activity[b].events[e].data,
                    ))
            &&& seg.not_counted <==> forall|b: int, e: int| #[trigger]
                shows_at(input, b, e, t) ==> never_counts(rules, input.activity[b].events[e].data)
            &&& forall|l: Seq<char>| #[trigger]
                seg.excluded_labels.contains(l) <==> exists|b: int, e: int| #[trigger]
                    shows_at(input, b, e, t) && never_counts(
                        rules,
                        input.activity[b].events[e].data,
                    ) && label(input.activity[b].events[e].data) == l
        }),
{
    let ivs = normalised(input);
    let rules = input.not_counted;
    let seg = segmented(ivs)[i];
    let day = computed(input)[i];
    let out = taken_out(seg, marks_of(rules, seg.active));
    same_after_exclusion(input, i);
    cut_shows_events(input, i, t);
    segments_partition_activity(ivs);
    assert(atomic(ivs, seg));
    cut_is_fresh(ivs, i);
    counted_are_shown(input, seg, t);
    shown_are_counted(input, seg, t);
    not_counted_is_exact(input, seg, t);
    labels_are_exact(input, seg, t);
    assert(day.active == out.active);
    assert(day.not_counted == out.not_counted);
    assert(day.excluded_labels == out.excluded_labels);
}

/// Whether a segment has a slice for every event that shows at `t`.
#[verifier::opaque]
spec fn shows_all(input: InputV, seg: SegmentV, t: int) -> bool {
    forall|b: int, e: int| #[trigger]
        shows_at(input, b, e, t) ==> exists|s: SliceV| #[trigger]
            seg.active.contains(s) && cut_from(input, s, b, e, t)
}

/// Whether every slice of a segment is of an event that shows at `t`.
#[verifier::opaque]
spec fn shows_only(input: InputV, seg: SegmentV, t: int) -> bool {
    forall|s: SliceV| #[trigger]
        seg.active.contains(s) ==> exists|b: int, e: int| #[trigger]
            shows_at(input, b, e, t) && cut_from(input, s, b, e, t)
}

proof fn same_after_exclusion(input: InputV, i: int)
    requires
        0 <= i < computed(input).len(),
    ensures
        ({
            let seg = segmented(normalised(input))[i];
            let out = taken_out(seg, marks_of(input.not_counted, seg.active));
            let day = computed(input)[i];
            &&& i < segmented(normalised(input)).len()
            &&& computed(input).len() == segmented(normalised(input)).len()
            &&& day.active == out.active
            &&& day.not_counted == out.not_counted
            &&& day.excluded_labels == out.excluded_labels
            &&& day.start == seg.start
            &&& day.end == seg.end
        }),
{
    later_steps_keep(input, i);
    let seg = segmented(normalised(input))[i];
    taken_out_spans(seg, marks_of(input.not_counted, seg.active));
}

proof fn cut_shows_events(input: InputV, i: int, t: int)
    requires
        0 <= i < segmented(normalised(input)).len(),
        segmented(normalised(input))[i].start <= t < segmented(normalised(input))[i].end,
    ensures
        shows_all(input, segmented(normalised(input))[i], t),
        shows_only(input, segmented(normalised(input))[i], t),
{
    reveal(shows_all);
    reveal(shows_only);
    let ivs = normalised(input);
    let seg = segmented(ivs)[i];
    cut_shows_intervals(ivs, i, t);
    assert forall|b: int, e: int| #[trigger] shows_at(input, b, e, t) implies exists|s: SliceV|
        #[trigger] seg.active.contains(s) && cut_from(input, s, b, e, t) by {
        what_goes_on_is_left(input, b, e, t);
        let iv = choose|iv: IntervalV| #[trigger]
            ivs.contains(iv) && iv.start <= t < iv.end && left_whole(input, iv, b, e);
        let j = choose|j: int| 0 <= j < ivs.len() && ivs[j] == iv;
        assert(seg.active.contains(slice_of(ivs[j])));
        assert(cut_from(input, slice_of(iv), b, e, t));
    }
    assert forall|s: SliceV| #[trigger] seg.active.contains(s) implies exists|b: int, e: int|
        #[trigger] shows_at(input, b, e, t) && cut_from(input, s, b, e, t) by {
        let j = choose|j: int| 0 <= j < ivs.len() && slice_of(#[trigger] ivs[j]) == s;
        assert(ivs.contains(ivs[j]));
        what_is_left_is_whole(input, ivs[j]);
        let (b, e) = choose|b: int, e: int| #[trigger] left_whole(input, ivs[j], b, e);
        assert(!idle_at(input, s.device, t));
        assert(shows_at(input, b, e, t));
        assert(cut_from(input, s, b, e, t));
    }
}

/// A segment as it is cut, before anything is excluded.
spec fn new_cut(seg: SegmentV) -> bool {
    seg.active.len() > 0 && !seg.not_counted && seg.excluded_labels.len() == 0
}

proof fn counted_are_shown(input: InputV, seg: SegmentV, t: int)
    requires
        new_cut(seg),
        shows_all(input, seg, t),
    ensures
        ({
            let rules = input.not_counted;
            let day = taken_out(seg, marks_of(rules, seg.active));
            forall|b: int, e: int| #[trigger]
                shows_at(input, b, e, t) && (day.not_counted || !never_counts(
                    rules,
                    input.activity[b].events[e].data,
                )) ==> exists|k: int|
                    0 <= k < day.active.len() && cut_from(
                        input,
                        #[trigger] day.active[k],
                        b,
                        e,
                        t,
                    )
        }),
{
    reveal(shows_all);
    let rules = input.not_counted;
    let day = taken_out(seg, marks_of(rules, seg.active));
    assert forall|b: int, e: int| #[trigger]
        shows_at(input, b, e, t) && (day.not_counted || !never_counts(
            rules,
            input.activity[b].events[e].data,
        )) implies exists|k: int|
        0 <= k < day.active.len() && cut_from(input, #[trigger] day.active[k], b, e, t) by {
        let s = choose|s: SliceV| #[trigger] seg.active.contains(s) && cut_from(input, s, b, e, t);
        taking_out_is_exact(seg, rules, s);
        let k = choose|k: int| 0 <= k < day.active.len() && day.active[k] == s;
        assert(cut_from(input, day.active[k], b, e, t));
    }
}

proof fn shown_are_counted(input: InputV, seg: SegmentV, t: int)
    requires
        new_cut(seg),
        shows_only(input, seg, t),
    ensures
        ({
            let rules = input.not_counted;
            let day = taken_out(seg, marks_of(rules, seg.active));
            forall|k: int|
                0 <= k < day.active.len() ==> exists|b: int, e: int| #[trigger]
                    shows_at(input, b, e, t) && cut_from(
                        input,
                        #[trigger] day.active[k],
                        b,
                        e,
                        t,
                    ) && (day.not_counted || !never_counts(
                        rules,
                        input.activity[b].events[e].data,
                    ))
        }),
{
    reveal(shows_only);
    let rules = input.not_counted;
    let day = taken_out(seg, marks_of(rules, seg.active));
    assert forall|k: int| 0 <= k < day.active.len() implies exists|b: int, e: int| #[trigger]
        shows_at(input, b, e, t) && cut_from(input, #[trigger] day.active[k], b, e, t) && (
        day.not_counted || !never_counts(rules, input.activity[b].events[e].data)) by {
        let s = day.active[k];
        assert(day.active.contains(s));
        taking_out_is_exact(seg, rules, s);
        let (b, e) = choose|b: int, e: int| #[trigger]
            shows_at(input, b, e, t) && cut_from(input, s, b, e, t);
        assert(input.activity[b].events[e].data == s.data);
    }
}

proof fn not_counted_is_exact(input: InputV, seg: SegmentV, t: int)
    requires
        new_cut(seg),
        shows_all(input, seg, t),
        shows_only(input, seg, t),
    ensures
        taken_out(seg, marks_of(input.not_counted, seg.active)).not_counted <==> forall|
            b: int,
            e: int,
        | #[trigger]
            shows_at(input, b, e, t) ==> never_counts(
                input.not_counted,
                input.activity[b].events[e].data,
            ),
{
    reveal(shows_all);
    reveal(shows_only);
    let rules = input.not_counted;
    let day = taken_out(seg, marks_of(rules, seg.active));
    taking_out_is_exact(seg, rules, seg.active[0]);
    if day.not_counted {
        assert forall|b: int, e: int| #[trigger] shows_at(input, b, e, t) implies never_counts(
            rules,
            input.activity[b].events[e].data,
        ) by {
            let s = choose|s: SliceV| #[trigger]
                seg.active.contains(s) && cut_from(input, s, b, e, t);
            let k = choose|k: int| 0 <= k < seg.active.len() && seg.active[k] == s;
            assert(never_counts(rules, seg.active[k].data));
        }
    } else {
        let k = choose|k: int|
            0 <= k < seg.active.len() && !never_counts(rules, (#[trigger] seg.active[k]).data);
        assert(seg.active.contains(seg.active[k]));
        let (b, e) = choose|b: int, e: int| #[trigger]
            shows_at(input, b, e, t) && cut_from(input, seg.active[k], b, e, t);
        assert(!never_counts(rules, input.activity[b].events[e].data));
    }
}

proof fn labels_are_exact(input: InputV, seg: SegmentV, t: int)
    requires
        new_cut(seg),
        shows_all(input, seg, t),
        shows_only(input, seg, t),
    ensures
        ({
            let rules = input.not_counted;
            let day = taken_out(seg, marks_of(rules, seg.active));
            forall|l: Seq<char>| #[trigger]
                day.excluded_labels.contains(l) <==> exists|b: int, e: int| #[trigger]
                    shows_at(input, b, e, t) && never_counts(
                        rules,
                        input.activity[b].events[e].data,
                    ) && label(input.activity[b].events[e].data) == l
        }),
{
    reveal(shows_all);
    reveal(shows_only);
    let rules = input.not_counted;
    let day = taken_out(seg, marks_of(rules, seg.active));
    taking_out_is_exact(seg, rules, seg.active[0]);
    assert forall|l: Seq<char>| #[trigger] day.excluded_labels.contains(l) <==> exists|
        b: int,
        e: int,
    | #[trigger]
        shows_at(input, b, e, t) && never_counts(rules, input.activity[b].events[e].data) && label(
            input.activity[b].events[e].data,
        ) == l by {
        if day.excluded_labels.contains(l) {
            let k = choose|k: int|
                0 <= k < seg.active.len() && never_counts(rules, (#[trigger] seg.active[k]).data)
                    && label(seg.active[k].data) == l;
            assert(seg.active.contains(seg.active[k]));
            let (b, e) = choose|b: int, e: int| #[trigger]
                shows_at(input, b, e, t) && cut_from(input, seg.active[k], b, e, t);
            assert(never_counts(rules, input.activity[b].events[e].data));
        }
        if exists|b: int, e: int| #[trigger]
            shows_at(input, b, e, t) && never_counts(rules, input.activity[b].events[e].data)
                && label(input.activity[b].events[e].data) == l {
            let (b, e) = choose|b: int, e: int| #[trigger]
                shows_at(input, b, e, t) && never_counts(rules, input.activity[b].events[e].data)
                    && label(input.activity[b].events[e].data) == l;
            let s = choose|s: SliceV| #[trigger]
                seg.active.contains(s) && cut_from(input, s, b, e, t);
            let k = choose|k: int| 0 <= k < seg.active.len() && seg.active[k] == s;
            assert(never_counts(rules, seg.active[k].data));
        }
    }
}

proof fn taken_out_spans(seg: SegmentV, marked: Seq<bool>)
    ensures
        taken_out(seg, marked).start == seg.start,
        taken_out(seg, marked).end == seg.end,
{
}

proof fn cut_is_fresh(ivs: Seq<IntervalV>, k: int)
    requires
        0 <= k < segmented(ivs).len(),
    ensures
        !segmented(ivs)[k].not_counted,
        segmented(ivs)[k].excluded_labels.len() == 0,
{
    let at = marks(ivs);
    let m = between_is(ivs, at, at.len() - 1, k);
}

/// A day has a segment at a moment exactly when something recorded goes on then while its device is
/// not idle. No two segments share a moment.
pub proof fn the_day_is_there_when_anything_goes_on(input: InputV, t: int)
    ensures
        (exists|i: int|
            0 <= i < computed(input).len() && (#[trigger] computed(input)[i]).start <= t
                < computed(input)[i].end) <==> exists|b: int, e: int| #[trigger]
            shows_at(input, b, e, t),
        forall|i: int, j: int|
            0 <= i < j < computed(input).len() ==> (#[trigger] computed(input)[i]).start
                < computed(input)[i].end <= (#[trigger] computed(input)[j]).start,
{
    let ivs = normalised(input);
    let cut = segmented(ivs);
    let day = computed(input);
    segments_partition_activity(ivs);
    if exists|i: int| 0 <= i < day.len() && (#[trigger] day[i]).start <= t < day[i].end {
        let i = choose|i: int| 0 <= i < day.len() && (#[trigger] day[i]).start <= t < day[i].end;
        same_after_exclusion(input, i);
        cut_shows_events(input, i, t);
        reveal(shows_only);
        assert(atomic(ivs, cut[i]));
        assert(cut[i].active.contains(cut[i].active[0]));
    }
    if exists|b: int, e: int| #[trigger] shows_at(input, b, e, t) {
        let (b, e) = choose|b: int, e: int| #[trigger] shows_at(input, b, e, t);
        what_goes_on_is_left(input, b, e, t);
        let iv = choose|iv: IntervalV| #[trigger]
            ivs.contains(iv) && iv.start <= t < iv.end && left_whole(input, iv, b, e);
        let j = choose|j: int| 0 <= j < ivs.len() && ivs[j] == iv;
        assert(ivs[j].start <= t < ivs[j].end);
        assert(in_intervals(ivs, t));
        assert(in_segments(cut, t));
        let k = choose|k: int| 0 <= k < cut.len() && (#[trigger] cut[k]).start <= t < cut[k].end;
        as_many_as_cut(input);
        same_after_exclusion(input, k);
        assert(day[k].start <= t < day[k].end);
    }
    assert forall|i: int, j: int| 0 <= i < j < day.len() implies (#[trigger] day[i]).start
        < day[i].end <= (#[trigger] day[j]).start by {
        same_after_exclusion(input, i);
        same_after_exclusion(input, j);
        assert(cut[i].end <= cut[j].start);
        assert(atomic(ivs, cut[i]));
    }
}

proof fn as_many_as_cut(input: InputV)
    ensures
        computed(input).len() == segmented(normalised(input)).len(),
{
}

/// A day is cut nowhere but where something recorded starts or ends, idle time taken out: a segment
/// starts, and ends, where the whole source of some event does.
pub proof fn the_day_is_cut_only_where_something_changes(input: InputV, i: int)
    requires
        0 <= i < computed(input).len(),
    ensures
        exists|s: SliceV, b: int, e: int| #[trigger]
            source_of(input, s, b, e) && whole_source(input, s, input.activity[b].events[e]) && (
            s.source_start == computed(input)[i].start || s.source_end == computed(input)[i].start),
        exists|s: SliceV, b: int, e: int| #[trigger]
            source_of(input, s, b, e) && whole_source(input, s, input.activity[b].events[e]) && (
            s.source_start == computed(input)[i].end || s.source_end == computed(input)[i].end),
{
    let ivs = normalised(input);
    let cut = segmented(ivs);
    same_after_exclusion(input, i);
    segments_partition_activity(ivs);
    assert(atomic(ivs, cut[i]));
    cut_shows_intervals(ivs, i, cut[i].start);
    let p = choose|p: int|
        0 <= p < ivs.len() && ((#[trigger] ivs[p]).start == cut[i].start || ivs[p].end
            == cut[i].start);
    let q = choose|q: int|
        0 <= q < ivs.len() && ((#[trigger] ivs[q]).start == cut[i].end || ivs[q].end
            == cut[i].end);
    assert(ivs.contains(ivs[p]) && ivs.contains(ivs[q]));
    what_is_left_is_whole(input, ivs[p]);
    what_is_left_is_whole(input, ivs[q]);
    let (b, e) = choose|b: int, e: int| #[trigger] left_whole(input, ivs[p], b, e);
    let (c, f) = choose|c: int, f: int| #[trigger] left_whole(input, ivs[q], c, f);
    assert(source_of(input, slice_of(ivs[p]), b, e));
    assert(source_of(input, slice_of(ivs[q]), c, f));
}

/// Every segment of a day lasts some time.
pub proof fn segments_last(input: InputV, i: int)
    requires
        0 <= i < computed(input).len(),
    ensures
        computed(input)[i].start < computed(input)[i].end,
{
    let ivs = normalised(input);
    same_after_exclusion(input, i);
    segments_partition_activity(ivs);
    assert(atomic(ivs, segmented(ivs)[i]));
}

/// A segment that has just been cut bears no mark of what the later steps do.
pub proof fn cut_is_blank(input: InputV, i: int)
    requires
        0 <= i < cut_and_excluded(input).len(),
    ensures
        ({
            let seg = cut_and_excluded(input)[i];
            &&& !seg.absorbed_short_contention
            &&& seg.foreground == usize::MAX
            &&& seg.resolved_by is None
            &&& !seg.auto_resolved
            &&& seg.label_override is None
            &&& seg.deliberate_background.len() == 0
            &&& seg.ignored == seg.not_counted
            &&& seg.foreground_shares.len() == 0
            &&& seg.bridged_ms == 0
            &&& seg.smoothed_seconds == 0
            &&& seg.absorbed_labels.len() == 0
        }),
{
    let ivs = normalised(input);
    let at = marks(ivs);
    let m = between_is(ivs, at, at.len() - 1, i);
}

/// A segment that is cut lists its slices in order, and has the labels of those taken out.
pub proof fn cut_is_arranged(input: InputV, i: int)
    requires
        0 <= i < computed(input).len(),
    ensures
        ({
            let cut = segmented(normalised(input))[i];
            let marked = marks_of(input.not_counted, cut.active);
            &&& in_order::<ActiveSlice>(cut.active)
            &&& cut.excluded_labels.len() == 0
            &&& cut_and_excluded(input)[i] == taken_out(cut, marked)
        }),
{
    let ivs = normalised(input);
    let at = marks(ivs);
    same_after_exclusion(input, i);
    let m = between_is(ivs, at, at.len() - 1, i);
    arranged_in_order::<ActiveSlice>(covering(ivs, at[m], at[m + 1], ivs.len() as int));
}

/// An activity never counts just where some rule's pattern hits one of its texts: of the fields the
/// rule names, or of any where it names none.
pub proof fn a_rule_goes_by_the_texts_it_names(rules: Seq<RuleV>, data: DataV)
    ensures
        never_counts(rules, data) <==> exists|r: int, key: Seq<char>, s: Seq<char>|
            0 <= r < rules.len() && #[trigger] hit_by(rules[r], data, key, s),
{
    if never_counts(rules, data) {
        let r = choose|r: int| 0 <= r < rules.len() && rule_matches(#[trigger] rules[r], data);
        match rules[r].select_keys {
            Some(keys) => {
                let i = choose|i: int|
                    0 <= i < keys.len() && selected_hit(
                        rules[r].pattern,
                        data,
                        #[trigger] keys[i],
                    );
                assert(hit_by(rules[r], data, keys[i], string_at(data, keys[i])->0));
            },
            None => {
                let i = choose|i: int|
                    0 <= i < data.strings.len() && hits(
                        rules[r].pattern,
                        (#[trigger] data.strings[i]).1,
                    );
                assert(data.strings[i] == (data.strings[i].0, data.strings[i].1));
                assert(hit_by(rules[r], data, data.strings[i].0, data.strings[i].1));
            },
        }
    }
    if exists|r: int, key: Seq<char>, s: Seq<char>|
        0 <= r < rules.len() && #[trigger] hit_by(rules[r], data, key, s) {
        let (r, key, s) = choose|r: int, key: Seq<char>, s: Seq<char>|
            0 <= r < rules.len() && #[trigger] hit_by(rules[r], data, key, s);
        match rules[r].select_keys {
            Some(keys) => {
                let i = choose|i: int| 0 <= i < keys.len() && keys[i] == key;
                assert(selected_hit(rules[r].pattern, data, keys[i]));
            },
            None => {
                let i = choose|i: int| 0 <= i < data.strings.len() && data.strings[i] == (key, s);
                assert(hits(rules[r].pattern, data.strings[i].1));
            },
        }
        assert(rule_matches(rules[r], data));
    }
}

/// Whether a rule hits the text `s` under `key`.
pub open spec fn hit_by(rule: RuleV, data: DataV, key: Seq<char>, s: Seq<char>) -> bool {
    &&& match rule.select_keys {
        Some(keys) => keys.contains(key) && string_at(data, key) == Some(s),
        None => data.strings.contains((key, s)),
    }
    &&& sound_pattern(rule.pattern)
    &&& regex_match(rule.pattern, s) == Some(true)
}

/// A field of an activity's data is the text that stands first under its name; there is none where
/// nothing stands under it.
pub proof fn a_field_is_the_text_under_its_name(data: DataV, key: Seq<char>)
    ensures
        match string_at(data, key) {
            Some(s) => exists|i: int|
                0 <= i < data.strings.len() && #[trigger] data.strings[i] == (key, s) && forall|
                    j: int,
                |
                    0 <= j < i ==> (#[trigger] data.strings[j]).0 != key,
            None => forall|i: int|
                0 <= i < data.strings.len() ==> (#[trigger] data.strings[i]).0 != key,
        },
{
    field_from(data.strings, key, 0);
}

proof fn field_from(strings: Seq<(Seq<char>, Seq<char>)>, key: Seq<char>, i: int)
    requires
        0 <= i,
    ensures
        match string_from(strings, key, i) {
            Some(s) => exists|k: int|
                i <= k < strings.len() && #[trigger] strings[k] == (key, s) && forall|j: int|
                    i <= j < k ==> (#[trigger] strings[j]).0 != key,
            None => forall|k: int| i <= k < strings.len() ==> (#[trigger] strings[k]).0 != key,
        },
    decreases strings.len() - i,
{
    if i < strings.len() {
        field_from(strings, key, i + 1);
        if strings[i].0 == key {
            assert(strings[i] == (key, strings[i].1));
        }
    }
}

/// An activity is called by its app, else by its title, else by its address: whichever is the first
/// that is there and not empty.
pub proof fn an_activity_is_called_by_its_first_filled_field(data: DataV)
    ensures
        ({
            let (app, title, url) = (
                string_at(data, "app"@),
                string_at(data, "title"@),
                string_at(data, "url"@),
            );
            let empty = |field: Option<Seq<char>>| field is None || field->0.len() == 0;
            &&& !empty(app) ==> label(data) == app->0
            &&& empty(app) && !empty(title) ==> label(data) == title->0
            &&& empty(app) && empty(title) && !empty(url) ==> label(data) == url->0
            &&& empty(app) && empty(title) && empty(url) ==> label(data) == "(unknown)"@
        }),
{
}

/// The data of a JSON object has a field for each of its members that is a text, and no other.
pub proof fn data_has_the_text_members(text: Seq<char>, key: Seq<char>, s: Seq<char>)
    ensures
        match document(text) {
            Some(d) => match d.value {
                Json::Object(members) => data_from(text) matches Some(data) && data.text
                    == d.compact@ && (data.strings.contains((key, s)) <==> exists|i: int|
                    0 <= i < members@.len() && (#[trigger] members@[i]).key@ == key && text_of(
                        members@[i].value,
                    ) == Some(s)),
                _ => data_from(text) is None,
            },
            None => data_from(text) is None,
        },
{
    if let Some(d) = document(text) {
        if let Json::Object(members) = d.value {
            text_members_hold(members@, members@.len() as int, key, s);
        }
    }
}

proof fn text_members_hold(members: Seq<Member>, n: int, key: Seq<char>, s: Seq<char>)
    requires
        0 <= n <= members.len(),
    ensures
        string_members(members, n).contains((key, s)) <==> exists|i: int|
            0 <= i < n && (#[trigger] members[i]).key@ == key && text_of(members[i].value) == Some(
                s,
            ),
    decreases n,
{
    if n > 0 {
        text_members_hold(members, n - 1, key, s);
        let rest = string_members(members, n - 1);
        let all = string_members(members, n);
        if all.contains((key, s)) {
            let k = choose|k: int| 0 <= k < all.len() && all[k] == (key, s);
            if k < rest.len() {
                assert(rest[k] == (key, s));
                assert(rest.contains((key, s)));
            } else {
                assert(members[n - 1].key@ == key);
            }
        }
        if rest.contains((key, s)) {
            let k = choose|k: int| 0 <= k < rest.len() && rest[k] == (key, s);
            assert(all[k] == (key, s));
        }
        if members[n - 1].key@ == key && text_of(members[n - 1].value) == Some(s) {
            assert(all[rest.len() as int] == (key, s));
        }
    }
}

/// Whether `tag` is the origin tag of one of the events.
pub open spec fn carries(events: Seq<EventV>, tag: Seq<char>) -> bool {
    exists|i: int|
        0 <= i < events.len() && string_at((#[trigger] events[i]).data, "$aw.origin.device"@)
            == Some(tag)
}

proof fn tags_hold(events: Seq<EventV>, n: int)
    requires
        0 <= n <= events.len(),
    ensures
        match lowest_tag(events, n) {
            Some(tag) => carries(events.take(n), tag) && forall|other: Seq<char>| #[trigger]
                carries(events.take(n), other) ==> !text::before(other, tag),
            None => forall|tag: Seq<char>| !#[trigger] carries(events.take(n), tag),
        },
    decreases n,
{
    if n > 0 {
        tags_hold(events, n - 1);
        let before = events.take(n - 1);
        let now = events.take(n);
        let own = string_at(events[n - 1].data, EVENT_ORIGIN_KEY@);
        assert forall|tag: Seq<char>| #[trigger] carries(now, tag) <==> carries(before, tag)
            || own == Some(tag) by {
            if carries(now, tag) {
                let i = choose|i: int|
                    0 <= i < now.len() && string_at(
                        (#[trigger] now[i]).data,
                        "$aw.origin.device"@,
                    ) == Some(tag);
                if i < n - 1 {
                    assert(before[i] == now[i]);
                }
            }
            if carries(before, tag) {
                let i = choose|i: int|
                    0 <= i < before.len() && string_at(
                        (#[trigger] before[i]).data,
                        "$aw.origin.device"@,
                    ) == Some(tag);
                assert(now[i] == before[i]);
            }
            assert(now[n - 1] == events[n - 1]);
        }
        if let Some(tag) = own {
            assert forall|other: Seq<char>| #[trigger] carries(now, other) implies !text::before(
                other,
                lowest_tag(events, n)->0,
            ) by {
                if let Some(low) = lowest_tag(events, n - 1) {
                    text::before_is_total_order(tag, low, other);
                    text::before_is_total_order(other, tag, low);
                    text::before_is_total_order(low, tag, tag);
                } else {
                    text::before_is_total_order(tag, tag, tag);
                }
            }
        }
    }
}

/// A bucket is of the device whose tag its events carry, the lowest where they carry several; of the
/// device that its id names behind the first marker, by the uuid that is known for the name, or by
/// the name itself; and of the own device where it has neither tag nor marker.
pub proof fn a_bucket_is_of_the_device_it_names(
    events: Seq<EventV>,
    bucket_id: Seq<char>,
    own: Seq<char>,
    hosts: Map<Seq<char>, Seq<char>>,
    at: int,
)
    ensures
        ({
            let device = bucket_device(events, bucket_id, own, hosts);
            let marker = "-synced-from-"@;
            let tagged = exists|tag: Seq<char>| #[trigger] carries(events, tag);
            &&& tagged ==> carries(events, device) && forall|other: Seq<char>| #[trigger]
                carries(events, other) ==> !text::before(other, device)
            &&& !tagged && first_marker(bucket_id, marker, at) ==> {
                let peer = bucket_id.skip(at + marker.len());
                device == if hosts.contains_key(peer) {
                    hosts[peer]
                } else {
                    peer
                }
            }
            &&& !tagged && (forall|i: int| !#[trigger] marked_at(bucket_id, marker, i)) ==> device
                == own
        }),
{
    let n = events.len() as int;
    let marker = SYNCED_FROM@;
    tags_hold(events, n);
    assert(events.take(n) =~= events);
    text::find_from_sound(bucket_id, marker, 0);
    assert forall|i: int| #[trigger] marked_at(bucket_id, marker, i) <==> text::occurs_at(
        bucket_id,
        marker,
        i,
    ) by {}
    if let Some(k) = text::first_occurrence(bucket_id, marker) {
        assert(marked_at(bucket_id, marker, k));
    }
    if first_marker(bucket_id, marker, at) {
        assert(marked_at(bucket_id, marker, at));
        let found = text::first_occurrence(bucket_id, marker)->0;
        assert(marked_at(bucket_id, marker, found));
        assert(bucket_id.skip(at + marker.len()) =~= bucket_id.subrange(
            at + marker.len(),
            bucket_id.len() as int,
        ));
    }
}

/// Whether a marker stands at `i`.
pub open spec fn marked_at(s: Seq<char>, marker: Seq<char>, i: int) -> bool {
    0 <= i && i + marker.len() <= s.len() && s.subrange(i, i + marker.len()) == marker
}

/// Whether the first marker stands at `i`.
pub open spec fn first_marker(s: Seq<char>, marker: Seq<char>, i: int) -> bool {
    marked_at(s, marker, i) && forall|j: int| #[trigger] marked_at(s, marker, j) ==> i <= j
}

} // verus!
