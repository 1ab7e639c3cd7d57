//! The pipeline depends on what was recorded, not on the order it is listed in.

use vstd::prelude::*;

use crate::apply::{decisions_apply_in_any_order, distinct_ids};
use crate::classify::classified;
use crate::decision::DecisionV;
use crate::list::{flat, flat_permutes, flat_prefix};
use crate::model::{
    data_before_is_total_order, roles_of, string_at, BucketV, EventV, InputV, EVENT_ORIGIN_KEY,
};
use crate::normalise::{
    activity_of, bucket_device, bucket_intervals, busy, idle_of, in_spans, interval_of,
    intervals_last, intervals_of, lowest_tag, normalised, on_device, spans_on, spans_on_sound,
    without, without_ignores_order, Interval, IntervalV,
};
use crate::order::{arranged_unique, separates, Sortable};
use crate::pipeline::{computed, cut_and_excluded};
use crate::text;

verus! {

/// The same bucket with its events in another order.
pub open spec fn same_events(a: BucketV, b: BucketV) -> bool {
    a.bucket_id == b.bucket_id && a.events.to_multiset() == b.events.to_multiset()
}

/// The same buckets in another order, each with its events in another order. `between` is the
/// first list in the order of the second.
pub open spec fn same_buckets(a: Seq<BucketV>, between: Seq<BucketV>, b: Seq<BucketV>) -> bool {
    &&& a.to_multiset() == between.to_multiset()
    &&& between.len() == b.len()
    &&& forall|i: int| 0 <= i < b.len() ==> same_events(#[trigger] between[i], b[i])
}

/// The same decisions in another order, some of them perhaps repeated. No two different ones share
/// an id.
pub open spec fn same_decisions(a: Seq<DecisionV>, b: Seq<DecisionV>) -> bool {
    &&& forall|d: DecisionV| #[trigger] a.contains(d) <==> b.contains(d)
    &&& distinct_ids(a)
}

/// What one event contributes.
spec fn event_piece(device: Seq<char>, bucket_id: Seq<char>) -> spec_fn(EventV) -> Seq<IntervalV> {
    |e: EventV|
        if e.duration > 0 {
            seq![interval_of(e, device, bucket_id)]
        } else {
            Seq::empty()
        }
}

/// What one bucket contributes.
spec fn bucket_piece(own: Seq<char>, hosts: Map<Seq<char>, Seq<char>>) -> spec_fn(BucketV) -> Seq<
    IntervalV,
> {
    |b: BucketV|
        bucket_intervals(
            b,
            bucket_device(b.events, b.bucket_id, own, hosts),
            b.events.len() as int,
        )
}

/// What one activity interval contributes.
spec fn busy_piece(idle: Seq<IntervalV>) -> spec_fn(IntervalV) -> Seq<IntervalV> {
    |iv: IntervalV| without(iv, spans_on(idle, iv.device, idle.len() as int))
}

proof fn bucket_intervals_flat(bucket: BucketV, device: Seq<char>, n: int)
    requires
        0 <= n <= bucket.events.len(),
    ensures
        bucket_intervals(bucket, device, n) == flat(
            bucket.events,
            event_piece(device, bucket.bucket_id),
            n,
        ),
    decreases n,
{
    if n > 0 {
        bucket_intervals_flat(bucket, device, n - 1);
        assert(bucket_intervals(bucket, device, n) =~= flat(
            bucket.events,
            event_piece(device, bucket.bucket_id),
            n,
        ));
    }
}

proof fn intervals_flat(
    buckets: Seq<BucketV>,
    own: Seq<char>,
    hosts: Map<Seq<char>, Seq<char>>,
    n: int,
)
    requires
        0 <= n <= buckets.len(),
    ensures
        intervals_of(buckets, own, hosts, n) == flat(buckets, bucket_piece(own, hosts), n),
    decreases n,
{
    if n > 0 {
        intervals_flat(buckets, own, hosts, n - 1);
    }
}

proof fn busy_flat(activity: Seq<IntervalV>, idle: Seq<IntervalV>, n: int)
    requires
        0 <= n <= activity.len(),
    ensures
        busy(activity, idle, n) == flat(activity, busy_piece(idle), n),
    decreases n,
{
    if n > 0 {
        busy_flat(activity, idle, n - 1);
    }
}

/// Whether `tag` is the tag of one of the events.
spec fn tagged_with(events: Seq<EventV>, tag: Seq<char>) -> bool {
    exists|e: EventV| #[trigger]
        events.contains(e) && string_at(e.data, EVENT_ORIGIN_KEY@) == Some(tag)
}

/// The lowest tag is the tag of one of the events, and none of them has a lower one; where there is
/// none, no event has one.
proof fn lowest_tag_sound(events: Seq<EventV>, n: int)
    requires
        0 <= n <= events.len(),
    ensures
        match lowest_tag(events, n) {
            Some(low) => tagged_with(events, low) && forall|j: int, tag: Seq<char>|
                0 <= j < n && #[trigger] string_at(events[j].data, EVENT_ORIGIN_KEY@) == Some(tag)
                    ==> !(#[trigger] text::before(tag, low)),
            None => forall|j: int|
                0 <= j < n ==> string_at((#[trigger] events[j]).data, EVENT_ORIGIN_KEY@) is None,
        },
    decreases n,
{
    if n > 0 {
        lowest_tag_sound(events, n - 1);
        assert(events.contains(events[n - 1]));
        let here = string_at(events[n - 1].data, EVENT_ORIGIN_KEY@);
        if let Some(low) = lowest_tag(events, n) {
            if here == Some(low) {
                assert(tagged_with(events, low));
            }
            assert forall|j: int, tag: Seq<char>|
                0 <= j < n && #[trigger] string_at(events[j].data, EVENT_ORIGIN_KEY@) == Some(
                    tag,
                ) implies !(#[trigger] text::before(tag, low)) by {
                text::before_is_total_order(low, low, low);
                if let Some(held) = lowest_tag(events, n - 1) {
                    text::before_is_total_order(tag, low, held);
                    if j < n - 1 {
                        assert(!text::before(tag, held));
                    }
                }
            }
        }
    }
}

/// Two orders of the same events settle on the same tag.
proof fn same_tag(a: Seq<EventV>, b: Seq<EventV>)
    requires
        a.to_multiset() == b.to_multiset(),
    ensures
        lowest_tag(a, a.len() as int) == lowest_tag(b, b.len() as int),
{
    broadcast use vstd::seq_lib::group_to_multiset_ensures;

    assert forall|e: EventV| a.contains(e) <==> b.contains(e) by {
        assert(a.contains(e) == (a.to_multiset().count(e) > 0));
        assert(b.contains(e) == (b.to_multiset().count(e) > 0));
    }
    let x = lowest_tag(a, a.len() as int);
    let y = lowest_tag(b, b.len() as int);
    if let Some(u) = x {
        tag_is_no_lower(a, b, u);
    }
    if let Some(v) = y {
        tag_is_no_lower(b, a, v);
    }
    if x is Some && y is Some {
        text::before_is_total_order(x->0, y->0, y->0);
    }
}

/// A tag that is the lowest of one list is not lower than the lowest of another that holds the same
/// events.
proof fn tag_is_no_lower(a: Seq<EventV>, b: Seq<EventV>, u: Seq<char>)
    requires
        forall|e: EventV| #[trigger] a.contains(e) ==> b.contains(e),
        lowest_tag(a, a.len() as int) == Some(u),
    ensures
        lowest_tag(b, b.len() as int) matches Some(v) && !text::before(u, v),
{
    lowest_tag_sound(a, a.len() as int);
    lowest_tag_sound(b, b.len() as int);
    let e = choose|e: EventV| #[trigger]
        a.contains(e) && string_at(e.data, EVENT_ORIGIN_KEY@) == Some(u);
    assert(b.contains(e));
    let j = choose|j: int| 0 <= j < b.len() && b[j] == e;
    assert(string_at(b[j].data, EVENT_ORIGIN_KEY@) == Some(u));
}

/// What two lists of buckets contribute is the same where each bucket of one has the events of its
/// counterpart.
proof fn pairwise_same(
    a: Seq<BucketV>,
    b: Seq<BucketV>,
    own: Seq<char>,
    hosts: Map<Seq<char>, Seq<char>>,
    n: int,
)
    requires
        a.len() == b.len(),
        0 <= n <= a.len(),
        forall|i: int| 0 <= i < b.len() ==> same_events(#[trigger] a[i], b[i]),
    ensures
        flat(a, bucket_piece(own, hosts), n).to_multiset() == flat(
            b,
            bucket_piece(own, hosts),
            n,
        ).to_multiset(),
    decreases n,
{
    if n > 0 {
        pairwise_same(a, b, own, hosts, n - 1);
        let x = a[n - 1];
        let y = b[n - 1];
        assert(same_events(a[n - 1], b[n - 1]));
        same_tag(x.events, y.events);
        let device = bucket_device(x.events, x.bucket_id, own, hosts);
        assert(device == bucket_device(y.events, y.bucket_id, own, hosts));
        let f = event_piece(device, x.bucket_id);
        bucket_intervals_flat(x, device, x.events.len() as int);
        bucket_intervals_flat(y, device, y.events.len() as int);
        flat_permutes(x.events, y.events, f);
        let p = bucket_piece(own, hosts);
        vstd::seq_lib::lemma_multiset_commutative(flat(a, p, n - 1), p(x));
        vstd::seq_lib::lemma_multiset_commutative(flat(b, p, n - 1), p(y));
    }
}

/// Reordered buckets contribute the same intervals.
proof fn same_intervals(
    a: Seq<BucketV>,
    between: Seq<BucketV>,
    b: Seq<BucketV>,
    own: Seq<char>,
    hosts: Map<Seq<char>, Seq<char>>,
)
    requires
        same_buckets(a, between, b),
    ensures
        intervals_of(a, own, hosts, a.len() as int).to_multiset() == intervals_of(
            b,
            own,
            hosts,
            b.len() as int,
        ).to_multiset(),
{
    intervals_flat(a, own, hosts, a.len() as int);
    intervals_flat(b, own, hosts, b.len() as int);
    flat_permutes(a, between, bucket_piece(own, hosts));
    pairwise_same(between, b, own, hosts, b.len() as int);
}

proof fn on_device_permutes(
    a: Seq<IntervalV>,
    b: Seq<IntervalV>,
    device: Seq<char>,
    t: int,
)
    requires
        a.to_multiset() == b.to_multiset(),
    ensures
        on_device(a, device, t) ==> on_device(b, device, t),
{
    broadcast use vstd::seq_lib::group_to_multiset_ensures;

    if on_device(a, device, t) {
        let i = choose|i: int|
            0 <= i < a.len() && (#[trigger] a[i]).device == device && a[i].start <= t < a[i].end;
        assert(a.contains(a[i]));
        assert(a.to_multiset().count(a[i]) > 0);
        assert(b.contains(a[i]));
        let j = choose|j: int| 0 <= j < b.len() && b[j] == a[i];
        assert(b[j].device == device);
    }
}

/// The intervals left without idle time are the same, in whatever order activity and idle are
/// listed.
proof fn same_busy(
    a: Seq<IntervalV>,
    b: Seq<IntervalV>,
    idle_a: Seq<IntervalV>,
    idle_b: Seq<IntervalV>,
)
    requires
        a.to_multiset() == b.to_multiset(),
        idle_a.to_multiset() == idle_b.to_multiset(),
        crate::normalise::all_last(b),
        crate::normalise::all_last(idle_a),
        crate::normalise::all_last(idle_b),
    ensures
        busy(a, idle_a, a.len() as int).to_multiset() == busy(
            b,
            idle_b,
            b.len() as int,
        ).to_multiset(),
{
    busy_flat(a, idle_a, a.len() as int);
    busy_flat(b, idle_b, b.len() as int);
    flat_permutes(a, b, busy_piece(idle_a));
    assert forall|i: int| 0 <= i < b.len() implies busy_piece(idle_a)(#[trigger] b[i])
        == busy_piece(idle_b)(b[i]) by {
        let iv = b[i];
        let x = spans_on(idle_a, iv.device, idle_a.len() as int);
        let y = spans_on(idle_b, iv.device, idle_b.len() as int);
        spans_on_sound(idle_a, iv.device, idle_a.len() as int);
        spans_on_sound(idle_b, iv.device, idle_b.len() as int);
        assert(idle_a.take(idle_a.len() as int) =~= idle_a);
        assert(idle_b.take(idle_b.len() as int) =~= idle_b);
        assert forall|t: int| #[trigger] in_spans(x, t) <==> in_spans(y, t) by {
            on_device_permutes(idle_a, idle_b, iv.device, t);
            on_device_permutes(idle_b, idle_a, iv.device, t);
            assert(in_spans(x, t) <==> on_device(idle_a, iv.device, t));
            assert(in_spans(y, t) <==> on_device(idle_b, iv.device, t));
        }
        without_ignores_order(iv, x, y);
    }
    flat_prefix(b, b, busy_piece(idle_a), busy_piece(idle_b), b.len() as int);
}

/// The order of intervals separates any two different ones.
proof fn intervals_are_separated(s: Seq<IntervalV>)
    ensures
        separates::<Interval>(s),
{
    assert forall|x: IntervalV, y: IntervalV|
        !<Interval as Sortable>::precedes(x, y) && !<Interval as Sortable>::precedes(
            y,
            x,
        ) implies x == y by {
        text::before_is_total_order(x.device, y.device, y.device);
        text::before_is_total_order(x.bucket_id, y.bucket_id, y.bucket_id);
        data_before_is_total_order(x.data, y.data, y.data);
        assert(x =~= y);
    }
}

/// The same events, listed in any order of buckets and of events, give the same segments: every
/// device that holds the same data computes the same day. The decisions may come in another order
/// too, as long as an id is one decision's own.
pub proof fn the_day_does_not_depend_on_order(
    a: InputV,
    b: InputV,
    activity: Seq<BucketV>,
    idle: Seq<BucketV>,
)
    requires
        a.own_device == b.own_device,
        a.hostname_to_uuid == b.hostname_to_uuid,
        a.min_contention == b.min_contention,
        a.not_counted == b.not_counted,
        same_buckets(a.activity, activity, b.activity),
        same_buckets(a.idle, idle, b.idle),
        a.decisions == b.decisions || same_decisions(a.decisions, b.decisions),
    ensures
        computed(a) == computed(b),
{
    let own = a.own_device;
    let hosts = a.hostname_to_uuid;
    same_intervals(a.activity, activity, b.activity, own, hosts);
    same_intervals(a.idle, idle, b.idle, own, hosts);
    intervals_last(b.activity, own, hosts, b.activity.len() as int);
    intervals_last(a.idle, own, hosts, a.idle.len() as int);
    intervals_last(b.idle, own, hosts, b.idle.len() as int);
    same_busy(activity_of(a), activity_of(b), idle_of(a), idle_of(b));
    intervals_are_separated(busy(activity_of(a), idle_of(a), activity_of(a).len() as int));
    arranged_unique::<Interval>(
        busy(activity_of(a), idle_of(a), activity_of(a).len() as int),
        busy(activity_of(b), idle_of(b), activity_of(b).len() as int),
    );
    assert(normalised(a) == normalised(b));
    assert(cut_and_excluded(a) == cut_and_excluded(b));
    if a.decisions != b.decisions {
        decisions_apply_in_any_order(
            classified(cut_and_excluded(a), a.min_contention),
            a.decisions,
            b.decisions,
            roles_of(hosts),
        );
    }
}

} // verus!
