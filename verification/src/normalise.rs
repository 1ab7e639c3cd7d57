//! Resolve each event's origin device, take idle time out, drop empty intervals, and list what is
//! left in one reproducible order.

use vstd::prelude::*;

use crate::list;
use crate::model::{
    data_before, data_before_is_weak_order, events_end, string_at, BucketEvents, BucketV, Data, DataV, Event, EventV, InputV,
    PipelineInput, EVENT_ORIGIN_KEY,
};
use crate::order::{arranged, arranged_contains, sort, Sortable};
use crate::text;
use crate::time::{in_range, Instant, Span, SpanV};

verus! {

/// What stands before the peer's name in the id of an imported bucket.
pub const SYNCED_FROM: &'static str = "-synced-from-";

/// A single device activity.
#[derive(Debug)]
pub struct Interval {
    pub start: Instant,
    pub end: Instant,
    pub device: String,
    pub bucket_id: String,
    pub data: Data,
}

#[verifier::ext_equal]
pub struct IntervalV {
    pub start: int,
    pub end: int,
    pub device: Seq<char>,
    pub bucket_id: Seq<char>,
    pub data: DataV,
}

impl DeepView for Interval {
    type V = IntervalV;

    open spec fn deep_view(&self) -> IntervalV {
        IntervalV {
            start: self.start@,
            end: self.end@,
            device: self.device@,
            bucket_id: self.bucket_id@,
            data: self.data.deep_view(),
        }
    }
}

/// By start, then end, then device, then bucket, then data: the order separates any two different
/// intervals.
impl Sortable for Interval {
    open spec fn precedes(a: IntervalV, b: IntervalV) -> bool {
        a.start < b.start || (a.start == b.start && (a.end < b.end || (a.end == b.end && (
        text::before(a.device, b.device) || (a.device == b.device && (text::before(
            a.bucket_id,
            b.bucket_id,
        ) || (a.bucket_id == b.bucket_id && data_before(a.data, b.data))))))))
    }

    proof fn weak_order(a: IntervalV, b: IntervalV, c: IntervalV) {
        text::before_is_weak_order(a.device, b.device, c.device);
        text::before_is_weak_order(a.bucket_id, b.bucket_id, c.bucket_id);
        data_before_is_weak_order(a.data, b.data, c.data);
    }

    fn sorts_before(&self, other: &Self) -> (r: bool) {
        if self.start != other.start {
            self.start.earlier_than(other.start)
        } else if self.end != other.end {
            self.end.earlier_than(other.end)
        } else {
            text::is_before(self.device.as_str(), other.device.as_str()) || (self.device
                == other.device && (text::is_before(
                self.bucket_id.as_str(),
                other.bucket_id.as_str(),
            ) || (self.bucket_id == other.bucket_id && self.data.is_before(&other.data))))
        }
    }
}

/// The peer an imported bucket was synced from: what follows the first marker in its id.
pub open spec fn peer_in(bucket_id: Seq<char>) -> Option<Seq<char>> {
    match text::first_occurrence(bucket_id, SYNCED_FROM@) {
        Some(i) => Some(bucket_id.subrange(i + SYNCED_FROM@.len(), bucket_id.len() as int)),
        None => None,
    }
}

/// The device of events that carry no tag: the peer the bucket names, by its UUID where that is
/// known, and this device where the bucket names none.
pub open spec fn untagged_device(
    bucket_id: Seq<char>,
    own: Seq<char>,
    hosts: Map<Seq<char>, Seq<char>>,
) -> Seq<char> {
    match peer_in(bucket_id) {
        Some(peer) => if hosts.contains_key(peer) {
            hosts[peer]
        } else {
            peer
        },
        None => own,
    }
}

/// The device of one event on its own.
pub open spec fn event_device(
    event: EventV,
    bucket_id: Seq<char>,
    own: Seq<char>,
    hosts: Map<Seq<char>, Seq<char>>,
) -> Seq<char> {
    match string_at(event.data, EVENT_ORIGIN_KEY@) {
        Some(uuid) => uuid,
        None => untagged_device(bucket_id, own, hosts),
    }
}

/// The lowest origin tag among the first `n` events. It does not depend on the order they are
/// listed in.
pub open spec fn lowest_tag(events: Seq<EventV>, n: int) -> Option<Seq<char>>
    decreases n,
{
    if n <= 0 {
        None
    } else {
        let held = lowest_tag(events, n - 1);
        match (string_at(events[n - 1].data, EVENT_ORIGIN_KEY@), held) {
            (Some(tag), Some(low)) => if text::before(tag, low) {
                Some(tag)
            } else {
                Some(low)
            },
            (Some(tag), None) => Some(tag),
            (None, _) => held,
        }
    }
}

/// The device a whole bucket belongs to.
pub open spec fn bucket_device(
    events: Seq<EventV>,
    bucket_id: Seq<char>,
    own: Seq<char>,
    hosts: Map<Seq<char>, Seq<char>>,
) -> Seq<char> {
    match lowest_tag(events, events.len() as int) {
        Some(uuid) => uuid,
        None => untagged_device(bucket_id, own, hosts),
    }
}

/// The peer an imported bucket was synced from. The name follows the first marker in the id.
pub fn synced_from_hostname(bucket_id: &str) -> (r: Option<String>)
    ensures
        r.deep_view() == peer_in(bucket_id@),
{
    match text::find(bucket_id, SYNCED_FROM) {
        Some(i) => {
            let whole: usize = bucket_id.unicode_len();
            let from: usize = i + SYNCED_FROM.unicode_len();
            Some(text::part(bucket_id, from, whole))
        },
        None => None,
    }
}

fn resolve_untagged(bucket_id: &str, input: &PipelineInput) -> (r: String)
    ensures
        r@ == untagged_device(
            bucket_id@,
            input.deep_view().own_device,
            input.deep_view().hostname_to_uuid,
        ),
{
    match synced_from_hostname(bucket_id) {
        Some(peer) => match input.hostname_to_uuid.get(peer.as_str()) {
            Some(uuid) => uuid.clone(),
            None => peer,
        },
        None => input.own_device.clone(),
    }
}

/// The origin device of one event. Never fails, never drops the event:
///
/// 1. the event's own origin tag, where it is a text;
/// 2. else the peer its bucket was synced from, as a UUID where the hostname is known and verbatim
///    where it is not;
/// 3. else this device.
pub fn resolve_device(event: &Event, bucket_id: &str, input: &PipelineInput) -> (r: String)
    ensures
        r@ == event_device(
            event.deep_view(),
            bucket_id@,
            input.deep_view().own_device,
            input.deep_view().hostname_to_uuid,
        ),
{
    match event.data.get(EVENT_ORIGIN_KEY) {
        Some(uuid) => uuid.clone(),
        None => resolve_untagged(bucket_id, input),
    }
}

/// The origin device of a bucket. One tagged event settles all of them: a bucket holds one
/// device's events, and those imported before tagging began carry no tag of their own. Should two
/// tags differ, the lowest counts, so that the order of the events does not.
pub fn resolve_bucket_device(events: &Vec<Event>, bucket_id: &str, input: &PipelineInput) -> (r:
    String)
    ensures
        r@ == bucket_device(
            events.deep_view(),
            bucket_id@,
            input.deep_view().own_device,
            input.deep_view().hostname_to_uuid,
        ),
{
    let ghost ev = events.deep_view();
    assert(ev.len() == events.len());
    let mut lowest: Option<&String> = None;
    let mut i: usize = 0;
    while i < events.len()
        invariant
            i <= events.len(),
            ev == events.deep_view(),
            ev.len() == events.len(),
            match lowest {
                Some(tag) => lowest_tag(ev, i as int) == Some(tag@),
                None => lowest_tag(ev, i as int) is None,
            },
        decreases events.len() - i,
    {
        assert(ev[i as int] == events@[i as int].deep_view());
        match events[i].data.get(EVENT_ORIGIN_KEY) {
            Some(tag) => {
                let lower: bool = match lowest {
                    Some(low) => text::is_before(tag.as_str(), low.as_str()),
                    None => true,
                };
                if lower {
                    lowest = Some(tag);
                }
            },
            None => {},
        }
        i = i + 1;
    }
    match lowest {
        Some(tag) => tag.clone(),
        None => resolve_untagged(bucket_id, input),
    }
}

/// The interval one event covers on `device`.
pub open spec fn interval_of(event: EventV, device: Seq<char>, bucket_id: Seq<char>) -> IntervalV {
    IntervalV {
        start: event.timestamp,
        end: event.timestamp + event.duration,
        device,
        bucket_id,
        data: event.data,
    }
}

/// The intervals of the first `n` events of a bucket. An event that lasts no time has none.
pub open spec fn bucket_intervals(bucket: BucketV, device: Seq<char>, n: int) -> Seq<IntervalV>
    decreases n,
{
    if n <= 0 {
        Seq::empty()
    } else {
        let rest = bucket_intervals(bucket, device, n - 1);
        if bucket.events[n - 1].duration > 0 {
            rest.push(interval_of(bucket.events[n - 1], device, bucket.bucket_id))
        } else {
            rest
        }
    }
}

/// The intervals of the first `n` buckets.
pub open spec fn intervals_of(
    buckets: Seq<BucketV>,
    own: Seq<char>,
    hosts: Map<Seq<char>, Seq<char>>,
    n: int,
) -> Seq<IntervalV>
    decreases n,
{
    if n <= 0 {
        Seq::empty()
    } else {
        let b = buckets[n - 1];
        intervals_of(buckets, own, hosts, n - 1) + bucket_intervals(
            b,
            bucket_device(b.events, b.bucket_id, own, hosts),
            b.events.len() as int,
        )
    }
}

/// Flatten buckets to intervals, dropping what ends no later than it starts.
fn to_intervals(buckets: &Vec<BucketEvents>, input: &PipelineInput) -> (r: Vec<Interval>)
    requires
        events_end(buckets.deep_view()),
    ensures
        r.deep_view() == intervals_of(
            buckets.deep_view(),
            input.deep_view().own_device,
            input.deep_view().hostname_to_uuid,
            buckets.len() as int,
        ),
{
    let ghost bs = buckets.deep_view();
    let ghost own = input.deep_view().own_device;
    let ghost hosts = input.deep_view().hostname_to_uuid;
    let mut out: Vec<Interval> = Vec::new();
    assert(out.deep_view() =~= Seq::empty());
    let mut b: usize = 0;
    while b < buckets.len()
        invariant
            b <= buckets.len(),
            bs == buckets.deep_view(),
            own == input.deep_view().own_device,
            hosts == input.deep_view().hostname_to_uuid,
            events_end(bs),
            out.deep_view() == intervals_of(bs, own, hosts, b as int),
        decreases buckets.len() - b,
    {
        let bucket = &buckets[b];
        assert(bs[b as int] == bucket.deep_view());
        let device = resolve_bucket_device(&bucket.events, bucket.bucket_id.as_str(), input);
        let ghost done = out.deep_view();
        let mut e: usize = 0;
        assert(out.deep_view() =~= done + bucket_intervals(bs[b as int], device@, 0));
        while e < bucket.events.len()
            invariant
                e <= bucket.events.len(),
                b < buckets.len(),
                bs == buckets.deep_view(),
                bs[b as int] == bucket.deep_view(),
                events_end(bs),
                out.deep_view() == done + bucket_intervals(bs[b as int], device@, e as int),
            decreases bucket.events.len() - e,
        {
            let event = &bucket.events[e];
            assert(bs[b as int].events[e as int] == event.deep_view());
            assert(in_range(bs[b as int].events[e as int].timestamp + bs[b as int].events[e as int].duration));
            let ghost so_far = bucket_intervals(bs[b as int], device@, e as int);
            if event.duration.nanos > 0 {
                match event.timestamp.plus(event.duration) {
                    Some(end) => {
                        list::push(
                            &mut out,
                            Interval {
                                start: event.timestamp,
                                end,
                                device: device.clone(),
                                bucket_id: bucket.bucket_id.clone(),
                                data: event.data.clone(),
                            },
                        );
                        assert(out.deep_view() =~= done + so_far.push(
                            interval_of(event.deep_view(), device@, bucket.bucket_id@),
                        ));
                    },
                    None => {
                        assert(false);
                    },
                }
            }
            e = e + 1;
        }
        b = b + 1;
    }
    out
}

/// What is left of the piece `p` without the hole `h`.
pub open spec fn cut(p: SpanV, h: SpanV) -> Seq<SpanV> {
    if h.end <= p.start || h.start >= p.end {
        seq![p]
    } else {
        (if h.start > p.start {
            seq![SpanV { start: p.start, end: h.start }]
        } else {
            Seq::empty()
        }) + (if h.end < p.end {
            seq![SpanV { start: h.end, end: p.end }]
        } else {
            Seq::empty()
        })
    }
}

/// What is left of the first `n` pieces without the hole `h`.
pub open spec fn cut_all(pieces: Seq<SpanV>, h: SpanV, n: int) -> Seq<SpanV>
    decreases n,
{
    if n <= 0 {
        Seq::empty()
    } else {
        cut_all(pieces, h, n - 1) + cut(pieces[n - 1], h)
    }
}

/// What is left of the span `p` without the first `n` holes.
pub open spec fn carve(p: SpanV, holes: Seq<SpanV>, n: int) -> Seq<SpanV>
    decreases n,
{
    if n <= 0 {
        seq![p]
    } else {
        let pieces = carve(p, holes, n - 1);
        cut_all(pieces, holes[n - 1], pieces.len() as int)
    }
}

/// An interval narrowed to the span `p`.
pub open spec fn narrowed(iv: IntervalV, p: SpanV) -> IntervalV {
    IntervalV { start: p.start, end: p.end, ..iv }
}

/// The first `n` pieces that last any time, as intervals like `iv`.
pub open spec fn pieces_of(iv: IntervalV, pieces: Seq<SpanV>, n: int) -> Seq<IntervalV>
    decreases n,
{
    if n <= 0 {
        Seq::empty()
    } else {
        let rest = pieces_of(iv, pieces, n - 1);
        if pieces[n - 1].end > pieces[n - 1].start {
            rest.push(narrowed(iv, pieces[n - 1]))
        } else {
            rest
        }
    }
}

/// An interval without its holes.
pub open spec fn without(iv: IntervalV, holes: Seq<SpanV>) -> Seq<IntervalV> {
    let pieces = carve(
        SpanV { start: iv.start, end: iv.end },
        holes,
        holes.len() as int,
    );
    pieces_of(iv, pieces, pieces.len() as int)
}

/// Take idle `holes` out of one interval. A hole inside splits it in two.
fn subtract(iv: &Interval, holes: &Vec<Span>) -> (r: Vec<Interval>)
    ensures
        r.deep_view() == without(iv.deep_view(), holes.deep_view()),
{
    let ghost span = SpanV { start: iv.start@, end: iv.end@ };
    let ghost hs = holes.deep_view();
    let mut pieces: Vec<Span> = Vec::new();
    pieces.push(Span { start: iv.start, end: iv.end });
    assert(pieces.deep_view() =~= seq![span]);
    let mut h: usize = 0;
    while h < holes.len()
        invariant
            h <= holes.len(),
            hs == holes.deep_view(),
            pieces.deep_view() == carve(span, hs, h as int),
        decreases holes.len() - h,
    {
        let hole = holes[h];
        assert(hs[h as int] == hole.deep_view());
        let ghost ps = pieces.deep_view();
        let mut next: Vec<Span> = Vec::new();
        assert(next.deep_view() =~= Seq::empty());
        let mut i: usize = 0;
        while i < pieces.len()
            invariant
                i <= pieces.len(),
                ps == pieces.deep_view(),
                next.deep_view() == cut_all(ps, hole.deep_view(), i as int),
            decreases pieces.len() - i,
        {
            let p = pieces[i];
            assert(ps[i as int] == p.deep_view());
            let ghost so_far = next.deep_view();
            let ghost c = cut(p.deep_view(), hole.deep_view());
            if !p.start.earlier_than(hole.end) || !hole.start.earlier_than(p.end) {
                list::push(&mut next, p);
                assert(next.deep_view() =~= so_far + c);
            } else {
                if p.start.earlier_than(hole.start) {
                    list::push(&mut next, Span { start: p.start, end: hole.start });
                }
                if hole.end.earlier_than(p.end) {
                    list::push(&mut next, Span { start: hole.end, end: p.end });
                }
                assert(next.deep_view() =~= so_far + c);
            }
            i = i + 1;
        }
        pieces = next;
        h = h + 1;
    }
    let ghost ps = pieces.deep_view();
    let mut out: Vec<Interval> = Vec::new();
    assert(out.deep_view() =~= Seq::empty());
    let mut i: usize = 0;
    while i < pieces.len()
        invariant
            i <= pieces.len(),
            ps == pieces.deep_view(),
            out.deep_view() == pieces_of(iv.deep_view(), ps, i as int),
        decreases pieces.len() - i,
    {
        let p = pieces[i];
        assert(ps[i as int] == p.deep_view());
        if p.start.earlier_than(p.end) {
            list::push(
                &mut out,
                Interval {
                    start: p.start,
                    end: p.end,
                    device: iv.device.clone(),
                    bucket_id: iv.bucket_id.clone(),
                    data: iv.data.clone(),
                },
            );
        }
        i = i + 1;
    }
    out
}

/// The spans of those among the first `n` intervals that are on `device`.
pub open spec fn spans_on(ivs: Seq<IntervalV>, device: Seq<char>, n: int) -> Seq<SpanV>
    decreases n,
{
    if n <= 0 {
        Seq::empty()
    } else if ivs[n - 1].device == device {
        spans_on(ivs, device, n - 1).push(SpanV { start: ivs[n - 1].start, end: ivs[n - 1].end })
    } else {
        spans_on(ivs, device, n - 1)
    }
}

/// The first `n` activity intervals, each without the idle time of its own device.
pub open spec fn busy(activity: Seq<IntervalV>, idle: Seq<IntervalV>, n: int) -> Seq<IntervalV>
    decreases n,
{
    if n <= 0 {
        Seq::empty()
    } else {
        let iv = activity[n - 1];
        busy(activity, idle, n - 1) + without(iv, spans_on(idle, iv.device, idle.len() as int))
    }
}

/// The activity intervals of an input.
pub open spec fn activity_of(input: InputV) -> Seq<IntervalV> {
    intervals_of(
        input.activity,
        input.own_device,
        input.hostname_to_uuid,
        input.activity.len() as int,
    )
}

/// The idle intervals of an input.
pub open spec fn idle_of(input: InputV) -> Seq<IntervalV> {
    intervals_of(
        input.idle,
        input.own_device,
        input.hostname_to_uuid,
        input.idle.len() as int,
    )
}

/// The activity intervals of an input without idle time, sorted.
pub open spec fn normalised(input: InputV) -> Seq<IntervalV> {
    arranged::<Interval>(
        busy(activity_of(input), idle_of(input), activity_of(input).len() as int),
    )
}

/// The intervals of the whole input, sorted by start, end, device and bucket.
pub fn normalise(input: &PipelineInput) -> (r: Vec<Interval>)
    requires
        events_end(input.deep_view().activity),
        events_end(input.deep_view().idle),
    ensures
        r.deep_view() == normalised(input.deep_view()),
{
    let activity = to_intervals(&input.activity, input);
    let idle = to_intervals(&input.idle, input);
    let ghost av = activity.deep_view();
    let ghost dv = idle.deep_view();
    assert(input.activity.deep_view().len() == input.activity.len());
    assert(input.idle.deep_view().len() == input.idle.len());
    assert(av.len() == activity.len());
    let mut result: Vec<Interval> = Vec::new();
    assert(result.deep_view() =~= Seq::empty());
    let mut i: usize = 0;
    while i < activity.len()
        invariant
            i <= activity.len(),
            av == activity.deep_view(),
            dv == idle.deep_view(),
            result.deep_view() == busy(av, dv, i as int),
        decreases activity.len() - i,
    {
        let iv = &activity[i];
        assert(av[i as int] == iv.deep_view());
        let mut holes: Vec<Span> = Vec::new();
        assert(holes.deep_view() =~= Seq::empty());
        let mut k: usize = 0;
        while k < idle.len()
            invariant
                k <= idle.len(),
                dv == idle.deep_view(),
                holes.deep_view() == spans_on(dv, iv.device@, k as int),
            decreases idle.len() - k,
        {
            assert(dv[k as int] == idle@[k as int].deep_view());
            if idle[k].device == iv.device {
                list::push(&mut holes, Span { start: idle[k].start, end: idle[k].end });
            }
            k = k + 1;
        }
        assert(dv.len() == idle.len());
        let mut pieces = subtract(iv, &holes);
        let ghost before = result.deep_view();
        let ghost more = pieces.deep_view();
        result.append(&mut pieces);
        assert(result.deep_view() =~= before + more);
        i = i + 1;
    }
    sort(&mut result);
    result
}

/// Whether `t` falls inside one of the spans.
pub open spec fn in_spans(ps: Seq<SpanV>, t: int) -> bool {
    exists|k: int| 0 <= k < ps.len() && (#[trigger] ps[k]).start <= t < ps[k].end
}

/// Spans that last some time each, ascend, and do not touch.
pub open spec fn apart(ps: Seq<SpanV>) -> bool {
    &&& forall|k: int| 0 <= k < ps.len() ==> (#[trigger] ps[k]).start < ps[k].end
    &&& forall|k: int, l: int|
        0 <= k < l < ps.len() ==> (#[trigger] ps[k]).end < (#[trigger] ps[l]).start
}

/// Every hole lasts some time.
pub open spec fn lasting(holes: Seq<SpanV>) -> bool {
    forall|k: int| 0 <= k < holes.len() ==> (#[trigger] holes[k]).start < holes[k].end
}

proof fn in_spans_concat(a: Seq<SpanV>, b: Seq<SpanV>, t: int)
    ensures
        in_spans(a + b, t) <==> in_spans(a, t) || in_spans(b, t),
{
    let c = a + b;
    if in_spans(c, t) {
        let k = choose|k: int| 0 <= k < c.len() && (#[trigger] c[k]).start <= t < c[k].end;
        if k < a.len() {
            assert(a[k] == c[k]);
        } else {
            assert(b[k - a.len()] == c[k]);
        }
    }
    if in_spans(a, t) {
        let k = choose|k: int| 0 <= k < a.len() && (#[trigger] a[k]).start <= t < a[k].end;
        assert(c[k] == a[k]);
    }
    if in_spans(b, t) {
        let k = choose|k: int| 0 <= k < b.len() && (#[trigger] b[k]).start <= t < b[k].end;
        assert(c[k + a.len()] == b[k]);
    }
}

proof fn cut_sound(p: SpanV, h: SpanV)
    requires
        p.start < p.end,
        h.start < h.end,
    ensures
        apart(cut(p, h)),
        forall|k: int| 0 <= k < cut(p, h).len() ==> p.start <= (#[trigger] cut(p, h)[k]).start && cut(p, h)[k].end <= p.end,
        forall|t: int| #[trigger] in_spans(cut(p, h), t) <==> p.start <= t < p.end && !(h.start <= t < h.end),
{
    let c = cut(p, h);
    assert forall|t: int| #[trigger] in_spans(c, t) <==> p.start <= t < p.end && !(h.start <= t
        < h.end) by {
        if p.start <= t < p.end && !(h.start <= t < h.end) {
            if h.end <= p.start || h.start >= p.end {
                assert(c[0] == p);
            } else if t < h.start {
                assert(c[0] == SpanV { start: p.start, end: h.start });
            } else {
                assert(c[c.len() - 1] == SpanV { start: h.end, end: p.end });
            }
        }
    }
}

proof fn cut_all_sound(pieces: Seq<SpanV>, h: SpanV, n: int)
    requires
        apart(pieces),
        h.start < h.end,
        0 <= n <= pieces.len(),
    ensures
        apart(cut_all(pieces, h, n)),
        forall|k: int| 0 <= k < cut_all(pieces, h, n).len() ==> n > 0 && (#[trigger] cut_all(pieces, h, n)[k]).end <= pieces[n - 1].end,
        forall|t: int| #[trigger] in_spans(cut_all(pieces, h, n), t) <==> in_spans(pieces.take(n), t) && !(h.start <= t < h.end),
    decreases n,
{
    if n > 0 {
        cut_all_sound(pieces, h, n - 1);
        let p = pieces[n - 1];
        cut_sound(p, h);
        let rest = cut_all(pieces, h, n - 1);
        let c = cut(p, h);
        let all = cut_all(pieces, h, n);
        assert(all == rest + c);
        assert forall|k: int, l: int| 0 <= k < l < all.len() implies (#[trigger] all[k]).end < (
        #[trigger] all[l]).start by {
            if l < rest.len() {
                assert(all[k] == rest[k] && all[l] == rest[l]);
            } else if k >= rest.len() {
                assert(all[k] == c[k - rest.len()] && all[l] == c[l - rest.len()]);
            } else {
                assert(all[k] == rest[k] && all[l] == c[l - rest.len()]);
                assert(n - 1 > 0);
                assert(pieces[n - 2].end < pieces[n - 1].start);
            }
        }
        assert forall|k: int| 0 <= k < all.len() implies (#[trigger] all[k]).start < all[k].end && all[k].end <= p.end by {
            if k < rest.len() {
                assert(all[k] == rest[k]);
                assert(pieces[n - 2].end < pieces[n - 1].start);
            } else {
                assert(all[k] == c[k - rest.len()]);
            }
        }
        assert(pieces.take(n) =~= pieces.take(n - 1) + seq![p]);
        assert forall|t: int| #[trigger] in_spans(all, t) <==> in_spans(pieces.take(n), t) && !(
        h.start <= t < h.end) by {
            in_spans_concat(rest, c, t);
            in_spans_concat(pieces.take(n - 1), seq![p], t);
            assert(in_spans(seq![p], t) <==> p.start <= t < p.end) by {
                if p.start <= t < p.end {
                    assert(seq![p][0] == p);
                }
            }
        }
    }
}

/// What is left of a span without its holes: ascending pieces that do not touch, and exactly the
/// time that is in the span and in no hole.
pub proof fn carving_is_exact(p: SpanV, holes: Seq<SpanV>, n: int)
    requires
        p.start < p.end,
        lasting(holes),
        0 <= n <= holes.len(),
    ensures
        apart(carve(p, holes, n)),
        forall|t: int| #[trigger]
            in_spans(carve(p, holes, n), t) <==> p.start <= t < p.end && !in_spans(
                holes.take(n),
                t,
            ),
    decreases n,
{
    if n <= 0 {
        assert forall|t: int| #[trigger] in_spans(carve(p, holes, n), t) <==> p.start <= t < p.end
            && !in_spans(holes.take(n), t) by {
            if p.start <= t < p.end {
                assert(seq![p][0] == p);
            }
        }
    } else {
        carving_is_exact(p, holes, n - 1);
        let pieces = carve(p, holes, n - 1);
        let h = holes[n - 1];
        cut_all_sound(pieces, h, pieces.len() as int);
        assert(pieces.take(pieces.len() as int) =~= pieces);
        assert(holes.take(n) =~= holes.take(n - 1) + seq![h]);
        assert forall|t: int| #[trigger] in_spans(carve(p, holes, n), t) <==> p.start <= t < p.end
            && !in_spans(holes.take(n), t) by {
            in_spans_concat(holes.take(n - 1), seq![h], t);
            assert(in_spans(seq![h], t) <==> h.start <= t < h.end) by {
                if h.start <= t < h.end {
                    assert(seq![h][0] == h);
                }
            }
            assert(in_spans(pieces, t) <==> p.start <= t < p.end && !in_spans(
                holes.take(n - 1),
                t,
            ));
        }
    }
}

/// Spans that ascend and do not touch are determined by the time they cover.
pub proof fn apart_is_unique(a: Seq<SpanV>, b: Seq<SpanV>)
    requires
        apart(a),
        apart(b),
        forall|t: int| #[trigger] in_spans(a, t) <==> in_spans(b, t),
    ensures
        a == b,
    decreases a.len(),
{
    if a.len() == 0 {
        if b.len() > 0 {
            assert(b[0].start <= b[0].start < b[0].end);
            assert(in_spans(b, b[0].start));
            assert(in_spans(a, b[0].start));
        }
        assert(a =~= b);
    } else {
        assert(a[0].start < a[0].end);
        assert(in_spans(a, a[0].start));
        let x = a.last();
        assert(b.len() > 0);
        let y = b.last();
        apart_last(a, b);
        apart_last(b, a);
        let c = a.drop_last();
        let d = b.drop_last();
        assert forall|t: int| #[trigger] in_spans(c, t) <==> in_spans(d, t) by {
            apart_init(a, t);
            apart_init(b, t);
            assert(in_spans(a, t) <==> in_spans(b, t));
        }
        apart_is_unique(c, d);
        assert(a =~= c.push(x));
        assert(b =~= d.push(y));
    }
}

/// What the spans but the last cover.
proof fn apart_init(a: Seq<SpanV>, t: int)
    requires
        apart(a),
        a.len() > 0,
    ensures
        in_spans(a.drop_last(), t) <==> in_spans(a, t) && t < a.last().start,
{
    let c = a.drop_last();
    if in_spans(c, t) {
        let k = choose|k: int| 0 <= k < c.len() && (#[trigger] c[k]).start <= t < c[k].end;
        assert(a[k] == c[k]);
        assert(a[k].end < a[a.len() - 1].start);
    }
    if in_spans(a, t) && t < a.last().start {
        let k = choose|k: int| 0 <= k < a.len() && (#[trigger] a[k]).start <= t < a[k].end;
        assert(k < a.len() - 1);
        assert(c[k] == a[k]);
    }
}

proof fn apart_last(a: Seq<SpanV>, b: Seq<SpanV>)
    requires
        apart(a),
        apart(b),
        a.len() > 0,
        b.len() > 0,
        forall|t: int| #[trigger] in_spans(a, t) <==> in_spans(b, t),
    ensures
        a.last().end <= b.last().end,
        a.last().end == b.last().end ==> b.last().start <= a.last().start,
{
    let x = a[a.len() - 1];
    let y = b[b.len() - 1];
    let t = x.end - 1;
    assert(x.start <= t < x.end);
    assert(in_spans(a, t));
    assert(in_spans(b, t));
    let k = choose|k: int| 0 <= k < b.len() && (#[trigger] b[k]).start <= t < b[k].end;
    if k < b.len() - 1 {
        assert(b[k].end < b[b.len() - 1].start);
    }
    if x.end == y.end && x.start < y.start {
        let u = y.start - 1;
        assert(x.start <= u < x.end);
        assert(in_spans(a, u));
        assert(in_spans(b, u));
        let j = choose|j: int| 0 <= j < b.len() && (#[trigger] b[j]).start <= u < b[j].end;
        if j < b.len() - 1 {
            assert(b[j].end < b[b.len() - 1].start);
        }
    }
}

/// The pieces of an interval, where every span lasts.
proof fn pieces_of_all(iv: IntervalV, pieces: Seq<SpanV>, n: int)
    requires
        lasting(pieces),
        0 <= n <= pieces.len(),
    ensures
        pieces_of(iv, pieces, n) == Seq::new(n as nat, |k: int| narrowed(iv, pieces[k])),
    decreases n,
{
    if n > 0 {
        pieces_of_all(iv, pieces, n - 1);
        assert(pieces[n - 1].start < pieces[n - 1].end);
        assert(pieces_of(iv, pieces, n) =~= Seq::new(n as nat, |k: int| narrowed(iv, pieces[k])));
    } else {
        assert(pieces_of(iv, pieces, n) =~= Seq::new(n as nat, |k: int| narrowed(iv, pieces[k])));
    }
}

/// What is left of an interval depends only on the time its holes cover, not on how the holes are
/// listed.
pub proof fn without_ignores_order(iv: IntervalV, a: Seq<SpanV>, b: Seq<SpanV>)
    requires
        iv.start < iv.end,
        lasting(a),
        lasting(b),
        forall|t: int| #[trigger] in_spans(a, t) <==> in_spans(b, t),
    ensures
        without(iv, a) == without(iv, b),
{
    let p = SpanV { start: iv.start, end: iv.end };
    carving_is_exact(p, a, a.len() as int);
    carving_is_exact(p, b, b.len() as int);
    assert(a.take(a.len() as int) =~= a);
    assert(b.take(b.len() as int) =~= b);
    let x = carve(p, a, a.len() as int);
    let y = carve(p, b, b.len() as int);
    assert forall|t: int| #[trigger] in_spans(x, t) <==> in_spans(y, t) by {
        assert(in_spans(a, t) <==> in_spans(b, t));
    }
    apart_is_unique(x, y);
}

/// Whether `t` falls inside an interval on `device`.
pub open spec fn on_device(ivs: Seq<IntervalV>, device: Seq<char>, t: int) -> bool {
    exists|i: int|
        0 <= i < ivs.len() && (#[trigger] ivs[i]).device == device && ivs[i].start <= t < ivs[i].end
}

/// Every interval lasts some time.
pub open spec fn all_last(ivs: Seq<IntervalV>) -> bool {
    forall|i: int| 0 <= i < ivs.len() ==> (#[trigger] ivs[i]).start < ivs[i].end
}

proof fn bucket_intervals_last(bucket: BucketV, device: Seq<char>, n: int)
    requires
        0 <= n <= bucket.events.len(),
    ensures
        all_last(bucket_intervals(bucket, device, n)),
    decreases n,
{
    if n > 0 {
        bucket_intervals_last(bucket, device, n - 1);
    }
}

pub proof fn intervals_last(
    buckets: Seq<BucketV>,
    own: Seq<char>,
    hosts: Map<Seq<char>, Seq<char>>,
    n: int,
)
    requires
        0 <= n <= buckets.len(),
    ensures
        all_last(intervals_of(buckets, own, hosts, n)),
    decreases n,
{
    if n > 0 {
        intervals_last(buckets, own, hosts, n - 1);
        let b = buckets[n - 1];
        let device = bucket_device(b.events, b.bucket_id, own, hosts);
        bucket_intervals_last(b, device, b.events.len() as int);
        let rest = intervals_of(buckets, own, hosts, n - 1);
        let more = bucket_intervals(b, device, b.events.len() as int);
        let all = intervals_of(buckets, own, hosts, n);
        assert forall|i: int| 0 <= i < all.len() implies (#[trigger] all[i]).start < all[i].end by {
            if i < rest.len() {
                assert(all[i] == rest[i]);
            } else {
                assert(all[i] == more[i - rest.len()]);
            }
        }
    }
}

/// The idle time of one device.
pub proof fn spans_on_sound(ivs: Seq<IntervalV>, device: Seq<char>, n: int)
    requires
        0 <= n <= ivs.len(),
        all_last(ivs),
    ensures
        lasting(spans_on(ivs, device, n)),
        forall|t: int| #[trigger] in_spans(spans_on(ivs, device, n), t) <==> on_device(ivs.take(n), device, t),
    decreases n,
{
    if n > 0 {
        spans_on_sound(ivs, device, n - 1);
        let iv = ivs[n - 1];
        let rest = spans_on(ivs, device, n - 1);
        let all = spans_on(ivs, device, n);
        let s = SpanV { start: iv.start, end: iv.end };
        assert(ivs.take(n) =~= ivs.take(n - 1).push(iv));
        assert forall|t: int| #[trigger] in_spans(all, t) <==> on_device(ivs.take(n), device, t) by {
            assert(in_spans(rest, t) <==> on_device(ivs.take(n - 1), device, t));
            assert(on_device(ivs.take(n), device, t) <==> on_device(ivs.take(n - 1), device, t) || (
            iv.device == device && iv.start <= t < iv.end)) by {
                on_device_push(ivs.take(n - 1), iv, device, t);
            }
            if iv.device == device {
                assert(all == rest + seq![s]) by {
                    assert(rest.push(s) =~= rest + seq![s]);
                }
                in_spans_concat(rest, seq![s], t);
                if iv.start <= t < iv.end {
                    assert(seq![s][0] == s);
                }
            }
        }
    }
}

proof fn on_device_push(ivs: Seq<IntervalV>, iv: IntervalV, device: Seq<char>, t: int)
    ensures
        on_device(ivs.push(iv), device, t) <==> on_device(ivs, device, t) || (iv.device == device
            && iv.start <= t < iv.end),
{
    let all = ivs.push(iv);
    if on_device(ivs, device, t) {
        let i = choose|i: int|
            0 <= i < ivs.len() && (#[trigger] ivs[i]).device == device && ivs[i].start <= t
                < ivs[i].end;
        assert(all[i] == ivs[i]);
    }
    if iv.device == device && iv.start <= t < iv.end {
        assert(all[ivs.len() as int] == iv);
    }
    if on_device(all, device, t) {
        let i = choose|i: int|
            0 <= i < all.len() && (#[trigger] all[i]).device == device && all[i].start <= t
                < all[i].end;
        if i < ivs.len() {
            assert(ivs[i] == all[i]);
        }
    }
}

/// The pieces of one interval cover the time it covers without its holes, on its own device.
proof fn without_sound(iv: IntervalV, holes: Seq<SpanV>)
    requires
        iv.start < iv.end,
        lasting(holes),
    ensures
        all_last(without(iv, holes)),
        forall|k: int| 0 <= k < without(iv, holes).len() ==> (#[trigger] without(iv, holes)[k]).device == iv.device,
        forall|t: int| #[trigger]
            on_device(without(iv, holes), iv.device, t) <==> iv.start <= t < iv.end && !in_spans(
                holes,
                t,
            ),
{
    let p = SpanV { start: iv.start, end: iv.end };
    let pieces = carve(p, holes, holes.len() as int);
    carving_is_exact(p, holes, holes.len() as int);
    assert(holes.take(holes.len() as int) =~= holes);
    pieces_of_all(iv, pieces, pieces.len() as int);
    let out = without(iv, holes);
    assert forall|t: int| #[trigger] on_device(out, iv.device, t) <==> iv.start <= t < iv.end
        && !in_spans(holes, t) by {
        assert(in_spans(pieces, t) <==> iv.start <= t < iv.end && !in_spans(holes, t));
        if in_spans(pieces, t) {
            let k = choose|k: int|
                0 <= k < pieces.len() && (#[trigger] pieces[k]).start <= t < pieces[k].end;
            assert(out[k].device == iv.device && out[k].start <= t < out[k].end);
        }
        if on_device(out, iv.device, t) {
            let k = choose|k: int|
                0 <= k < out.len() && (#[trigger] out[k]).device == iv.device && out[k].start <= t
                    < out[k].end;
            assert(pieces[k].start <= t < pieces[k].end);
        }
    }
}

proof fn busy_sound(activity: Seq<IntervalV>, idle: Seq<IntervalV>, n: int)
    requires
        0 <= n <= activity.len(),
        all_last(activity),
        all_last(idle),
    ensures
        all_last(busy(activity, idle, n)),
        forall|device: Seq<char>, t: int| #[trigger]
            on_device(busy(activity, idle, n), device, t) <==> on_device(
                activity.take(n),
                device,
                t,
            ) && !on_device(idle, device, t),
    decreases n,
{
    if n > 0 {
        busy_sound(activity, idle, n - 1);
        let iv = activity[n - 1];
        let holes = spans_on(idle, iv.device, idle.len() as int);
        spans_on_sound(idle, iv.device, idle.len() as int);
        assert(idle.take(idle.len() as int) =~= idle);
        without_sound(iv, holes);
        let rest = busy(activity, idle, n - 1);
        let more = without(iv, holes);
        let all = busy(activity, idle, n);
        assert(activity.take(n) =~= activity.take(n - 1).push(iv));
        assert forall|i: int| 0 <= i < all.len() implies (#[trigger] all[i]).start < all[i].end by {
            if i < rest.len() {
                assert(all[i] == rest[i]);
            } else {
                assert(all[i] == more[i - rest.len()]);
            }
        }
        assert forall|device: Seq<char>, t: int| #[trigger] on_device(all, device, t) <==> on_device(
            activity.take(n),
            device,
            t,
        ) && !on_device(idle, device, t) by {
            on_device_push(activity.take(n - 1), iv, device, t);
            on_device_concat(rest, more, device, t);
            assert(on_device(rest, device, t) <==> on_device(activity.take(n - 1), device, t)
                && !on_device(idle, device, t));
            if device == iv.device {
                assert(on_device(more, iv.device, t) <==> iv.start <= t < iv.end && !in_spans(
                    holes,
                    t,
                ));
                assert(in_spans(holes, t) <==> on_device(idle, device, t));
            } else {
                assert(!on_device(more, device, t));
            }
        }
    } else {
        assert(activity.take(n) =~= Seq::empty());
    }
}

proof fn on_device_concat(a: Seq<IntervalV>, b: Seq<IntervalV>, device: Seq<char>, t: int)
    ensures
        on_device(a + b, device, t) <==> on_device(a, device, t) || on_device(b, device, t),
{
    let c = a + b;
    if on_device(c, device, t) {
        let k = choose|k: int|
            0 <= k < c.len() && (#[trigger] c[k]).device == device && c[k].start <= t < c[k].end;
        if k < a.len() {
            assert(a[k] == c[k]);
        } else {
            assert(b[k - a.len()] == c[k]);
        }
    }
    if on_device(a, device, t) {
        let k = choose|k: int|
            0 <= k < a.len() && (#[trigger] a[k]).device == device && a[k].start <= t < a[k].end;
        assert(c[k] == a[k]);
    }
    if on_device(b, device, t) {
        let k = choose|k: int|
            0 <= k < b.len() && (#[trigger] b[k]).device == device && b[k].start <= t < b[k].end;
        assert(c[k + a.len()] == b[k]);
    }
}

/// A device is active exactly when one of its activity events covers the moment and none of its
/// own idle periods does. Another device's idle time takes nothing away.
pub proof fn idle_time_is_taken_out(input: InputV)
    ensures
        all_last(normalised(input)),
        forall|device: Seq<char>, t: int| #[trigger]
            on_device(normalised(input), device, t) <==> on_device(activity_of(input), device, t)
                && !on_device(idle_of(input), device, t),
{
    let activity = activity_of(input);
    let idle = idle_of(input);
    intervals_last(
        input.activity,
        input.own_device,
        input.hostname_to_uuid,
        input.activity.len() as int,
    );
    intervals_last(input.idle, input.own_device, input.hostname_to_uuid, input.idle.len() as int);
    busy_sound(activity, idle, activity.len() as int);
    let b = busy(activity, idle, activity.len() as int);
    let s = normalised(input);
    assert(activity.take(activity.len() as int) =~= activity);
    assert forall|i: int| 0 <= i < s.len() implies (#[trigger] s[i]).start < s[i].end by {
        arranged_contains::<Interval>(b, s[i]);
        assert(s.contains(s[i]));
        let j = choose|j: int| 0 <= j < b.len() && b[j] == s[i];
        assert(b[j].start < b[j].end);
    }
    assert forall|device: Seq<char>, t: int| #[trigger] on_device(s, device, t) <==> on_device(
        activity,
        device,
        t,
    ) && !on_device(idle, device, t) by {
        if on_device(s, device, t) {
            let i = choose|i: int|
                0 <= i < s.len() && (#[trigger] s[i]).device == device && s[i].start <= t < s[i].end;
            arranged_contains::<Interval>(b, s[i]);
            assert(s.contains(s[i]));
            let j = choose|j: int| 0 <= j < b.len() && b[j] == s[i];
            assert(b[j].device == device);
            assert(on_device(b, device, t));
        }
        if on_device(b, device, t) {
            let i = choose|i: int|
                0 <= i < b.len() && (#[trigger] b[i]).device == device && b[i].start <= t < b[i].end;
            arranged_contains::<Interval>(b, b[i]);
            assert(b.contains(b[i]));
            let j = choose|j: int| 0 <= j < s.len() && s[j] == b[i];
            assert(s[j].device == device);
        }
        assert(on_device(b, device, t) <==> on_device(activity, device, t) && !on_device(
            idle,
            device,
            t,
        ));
    }
}

} // verus!
