//! The raw rows of each device: what it recorded, before anything is subtracted or merged.

use vstd::prelude::*;

use crate::list;
use crate::model::{
    activity_label, events_end, label, roles_of, BucketV, Event, EventV, InputV, PipelineInput,
};
use crate::normalise::{bucket_device, resolve_bucket_device};
use crate::order::{arranged, sort, Sortable};
use crate::text;
use crate::textmap::TextMap;
use crate::time::{in_range, whole_seconds, written};

verus! {

/// One event on a device's track. The times are RFC 3339.
#[derive(Debug)]
pub struct TrackRow {
    pub start: String,
    pub end: String,
    pub seconds: i64,
    pub label: String,
}

#[verifier::ext_equal]
pub struct TrackRowV {
    pub start: Seq<char>,
    pub end: Seq<char>,
    pub seconds: int,
    pub label: Seq<char>,
}

impl DeepView for TrackRow {
    type V = TrackRowV;

    open spec fn deep_view(&self) -> TrackRowV {
        TrackRowV {
            start: self.start@,
            end: self.end@,
            seconds: self.seconds as int,
            label: self.label@,
        }
    }
}

/// By the text of the start.
impl Sortable for TrackRow {
    open spec fn precedes(a: TrackRowV, b: TrackRowV) -> bool {
        text::before(a.start, b.start)
    }

    proof fn weak_order(a: TrackRowV, b: TrackRowV, c: TrackRowV) {
        text::before_is_weak_order(a.start, b.start, c.start);
    }

    fn sorts_before(&self, other: &Self) -> (r: bool) {
        text::is_before(self.start.as_str(), other.start.as_str())
    }
}

/// One device's track.
#[derive(Debug)]
pub struct DeviceTrack {
    pub device: String,
    /// The name the device goes by, where one is known.
    pub hostname: Option<String>,
    pub is_own: bool,
    pub total_seconds: i64,
    pub events: Vec<TrackRow>,
}

#[verifier::ext_equal]
pub struct DeviceTrackV {
    pub device: Seq<char>,
    pub hostname: Option<Seq<char>>,
    pub is_own: bool,
    pub total_seconds: int,
    pub events: Seq<TrackRowV>,
}

impl DeepView for DeviceTrack {
    type V = DeviceTrackV;

    open spec fn deep_view(&self) -> DeviceTrackV {
        DeviceTrackV {
            device: self.device@,
            hostname: self.hostname.deep_view(),
            is_own: self.is_own,
            total_seconds: self.total_seconds as int,
            events: self.events.deep_view(),
        }
    }
}

/// The row of one event.
pub open spec fn row_of(e: EventV) -> TrackRowV {
    TrackRowV {
        start: written(e.timestamp),
        end: written(e.timestamp + e.duration),
        seconds: whole_seconds(e.duration),
        label: label(e.data),
    }
}

/// The rows of the first `n` events. An event shorter than a second would draw nothing.
pub open spec fn rows_of(events: Seq<EventV>, n: int) -> Seq<TrackRowV>
    decreases n,
{
    if n <= 0 {
        Seq::empty()
    } else if whole_seconds(events[n - 1].duration) > 0 {
        rows_of(events, n - 1).push(row_of(events[n - 1]))
    } else {
        rows_of(events, n - 1)
    }
}

/// The device of a bucket.
pub open spec fn home(b: BucketV, own: Seq<char>, hosts: Map<Seq<char>, Seq<char>>) -> Seq<char> {
    bucket_device(b.events, b.bucket_id, own, hosts)
}

/// The rows of those among the first `n` buckets that belong to `device`.
pub open spec fn rows_on(
    buckets: Seq<BucketV>,
    own: Seq<char>,
    hosts: Map<Seq<char>, Seq<char>>,
    device: Seq<char>,
    n: int,
) -> Seq<TrackRowV>
    decreases n,
{
    if n <= 0 {
        Seq::empty()
    } else {
        let rest = rows_on(buckets, own, hosts, device, n - 1);
        let b = buckets[n - 1];
        if home(b, own, hosts) == device {
            rest + rows_of(b.events, b.events.len() as int)
        } else {
            rest
        }
    }
}

/// The devices of the first `n` buckets that have any row, each once.
pub open spec fn devices_seen(
    buckets: Seq<BucketV>,
    own: Seq<char>,
    hosts: Map<Seq<char>, Seq<char>>,
    n: int,
) -> Seq<Seq<char>>
    decreases n,
{
    if n <= 0 {
        Seq::empty()
    } else {
        let rest = devices_seen(buckets, own, hosts, n - 1);
        let b = buckets[n - 1];
        let device = home(b, own, hosts);
        if rows_of(b.events, b.events.len() as int).len() > 0 && !rest.contains(device) {
            rest.push(device)
        } else {
            rest
        }
    }
}

pub open spec fn row_seconds() -> spec_fn(TrackRowV) -> int {
    |r: TrackRowV| r.seconds
}

/// The track of one device.
pub open spec fn track_of(input: InputV, device: Seq<char>) -> DeviceTrackV {
    let rows = rows_on(
        input.activity,
        input.own_device,
        input.hostname_to_uuid,
        device,
        input.activity.len() as int,
    );
    let names = roles_of(input.hostname_to_uuid);
    DeviceTrackV {
        device,
        hostname: if names.contains_key(device) {
            Some(names[device])
        } else {
            None
        },
        is_own: device == input.own_device,
        total_seconds: list::total(rows, row_seconds()),
        events: arranged::<TrackRow>(rows),
    }
}

/// The tracks of every device that has any row, by device.
pub open spec fn tracks_of(input: InputV) -> Seq<DeviceTrackV> {
    let devices = arranged::<String>(
        devices_seen(
            input.activity,
            input.own_device,
            input.hostname_to_uuid,
            input.activity.len() as int,
        ),
    );
    Seq::new(devices.len(), |i: int| track_of(input, devices[i]))
}

/// Every device's total is a number `i64` holds.
pub open spec fn totals_fit(tracks: Seq<DeviceTrackV>) -> bool {
    forall|i: int| 0 <= i < tracks.len() ==> (#[trigger] tracks[i]).total_seconds <= i64::MAX
}

/// Append the rows of one bucket's events, and add up their seconds. `None` where the sum is more
/// than `i64` holds.
fn add_rows(rows: &mut Vec<TrackRow>, total: i64, events: &Vec<Event>) -> (r: Option<i64>)
    requires
        0 <= total,
        forall|k: int|
            0 <= k < events.len() ==> in_range(
                (#[trigger] events.deep_view()[k]).timestamp + events.deep_view()[k].duration,
            ),
    ensures
        match r {
            Some(t) => final(rows).deep_view() == old(rows).deep_view() + rows_of(
                events.deep_view(),
                events.len() as int,
            ) && t == total + list::total(
                rows_of(events.deep_view(), events.len() as int),
                row_seconds(),
            ),
            None => total + list::total(
                rows_of(events.deep_view(), events.len() as int),
                row_seconds(),
            ) > i64::MAX,
        },
{
    let ghost ev = events.deep_view();
    let ghost before = rows.deep_view();
    assert(ev.len() == events.len());
    assert(before + rows_of(ev, 0) =~= before);
    let mut sum: i64 = total;
    let mut i: usize = 0;
    while i < events.len()
        invariant
            i <= events.len(),
            ev == events.deep_view(),
            ev.len() == events.len(),
            0 <= total <= sum,
            forall|k: int|
                0 <= k < events.len() ==> in_range(
                    (#[trigger] events.deep_view()[k]).timestamp + events.deep_view()[k].duration,
                ),
            rows.deep_view() == before + rows_of(ev, i as int),
            sum == total + list::total(rows_of(ev, i as int), row_seconds()),
        decreases events.len() - i,
    {
        let event = &events[i];
        assert(ev[i as int] == event.deep_view());
        assert(in_range(events.deep_view()[i as int].timestamp + events.deep_view()[i as int].duration));
        let _ = event.timestamp.nanos();
        let seconds = event.duration.num_seconds();
        if seconds > 0 {
            proof {
                list::total_push(rows_of(ev, i as int), row_seconds(), row_of(ev[i as int]));
                assert(row_seconds()(row_of(ev[i as int])) == seconds);
            }
            match event.timestamp.plus(event.duration) {
                Some(end) => {
                    let ghost now = rows.deep_view();
                    list::push(
                        rows,
                        TrackRow {
                            start: event.timestamp.to_rfc3339(),
                            end: end.to_rfc3339(),
                            seconds,
                            label: activity_label(&event.data),
                        },
                    );
                    assert(rows.deep_view() =~= before + rows_of(ev, i + 1));
                },
                None => {
                    assert(false);
                },
            }
            match sum.checked_add(seconds) {
                Some(s) => {
                    sum = s;
                },
                None => {
                    proof {
                        rows_grow(ev, i + 1, ev.len() as int);
                    }
                    return None;
                },
            }
        }
        i = i + 1;
    }
    Some(sum)
}

proof fn rows_grow(events: Seq<EventV>, i: int, n: int)
    requires
        0 <= i <= n <= events.len(),
    ensures
        0 <= list::total(rows_of(events, i), row_seconds()) <= list::total(
            rows_of(events, n),
            row_seconds(),
        ),
    decreases n,
{
    if n > 0 {
        if i < n {
            rows_grow(events, i, n - 1);
        } else {
            rows_grow(events, n - 1, n - 1);
        }
        if whole_seconds(events[n - 1].duration) > 0 {
            list::total_push(rows_of(events, n - 1), row_seconds(), row_of(events[n - 1]));
            assert(row_seconds()(row_of(events[n - 1])) > 0);
        }
    }
}

proof fn rows_on_grow(
    buckets: Seq<BucketV>,
    own: Seq<char>,
    hosts: Map<Seq<char>, Seq<char>>,
    device: Seq<char>,
    i: int,
    n: int,
)
    requires
        0 <= i <= n <= buckets.len(),
    ensures
        0 <= list::total(rows_on(buckets, own, hosts, device, i), row_seconds()) <= list::total(
            rows_on(buckets, own, hosts, device, n),
            row_seconds(),
        ),
    decreases n,
{
    if n > 0 {
        if i < n {
            rows_on_grow(buckets, own, hosts, device, i, n - 1);
        } else {
            rows_on_grow(buckets, own, hosts, device, n - 1, n - 1);
        }
        let b = buckets[n - 1];
        rows_grow(b.events, 0, b.events.len() as int);
        list::total_concat(
            rows_on(buckets, own, hosts, device, n - 1),
            rows_of(b.events, b.events.len() as int),
            row_seconds(),
        );
    }
}

/// The track of one device; `None` where its total is more than `i64` holds.
fn track_for(input: &PipelineInput, device: &String, names: &TextMap<String>) -> (r: Option<
    DeviceTrack,
>)
    requires
        events_end(input.deep_view().activity),
        names.deep_view() == roles_of(input.deep_view().hostname_to_uuid),
    ensures
        match r {
            Some(t) => t.deep_view() == track_of(input.deep_view(), device@) && track_of(
                input.deep_view(),
                device@,
            ).total_seconds <= i64::MAX,
            None => track_of(input.deep_view(), device@).total_seconds > i64::MAX,
        },
{
    let ghost iv = input.deep_view();
    let ghost bs = iv.activity;
    let ghost own = iv.own_device;
    let ghost hosts = iv.hostname_to_uuid;
    assert(bs.len() == input.activity.len());
    let mut rows: Vec<TrackRow> = Vec::new();
    assert(rows.deep_view() =~= Seq::empty());
    let mut total: i64 = 0;
    let mut i: usize = 0;
    while i < input.activity.len()
        invariant
            i <= input.activity.len(),
            iv == input.deep_view(),
            bs == iv.activity,
            bs.len() == input.activity.len(),
            own == iv.own_device,
            hosts == iv.hostname_to_uuid,
            events_end(bs),
            rows.deep_view() == rows_on(bs, own, hosts, device@, i as int),
            0 <= total,
            total == list::total(rows_on(bs, own, hosts, device@, i as int), row_seconds()),
        decreases input.activity.len() - i,
    {
        let bucket = &input.activity[i];
        assert(bs[i as int] == bucket.deep_view());
        let at = resolve_bucket_device(&bucket.events, bucket.bucket_id.as_str(), input);
        if at == *device {
            assert forall|k: int| 0 <= k < bucket.events.len() implies in_range(
                (#[trigger] bucket.events.deep_view()[k]).timestamp + bucket.events.deep_view()[k].duration,
            ) by {
                assert(bs[i as int].events[k] == bucket.events.deep_view()[k]);
            }
            proof {
                list::total_concat(
                    rows_on(bs, own, hosts, device@, i as int),
                    rows_of(bs[i as int].events, bs[i as int].events.len() as int),
                    row_seconds(),
                );
                rows_grow(bs[i as int].events, 0, bs[i as int].events.len() as int);
                assert(bs[i as int].events.len() == bucket.events.len());
            }
            match add_rows(&mut rows, total, &bucket.events) {
                Some(t) => {
                    total = t;
                },
                None => {
                    proof {
                        rows_on_grow(bs, own, hosts, device@, i + 1, bs.len() as int);
                    }
                    return None;
                },
            }
        }
        i = i + 1;
    }
    sort(&mut rows);
    let hostname = match names.get(device.as_str()) {
        Some(name) => Some(name.clone()),
        None => None,
    };
    let is_own = *device == input.own_device;
    let track = DeviceTrack {
        device: device.clone(),
        hostname,
        is_own,
        total_seconds: total,
        events: rows,
    };
    assert(track.deep_view() =~= track_of(iv, device@));
    Some(track)
}

/// The raw rows of every device, by device. `None` where a device's seconds add up to more than
/// `i64` holds.
pub fn device_tracks(input: &PipelineInput) -> (r: Option<Vec<DeviceTrack>>)
    requires
        events_end(input.deep_view().activity),
    ensures
        match r {
            Some(tracks) => tracks.deep_view() == tracks_of(input.deep_view()) && totals_fit(
                tracks_of(input.deep_view()),
            ),
            None => !totals_fit(tracks_of(input.deep_view())),
        },
{
    let ghost iv = input.deep_view();
    let ghost bs = iv.activity;
    let ghost own = iv.own_device;
    let ghost hosts = iv.hostname_to_uuid;
    assert(bs.len() == input.activity.len());
    let mut devices: Vec<String> = Vec::new();
    assert(devices.deep_view() =~= Seq::empty());
    let mut i: usize = 0;
    while i < input.activity.len()
        invariant
            i <= input.activity.len(),
            iv == input.deep_view(),
            bs == iv.activity,
            bs.len() == input.activity.len(),
            own == iv.own_device,
            hosts == iv.hostname_to_uuid,
            events_end(bs),
            devices.deep_view() == devices_seen(bs, own, hosts, i as int),
        decreases input.activity.len() - i,
    {
        let bucket = &input.activity[i];
        assert(bs[i as int] == bucket.deep_view());
        let at = resolve_bucket_device(&bucket.events, bucket.bucket_id.as_str(), input);
        let ghost ev = bucket.events.deep_view();
        assert(ev.len() == bucket.events.len());
        let mut any: bool = false;
        let mut k: usize = 0;
        while k < bucket.events.len()
            invariant
                k <= bucket.events.len(),
                i < bs.len(),
                bs[i as int] == bucket.deep_view(),
                ev == bucket.events.deep_view(),
                ev.len() == bucket.events.len(),
                events_end(bs),
                any == (rows_of(ev, k as int).len() > 0),
            decreases bucket.events.len() - k,
        {
            assert(ev[k as int] == bucket.events@[k as int].deep_view());
            assert(in_range(bs[i as int].events[k as int].timestamp + bs[i as int].events[k as int].duration));
            let _ = bucket.events[k].timestamp.nanos();
            if bucket.events[k].duration.num_seconds() > 0 {
                any = true;
            }
            k = k + 1;
        }
        if any && !list::contains_text(&devices, &at) {
            list::push(&mut devices, at);
        }
        i = i + 1;
    }
    sort(&mut devices);
    let ghost dv = devices.deep_view();
    assert(dv.len() == devices.len());
    let names = input.roles_by_uuid();
    let mut out: Vec<DeviceTrack> = Vec::new();
    assert(out.deep_view() =~= Seq::empty());
    let mut k: usize = 0;
    while k < devices.len()
        invariant
            k <= devices.len(),
            iv == input.deep_view(),
            events_end(iv.activity),
            dv == devices.deep_view(),
            dv.len() == devices.len(),
            names.deep_view() == roles_of(iv.hostname_to_uuid),
            tracks_of(iv).len() == dv.len(),
            forall|j: int| 0 <= j < dv.len() ==> #[trigger] tracks_of(iv)[j] == track_of(iv, dv[j]),
            out.deep_view() =~= tracks_of(iv).take(k as int),
            forall|j: int| 0 <= j < k ==> (#[trigger] tracks_of(iv)[j]).total_seconds <= i64::MAX,
        decreases devices.len() - k,
    {
        assert(dv[k as int] == devices@[k as int]@);
        assert(tracks_of(iv)[k as int] == track_of(iv, dv[k as int]));
        match track_for(input, &devices[k], &names) {
            Some(t) => {
                list::push(&mut out, t);
            },
            None => {
                return None;
            },
        }
        k = k + 1;
    }
    assert(out.deep_view() =~= tracks_of(iv));
    Some(out)
}

} // verus!
