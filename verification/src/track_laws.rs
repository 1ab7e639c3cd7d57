//! What the tracks of the devices list, said of the events they were recorded as.

use vstd::prelude::*;

use crate::list;
use crate::model::{label, roles_of, BucketV, EventV, InputV};
use crate::normalise::bucket_device;
use crate::order::{arranged, arranged_contains, arranged_in_order, arranged_keeps, Sortable};
use crate::text;
use crate::time::{whole_seconds, written};
use crate::tracks::{
    devices_seen, row_seconds, rows_of, rows_on, tracks_of, DeviceTrackV, TrackRow, TrackRowV,
};

verus! {

/// Whether an event lasts a whole second or more.
pub open spec fn draws() -> spec_fn(EventV) -> bool {
    |e: EventV| whole_seconds(e.duration) > 0
}

/// An event as a track lists it: when it starts and ends, how many whole seconds it lasts, and what
/// it is called.
pub open spec fn drawn() -> spec_fn(EventV) -> TrackRowV {
    |e: EventV|
        TrackRowV {
            start: written(e.timestamp),
            end: written(e.timestamp + e.duration),
            seconds: whole_seconds(e.duration),
            label: label(e.data),
        }
}

/// What one bucket has for the track of a device: a row for each of its events that draws, where
/// the bucket is of that device.
pub open spec fn drawn_on(input: InputV, device: Seq<char>) -> spec_fn(BucketV) -> Seq<TrackRowV> {
    |b: BucketV|
        if bucket_device(b.events, b.bucket_id, input.own_device, input.hostname_to_uuid)
            == device {
            b.events.filter(draws()).map_values(drawn())
        } else {
            Seq::empty()
        }
}

proof fn rows_are_filtered(events: Seq<EventV>, n: int)
    requires
        0 <= n <= events.len(),
    ensures
        rows_of(events, n) == events.take(n).filter(draws()).map_values(drawn()),
    decreases n,
{
    reveal(Seq::filter);
    if n > 0 {
        rows_are_filtered(events, n - 1);
        assert(events.take(n).drop_last() =~= events.take(n - 1));
        assert(rows_of(events, n) =~= events.take(n).filter(draws()).map_values(drawn()));
    } else {
        assert(rows_of(events, n) =~= events.take(n).filter(draws()).map_values(drawn()));
    }
}

proof fn rows_are_flat(input: InputV, device: Seq<char>, n: int)
    requires
        0 <= n <= input.activity.len(),
    ensures
        rows_on(input.activity, input.own_device, input.hostname_to_uuid, device, n) == list::flat(
            input.activity,
            drawn_on(input, device),
            n,
        ),
    decreases n,
{
    if n > 0 {
        rows_are_flat(input, device, n - 1);
        let b = input.activity[n - 1];
        rows_are_filtered(b.events, b.events.len() as int);
        assert(b.events.take(b.events.len() as int) =~= b.events);
        assert(rows_on(input.activity, input.own_device, input.hostname_to_uuid, device, n)
            =~= list::flat(input.activity, drawn_on(input, device), n));
    }
}

proof fn devices_hold(input: InputV, n: int, device: Seq<char>)
    requires
        0 <= n <= input.activity.len(),
    ensures
        ({
            let seen = devices_seen(input.activity, input.own_device, input.hostname_to_uuid, n);
            &&& seen.no_duplicates()
            &&& seen.contains(device) <==> list::flat(
                input.activity,
                drawn_on(input, device),
                n,
            ).len() > 0
        }),
    decreases n,
{
    if n > 0 {
        devices_hold(input, n - 1, device);
        let b = input.activity[n - 1];
        let own = bucket_device(b.events, b.bucket_id, input.own_device, input.hostname_to_uuid);
        let rest = devices_seen(input.activity, input.own_device, input.hostname_to_uuid, n - 1);
        let all = devices_seen(input.activity, input.own_device, input.hostname_to_uuid, n);
        rows_are_filtered(b.events, b.events.len() as int);
        assert(b.events.take(b.events.len() as int) =~= b.events);
        if rest.contains(device) {
            let k = choose|k: int| 0 <= k < rest.len() && rest[k] == device;
            assert(all[k] == device);
        }
        if all.len() > rest.len() {
            assert(all[rest.len() as int] == own);
        }
        if all.contains(device) {
            let k = choose|k: int| 0 <= k < all.len() && all[k] == device;
            if k < rest.len() {
                assert(rest[k] == device);
                assert(rest.contains(device));
            }
        }
    } else {
        assert(!devices_seen(
            input.activity,
            input.own_device,
            input.hostname_to_uuid,
            n,
        ).contains(device));
    }
}

/// Every device has its track, own or not: the rows of its buckets' events that last a second or
/// more, each once, earliest first, with the seconds that they add up to and the name the device
/// goes by.
pub proof fn a_track_lists_every_event_of_its_device(input: InputV, i: int)
    requires
        0 <= i < tracks_of(input).len(),
    ensures
        ({
            let track = tracks_of(input)[i];
            let n = input.activity.len() as int;
            let names = roles_of(input.hostname_to_uuid);
            &&& track.events.to_multiset() == list::flat(
                input.activity,
                drawn_on(input, track.device),
                n,
            ).to_multiset()
            &&& track.events.len() > 0
            &&& forall|a: int, b: int|
                0 <= a < b < track.events.len() ==> !text::before(
                    (#[trigger] track.events[b]).start,
                    (#[trigger] track.events[a]).start,
                )
            &&& track.total_seconds == list::total(track.events, |r: TrackRowV| r.seconds)
            &&& track.is_own == (track.device == input.own_device)
            &&& track.hostname == if names.contains_key(track.device) {
                Some(names[track.device])
            } else {
                None
            }
        }),
{
    let n = input.activity.len() as int;
    let seen = devices_seen(input.activity, input.own_device, input.hostname_to_uuid, n);
    let devices = arranged::<String>(seen);
    let device = devices[i];
    let rows = rows_on(input.activity, input.own_device, input.hostname_to_uuid, device, n);
    rows_are_flat(input, device, n);
    arranged_keeps::<TrackRow>(rows);
    arranged_in_order::<TrackRow>(rows);
    list::total_arranged::<TrackRow>(rows, row_seconds());
    let sorted = arranged::<TrackRow>(rows);
    list::sum_prefix_by(sorted, row_seconds(), |r: TrackRowV| r.seconds, sorted.len() as int);
    arranged_contains::<String>(seen, device);
    assert(devices.contains(device));
    devices_hold(input, n, device);
    assert forall|a: int, b: int| 0 <= a < b < sorted.len() implies !text::before(
        (#[trigger] sorted[b]).start,
        (#[trigger] sorted[a]).start,
    ) by {
        assert(!<TrackRow as Sortable>::precedes(sorted[b], sorted[a]));
    }
}

/// Whether a track has the row of an event.
pub open spec fn lists_event(track: DeviceTrackV, e: EventV) -> bool {
    exists|r: int| 0 <= r < track.events.len() && #[trigger] track.events[r] == drawn()(e)
}

/// Every event that lasts a second or more is on the track of the device its bucket is of.
pub proof fn every_event_is_on_a_track(input: InputV, b: int, e: int)
    requires
        0 <= b < input.activity.len(),
        0 <= e < input.activity[b].events.len(),
        whole_seconds(input.activity[b].events[e].duration) > 0,
    ensures
        ({
            let bucket = input.activity[b];
            let device = bucket_device(
                bucket.events,
                bucket.bucket_id,
                input.own_device,
                input.hostname_to_uuid,
            );
            exists|i: int|
                0 <= i < tracks_of(input).len() && (#[trigger] tracks_of(input)[i]).device == device
                    && lists_event(tracks_of(input)[i], bucket.events[e])
        }),
{
    broadcast use vstd::seq_lib::group_filter_ensures;
    broadcast use vstd::seq_lib::group_to_multiset_ensures;

    let n = input.activity.len() as int;
    let bucket = input.activity[b];
    let event = bucket.events[e];
    let device = bucket_device(
        bucket.events,
        bucket.bucket_id,
        input.own_device,
        input.hostname_to_uuid,
    );
    let f = drawn_on(input, device);
    let kept = bucket.events.filter(draws());
    assert(draws()(bucket.events[e]));
    assert(kept.contains(bucket.events[e]));
    let k = choose|k: int| 0 <= k < kept.len() && kept[k] == event;
    assert(f(bucket)[k] == drawn()(event));
    assert(f(input.activity[b]).contains(drawn()(event)));
    list::flat_contains(input.activity, f, n, drawn()(event));
    let rows = list::flat(input.activity, f, n);
    assert(rows.contains(drawn()(event)));
    devices_hold(input, n, device);
    let seen = devices_seen(input.activity, input.own_device, input.hostname_to_uuid, n);
    arranged_contains::<String>(seen, device);
    let devices = arranged::<String>(seen);
    let i = choose|i: int| 0 <= i < devices.len() && devices[i] == device;
    let track = tracks_of(input)[i];
    assert(track.device == device);
    rows_are_flat(input, device, n);
    arranged_contains::<TrackRow>(rows, drawn()(event));
    let r = choose|r: int| 0 <= r < track.events.len() && track.events[r] == drawn()(event);
    assert(lists_event(track, event));
}

/// The tracks are listed by device, each device once.
pub proof fn tracks_are_listed_by_device(input: InputV, i: int, j: int)
    requires
        0 <= i < j < tracks_of(input).len(),
    ensures
        text::before(tracks_of(input)[i].device, tracks_of(input)[j].device),
{
    let n = input.activity.len() as int;
    let seen = devices_seen(input.activity, input.own_device, input.hostname_to_uuid, n);
    let devices = arranged::<String>(seen);
    devices_hold(input, n, devices[i]);
    arranged_in_order::<String>(seen);
    arranged_keeps::<String>(seen);
    seen.lemma_multiset_has_no_duplicates();
    devices.lemma_multiset_has_no_duplicates_conv();
    assert(!<String as Sortable>::precedes(devices[j], devices[i]));
    text::before_is_total_order(devices[i], devices[j], devices[j]);
}

} // verus!
