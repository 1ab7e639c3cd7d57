//! What a sync brings over, said of what the source holds.

use vstd::prelude::*;

use crate::day_laws::{first_marker, marked_at};
use crate::json::{
    document, drops_member, member, sets_member, string_member, text_with, text_without,
    writes_object, Json,
};
use crate::model::{data_from, string_at, DataV, EventV};
use crate::normalise::SYNCED_FROM;
use crate::order::{arranged, arranged_in_order, arranged_keeps, Sortable};
use crate::sync::{
    asked_for, before_run_bounds, chosen, copied_event, copied_events, data_keeps_absence,
    data_keeps_strings, destination, drifted, ends_at, jobs_for, newest_first, next_end, no_long_run,
    only_first_hand_data_is_exchanged, origin_of, page_at, page_length, second_hand, step_for,
    the_next_page_goes_on_where_this_one_stopped, with_hostname, Bucket, PageStepV, SyncBucketV,
};
use crate::text;

verus! {

/// What an event's data becomes when it is copied with a known origin: what is written when the
/// origin is set in it, unless there is an origin already, or nothing that it could be set in.
pub open spec fn data_of_copy(data: DataV, origin: Option<Seq<char>>) -> DataV {
    let key = "$aw.origin.device"@;
    if origin is None || document(data.text) is None || member(
        document(data.text)->0.value,
        key,
    ) is Some {
        data
    } else {
        match text_with(data.text, key, origin->0) {
            Some(t) => match data_from(t) {
                Some(d) => d,
                None => data,
            },
            None => data,
        }
    }
}

/// Whether `c` is the copy of `e`: the same time, as long, without the id that it had where it came
/// from, and with its data as it was but for the origin.
pub open spec fn is_copy(c: EventV, e: EventV, origin: Option<Seq<char>>) -> bool {
    &&& c.id is None
    &&& c.timestamp == e.timestamp
    &&& c.duration == e.duration
    &&& c.data == data_of_copy(e.data, origin)
}

/// A copied event is the event itself but for its id and its origin.
pub proof fn a_copy_is_the_event(e: EventV, origin: Option<Seq<char>>)
    ensures
        is_copy(copied_event(e, origin), e, origin),
        origin is None ==> copied_event(e, origin).data == e.data,
{
}

/// The copy of an event that had no origin says where it came from, and everything else that the
/// event said: as the object that is written with the origin set has every other text it had.
pub proof fn a_copy_says_what_the_event_said(
    e: EventV,
    device: Seq<char>,
    other: Seq<char>,
    said: Seq<char>,
)
    requires
        writes_object(e.data.text),
        member(document(e.data.text)->0.value, "$aw.origin.device"@) is None,
        text_with(e.data.text, "$aw.origin.device"@, device) is Some,
        sets_member(
            e.data.text,
            "$aw.origin.device"@,
            device,
            text_with(e.data.text, "$aw.origin.device"@, device)->0,
        ),
        other != "$aw.origin.device"@,
        string_member(e.data.text, other) == Some(said),
    ensures
        string_at(copied_event(e, Some(device)).data, other) == Some(said),
        string_at(copied_event(e, Some(device)).data, "$aw.origin.device"@) == Some(device),
{
    let t = text_with(e.data.text, "$aw.origin.device"@, device)->0;
    assert(string_member(t, other) == string_member(e.data.text, other));
    data_keeps_strings(t, other, said);
    data_keeps_strings(t, "$aw.origin.device"@, device);
}

/// Whether `out` lists the copies of the first `n` events of a page, which is newest first, oldest
/// first.
pub open spec fn lists_copies(
    out: Seq<EventV>,
    page: Seq<EventV>,
    n: int,
    origin: Option<Seq<char>>,
) -> bool {
    &&& out.len() == n
    &&& forall|i: int| 0 <= i < n ==> is_copy(#[trigger] out[i], page[n - 1 - i], origin)
}

proof fn reversed_copies(page: Seq<EventV>, n: int, origin: Option<Seq<char>>)
    requires
        0 <= n <= page.len(),
    ensures
        lists_copies(copied_events(page.take(n), origin).reverse(), page, n, origin),
{
    let out = copied_events(page.take(n), origin).reverse();
    assert forall|i: int| 0 <= i < n implies is_copy(#[trigger] out[i], page[n - 1 - i], origin) by {
        a_copy_is_the_event(page[n - 1 - i], origin);
    }
}

/// What is done with a page. An empty one ends the sync. One that is not full is the last: every
/// event of it is written, the oldest as a heartbeat where no page came before. Of a full one every
/// event is written but those at its last moment, which are fetched again with what follows; or all
/// of them, where the whole page is of one moment, and then what lies before that moment follows.
pub proof fn a_page_is_written_whole(
    page: Seq<EventV>,
    batch: int,
    first_page: bool,
    origin: Option<Seq<char>>,
)
    requires
        0 < batch,
    ensures
        ({
            let step = step_for(page, batch, first_page, origin);
            let n = page.len() as int;
            &&& n == 0 ==> step == PageStepV::Done
            &&& 0 < n < batch && !first_page ==> (step matches PageStepV::Last(first, rest)
                && first is None && lists_copies(rest, page, n, origin))
            &&& 0 < n < batch && first_page ==> (step matches PageStepV::Last(first, rest)
                && first is Some && is_copy(first->0, page[n - 1], origin) && lists_copies(
                rest,
                page,
                n - 1,
                origin,
            ))
            &&& n >= batch ==> (step matches PageStepV::Insert(events, end) && {
                let t = page[n - 1].timestamp;
                if page[0].timestamp == t {
                    lists_copies(events, page, n, origin) && end == t - 1
                } else {
                    lists_copies(events, page, events.len() as int, origin) && end == t
                        && events.len() < n && (forall|i: int|
                        events.len() <= i < n ==> (#[trigger] page[i]).timestamp == t) && (
                    events.len() > 0 ==> page[events.len() - 1].timestamp != t)
                }
            })
        }),
{
    let n = page.len() as int;
    let step = step_for(page, batch, first_page, origin);
    if 0 < n < batch {
        reversed_copies(page, n, origin);
        assert(page.take(n) =~= page);
        let asc = copied_events(page, origin).reverse();
        if first_page {
            let rest = asc.skip(1);
            assert(is_copy(asc[0], page[n - 1], origin));
            assert forall|i: int| 0 <= i < n - 1 implies is_copy(
                #[trigger] rest[i],
                page[n - 2 - i],
                origin,
            ) by {
                assert(rest[i] == asc[i + 1]);
            }
        }
    } else if n >= batch {
        let t = page[n - 1].timestamp;
        before_run_bounds(page, t, n);
        let p = page_length(page);
        reversed_copies(page, p, origin);
        if page[0].timestamp != t && p == n {
            assert(page[n - 1].timestamp != t);
        }
    }
}

/// How many events of a source, newest first, are later than `end`.
pub open spec fn later_than(source: Seq<EventV>, end: int, i: int) -> int
    decreases source.len() - i,
{
    if 0 <= i < source.len() && source[i].timestamp > end {
        later_than(source, end, i + 1)
    } else {
        i
    }
}

/// What a sync writes when it asks a source, which lists its events newest first, for the page
/// behind the first `k`, does what is to be done with it, and goes on with the events no later than
/// the moment it is told: all that is written, oldest first.
pub open spec fn synced(
    source: Seq<EventV>,
    k: int,
    batch: int,
    first_page: bool,
    origin: Option<Seq<char>>,
) -> Seq<EventV>
    decreases source.len() - k,
{
    match step_for(page_at(source, k, batch), batch, first_page, origin) {
        PageStepV::Done => Seq::empty(),
        PageStepV::Last(first, rest) => match first {
            Some(e) => seq![e] + rest,
            None => rest,
        },
        PageStepV::Insert(events, end) => {
            let next = later_than(source, end, 0);
            if k < next <= source.len() {
                synced(source, next, batch, false, origin) + events
            } else {
                events
            }
        },
    }
}

proof fn later_than_is(source: Seq<EventV>, end: int, m: int, i: int)
    requires
        0 <= i <= m <= source.len(),
        ends_at(source, m, end),
    ensures
        later_than(source, end, i) == m,
    decreases m - i,
{
    if i < m {
        assert(source[i].timestamp > end);
        later_than_is(source, end, m, i + 1);
    } else if i < source.len() {
        assert(source[i].timestamp <= end);
    }
}

/// A sync writes a copy of every event of its source, each once, oldest first, however the pages
/// fall, as long as no page's worth of events shares one moment.
pub proof fn every_event_arrives(
    source: Seq<EventV>,
    k: int,
    batch: int,
    first_page: bool,
    origin: Option<Seq<char>>,
)
    requires
        newest_first(source),
        0 < batch,
        no_long_run(source, batch),
        0 <= k <= source.len(),
    ensures
        ({
            let out = synced(source, k, batch, first_page, origin);
            let n = source.len();
            &&& out.len() == n - k
            &&& forall|i: int|
                0 <= i < n - k ==> is_copy(#[trigger] out[i], source[n - 1 - i], origin)
        }),
    decreases source.len() - k,
{
    let n = source.len() as int;
    let page = page_at(source, k, batch);
    let out = synced(source, k, batch, first_page, origin);
    a_page_is_written_whole(page, batch, first_page, origin);
    if page.len() == 0 {
        assert(k == n);
    } else if page.len() < batch {
        assert(page =~= source.skip(k));
        assert forall|i: int| 0 <= i < n - k implies is_copy(
            #[trigger] out[i],
            source[n - 1 - i],
            origin,
        ) by {
            assert(page[n - k - 1 - i] == source[n - 1 - i]);
        }
    } else {
        assert(page.len() == batch);
        assert(page[0] == source[k] && page[batch - 1] == source[k + batch - 1]);
        assert(source[k].timestamp != source[k + batch - 1].timestamp);
        the_next_page_goes_on_where_this_one_stopped(source, k, batch);
        let p = page_length(page);
        let end = next_end(page);
        later_than_is(source, end, k + p, 0);
        every_event_arrives(source, k + p, batch, false, origin);
        let older = synced(source, k + p, batch, false, origin);
        let events = copied_events(page.take(p), origin).reverse();
        reversed_copies(page, p, origin);
        assert(out == older + events);
        assert forall|i: int| 0 <= i < n - k implies is_copy(
            #[trigger] out[i],
            source[n - 1 - i],
            origin,
        ) by {
            if i < older.len() {
                assert(out[i] == older[i]);
            } else {
                let j = i - older.len();
                assert(out[i] == events[j]);
                assert(page[p - 1 - j] == source[k + p - 1 - j]);
            }
        }
    }
}

/// Whether a bucket is asked for: any is where no ids are given, none are listed, or a star is.
pub open spec fn wanted(id: Seq<char>, ids: Option<Seq<Seq<char>>>) -> bool {
    ids is None || ids->0.len() == 0 || ids->0.contains("*"@) || ids->0.contains(id)
}

/// Whether a bucket is what is exchanged of the stored bucket `b`: it is first-hand, it is asked
/// for, and it is as it was, but that the source device stands in for an unknown hostname.
pub open spec fn exchanged_as(
    x: SyncBucketV,
    b: SyncBucketV,
    ids: Option<Seq<Seq<char>>>,
    source: Option<Seq<char>>,
) -> bool {
    &&& forall|i: int| !#[trigger] marked_at(b.id, "-synced-from-"@, i)
    &&& wanted(b.id, ids)
    &&& x.id == b.id
    &&& x.bucket_type == b.bucket_type
    &&& x.client == b.client
    &&& x.data == b.data
    &&& x.end == b.end
    &&& x.hostname == if b.hostname == "unknown"@ && source is Some {
        source->0
    } else {
        b.hostname
    }
}

proof fn second_hand_is_marked(b: SyncBucketV)
    ensures
        second_hand(b) <==> exists|i: int| #[trigger] marked_at(b.id, "-synced-from-"@, i),
{
    text::find_from_sound(b.id, SYNCED_FROM@, 0);
    if second_hand(b) {
        let i = text::first_occurrence(b.id, SYNCED_FROM@)->0;
        assert(marked_at(b.id, SYNCED_FROM@, i));
    }
    if exists|i: int| #[trigger] marked_at(b.id, "-synced-from-"@, i) {
        let i = choose|i: int| #[trigger] marked_at(b.id, "-synced-from-"@, i);
        assert(text::occurs_at(b.id, SYNCED_FROM@, i));
    }
}

/// What is exchanged is every first-hand bucket that is asked for, and no other. The one whose
/// events end last comes last.
pub proof fn every_bucket_asked_for_is_exchanged(
    buckets: Seq<SyncBucketV>,
    ids: Option<Seq<Seq<char>>>,
    source: Option<Seq<char>>,
    x: SyncBucketV,
)
    ensures
        ({
            let picked = arranged::<Bucket>(chosen(buckets, ids, source, buckets.len() as int));
            &&& picked.contains(x) <==> exists|k: int|
                0 <= k < buckets.len() && exchanged_as(x, #[trigger] buckets[k], ids, source)
            &&& forall|i: int, j: int|
                0 <= i < j < picked.len() ==> ((#[trigger] picked[j]).end is None ==> (
                #[trigger] picked[i]).end is None) && (picked[i].end is Some && picked[j].end is Some
                    ==> picked[i].end->0 <= picked[j].end->0)
        }),
{
    let all = chosen(buckets, ids, source, buckets.len() as int);
    let picked = arranged::<Bucket>(all);
    only_first_hand_data_is_exchanged(buckets, ids, source, x);
    arranged_in_order::<Bucket>(all);
    assert forall|k: int| 0 <= k < buckets.len() implies exchanged_as(
        x,
        #[trigger] buckets[k],
        ids,
        source,
    ) == (!second_hand(buckets[k]) && asked_for(buckets[k].id, ids) && x == with_hostname(
        buckets[k],
        source,
    )) by {
        second_hand_is_marked(buckets[k]);
        if exchanged_as(x, buckets[k], ids, source) {
            assert(x =~= with_hostname(buckets[k], source));
        }
    }
    if picked.contains(x) {
        let k = choose|k: int|
            #![trigger buckets[k]]
            0 <= k < buckets.len() && !second_hand(buckets[k]) && asked_for(buckets[k].id, ids) && x
                == with_hostname(buckets[k], source);
        assert(exchanged_as(x, buckets[k], ids, source));
    }
    assert forall|i: int, j: int| 0 <= i < j < picked.len() implies ((
    #[trigger] picked[j]).end is None ==> (#[trigger] picked[i]).end is None) && (
    picked[i].end is Some && picked[j].end is Some ==> picked[i].end->0 <= picked[j].end->0) by {
        assert(!<Bucket as Sortable>::precedes(picked[j], picked[i]));
    }
}

/// What a bucket is synced into is described as it is. Staged, it keeps its id and loses its origin.
/// Imported, it is named after its origin, behind the one marker in its id.
pub proof fn a_bucket_keeps_its_description(b: SyncBucketV, is_push: bool)
    ensures
        ({
            let into = destination(b, is_push);
            &&& into.bucket_type == b.bucket_type
            &&& into.client == b.client
            &&& into.hostname == b.hostname
            &&& is_push ==> into.id == b.id
            &&& !is_push && origin_of(b) is Some && (forall|i: int| !#[trigger] marked_at(
                b.id,
                "-synced-from-"@,
                i,
            )) ==> into.id == b.id + "-synced-from-"@ + origin_of(b)->0
            &&& forall|at: int|
                !is_push && origin_of(b) is Some && #[trigger] first_marker(
                    b.id,
                    "-synced-from-"@,
                    at,
                ) ==> into.id == b.id.take(at) + "-synced-from-"@ + origin_of(b)->0
        }),
{
    text::find_from_sound(b.id, SYNCED_FROM@, 0);
    if let Some(i) = text::first_occurrence(b.id, SYNCED_FROM@) {
        assert(marked_at(b.id, "-synced-from-"@, i));
    }
    assert forall|at: int|
        !is_push && origin_of(b) is Some && #[trigger] first_marker(
            b.id,
            "-synced-from-"@,
            at,
        ) implies destination(b, is_push).id == b.id.take(at) + "-synced-from-"@ + origin_of(
        b,
    )->0 by {
        assert(text::occurs_at(b.id, SYNCED_FROM@, at));
        let i = text::first_occurrence(b.id, SYNCED_FROM@)->0;
        assert(marked_at(b.id, "-synced-from-"@, i));
        assert(i == at);
    }
}

/// Every bucket that is exchanged has its job, in order, and is synced into the bucket it calls for.
pub proof fn every_bucket_has_its_job(buckets: Seq<SyncBucketV>, is_push: bool, i: int)
    requires
        0 <= i < buckets.len(),
    ensures
        jobs_for(buckets, is_push).len() == buckets.len(),
        jobs_for(buckets, is_push)[i].from == buckets[i],
        jobs_for(buckets, is_push)[i].into == if is_push || origin_of(buckets[i]) is Some {
            Some(destination(buckets[i], is_push))
        } else {
            None
        },
{
}

/// The buckets exchanged are as many as are first-hand and asked for, each once for each time it is
/// stored.
pub proof fn a_bucket_is_exchanged_once(
    buckets: Seq<SyncBucketV>,
    ids: Option<Seq<Seq<char>>>,
    source: Option<Seq<char>>,
    n: int,
)
    requires
        0 <= n <= buckets.len(),
    ensures
        chosen(buckets, ids, source, n) == buckets.take(n).filter(
            |b: SyncBucketV| !second_hand(b) && asked_for(b.id, ids),
        ).map_values(|b: SyncBucketV| with_hostname(b, source)),
        arranged::<Bucket>(chosen(buckets, ids, source, n)).to_multiset() == chosen(
            buckets,
            ids,
            source,
            n,
        ).to_multiset(),
    decreases n,
{
    reveal(Seq::filter);
    arranged_keeps::<Bucket>(chosen(buckets, ids, source, n));
    let keep = |b: SyncBucketV| !second_hand(b) && asked_for(b.id, ids);
    let out = |b: SyncBucketV| with_hostname(b, source);
    if n > 0 {
        a_bucket_is_exchanged_once(buckets, ids, source, n - 1);
        assert(buckets.take(n).drop_last() =~= buckets.take(n - 1));
        let b = buckets[n - 1];
        if keep(b) {
            assert(buckets.take(n - 1).filter(keep).push(b).map_values(out) =~= buckets.take(
                n - 1,
            ).filter(keep).map_values(out).push(out(b)));
        }
    } else {
        assert(chosen(buckets, ids, source, n) =~= buckets.take(n).filter(keep).map_values(out));
    }
}

/// A bucket is from where its metadata says, in a text; from its host where the metadata does not
/// say; and from nowhere where what it says is no text.
pub proof fn a_bucket_is_from_where_it_says(b: SyncBucketV)
    ensures
        document(b.data.text) is None ==> origin_of(b) == Some(b.hostname),
        document(b.data.text) matches Some(d) ==> match member(d.value, "$aw.sync.origin"@) {
            None => origin_of(b) == Some(b.hostname),
            Some(Json::Text(s)) => origin_of(b) == Some(s@),
            Some(_) => origin_of(b) is None,
        },
{
}

/// An imported bucket carries its origin and every other text that it had; one that is pushed
/// carries none, and every other text that it had.
pub proof fn a_bucket_carries_its_origin(b: SyncBucketV, other: Seq<char>, said: Seq<char>)
    requires
        writes_object(b.data.text),
        origin_of(b) is Some,
        other != "$aw.sync.origin"@,
        string_member(b.data.text, other) == Some(said),
        text_with(b.data.text, "$aw.sync.origin"@, origin_of(b)->0) matches Some(t) && sets_member(
            b.data.text,
            "$aw.sync.origin"@,
            origin_of(b)->0,
            t,
        ),
        text_without(b.data.text, "$aw.sync.origin"@) matches Some(t) && drops_member(
            b.data.text,
            "$aw.sync.origin"@,
            t,
        ),
    ensures
        string_at(destination(b, false).data, "$aw.sync.origin"@) == origin_of(b),
        string_at(destination(b, false).data, other) == Some(said),
        string_at(destination(b, true).data, "$aw.sync.origin"@) is None,
        string_at(destination(b, true).data, other) == Some(said),
{
    let key = "$aw.sync.origin"@;
    let set = text_with(b.data.text, key, origin_of(b)->0)->0;
    let dropped = text_without(b.data.text, key)->0;
    assert(string_member(set, other) == Some(said));
    assert(string_member(dropped, other) == Some(said));
    data_keeps_strings(set, key, origin_of(b)->0);
    data_keeps_strings(set, other, said);
    data_keeps_absence(dropped, key);
    data_keeps_strings(dropped, other, said);
}

/// A bucket has drifted just where its host, its client, its type or its data is another; its id and
/// its times do not matter.
pub proof fn a_bucket_has_drifted_where_it_says_otherwise(have: SyncBucketV, want: SyncBucketV)
    ensures
        have.hostname == want.hostname && have.client == want.client && have.bucket_type
            == want.bucket_type && have.data == want.data ==> !drifted(have, want),
        have.hostname != want.hostname ==> drifted(have, want),
        have.client != want.client ==> drifted(have, want),
        have.bucket_type != want.bucket_type ==> drifted(have, want),
        have.data.strings != want.data.strings ==> drifted(have, want),
        drifted(have, want) == drifted(want, have),
{
}

} // verus!
