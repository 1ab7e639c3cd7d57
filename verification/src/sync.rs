//! Moving events between a datastore and a staging copy in the shared folder.

use vstd::prelude::*;

use crate::json::{
    document, find_from, member, read_document, remove_member, set_member, string_member, text_of,
    text_with, text_without, writes_object, Json, Member,
};
use crate::list;
use crate::model::{
    data_from, same_data, string_at, string_from, string_members, Data, DataV, Event, EventV,
    EVENT_ORIGIN_KEY,
};
use crate::normalise::{peer_in, SYNCED_FROM};
use crate::order::{arranged, arranged_contains, sort, Sortable};
use crate::text;
use crate::time::{in_range, Duration, Instant, MIN_NANOS};

verus! {

/// Which way a pass moves events.
#[derive(Clone, Copy, Debug, PartialEq, Eq, Structural)]
pub enum SyncMode {
    Push,
    Pull,
    Both,
}

impl SyncMode {
    /// Whether events are pulled from peers.
    pub fn pulls(self) -> (r: bool)
        ensures
            r == (self == SyncMode::Pull || self == SyncMode::Both),
    {
        self == SyncMode::Pull || self == SyncMode::Both
    }

    /// Whether this device's events are pushed.
    pub fn pushes(self) -> (r: bool)
        ensures
            r == (self == SyncMode::Push || self == SyncMode::Both),
    {
        self == SyncMode::Push || self == SyncMode::Both
    }
}

/// Bucket data key holding the hostname an imported bucket came from.
pub const SYNC_ORIGIN_KEY: &'static str = "$aw.sync.origin";

/// Number of events fetched per page.
pub const BATCH_SIZE: usize = 5000;

/// A bucket, as far as syncing looks at one.
#[derive(Debug)]
pub struct Bucket {
    pub id: String,
    pub bucket_type: String,
    pub client: String,
    pub hostname: String,
    pub data: Data,
    /// When its last event ends, where it has any.
    pub end: Option<Instant>,
}

#[verifier::ext_equal]
pub struct SyncBucketV {
    pub id: Seq<char>,
    pub bucket_type: Seq<char>,
    pub client: Seq<char>,
    pub hostname: Seq<char>,
    pub data: DataV,
    pub end: Option<int>,
}

impl DeepView for Bucket {
    type V = SyncBucketV;

    open spec fn deep_view(&self) -> SyncBucketV {
        SyncBucketV {
            id: self.id@,
            bucket_type: self.bucket_type@,
            client: self.client@,
            hostname: self.hostname@,
            data: self.data.deep_view(),
            end: self.end.deep_view(),
        }
    }
}

impl Clone for Bucket {
    fn clone(&self) -> (r: Bucket)
        ensures
            r.deep_view() == self.deep_view(),
    {
        Bucket {
            id: self.id.clone(),
            bucket_type: self.bucket_type.clone(),
            client: self.client.clone(),
            hostname: self.hostname.clone(),
            data: self.data.clone(),
            end: self.end,
        }
    }
}

/// By when the last event ends; a bucket without events comes first.
impl Sortable for Bucket {
    open spec fn precedes(a: SyncBucketV, b: SyncBucketV) -> bool {
        match (a.end, b.end) {
            (None, Some(_)) => true,
            (Some(x), Some(y)) => x < y,
            _ => false,
        }
    }

    proof fn weak_order(a: SyncBucketV, b: SyncBucketV, c: SyncBucketV) {
    }

    fn sorts_before(&self, other: &Self) -> (r: bool) {
        match (self.end, other.end) {
            (None, Some(_)) => true,
            (Some(x), Some(y)) => x.earlier_than(y),
            _ => false,
        }
    }
}

/// Whether a bucket holds data synced from another host.
pub open spec fn second_hand(b: SyncBucketV) -> bool {
    peer_in(b.id) is Some
}

/// Whether a bucket holds data synced from another host, rather than collected on its own. The
/// marker in the id is reserved for that.
pub fn is_synced_bucket(bucket: &Bucket) -> (r: bool)
    ensures
        r == second_hand(bucket.deep_view()),
{
    text::contains(bucket.id.as_str(), SYNCED_FROM)
}

/// Whether a bucket is asked for. A list that is empty or holds a star asks for every bucket.
pub open spec fn asked_for(id: Seq<char>, ids: Option<Seq<Seq<char>>>) -> bool {
    match ids {
        Some(ids) => ids.len() == 0 || ids.contains("*"@) || ids.contains(id),
        None => true,
    }
}

/// A bucket with the source device in place of an unknown hostname, where that device is known.
pub open spec fn with_hostname(b: SyncBucketV, source: Option<Seq<char>>) -> SyncBucketV {
    match source {
        Some(device) => if b.hostname == "unknown"@ {
            SyncBucketV { hostname: device, ..b }
        } else {
            b
        },
        None => b,
    }
}

/// Those of the first `n` buckets that are first-hand and asked for.
pub open spec fn chosen(
    buckets: Seq<SyncBucketV>,
    ids: Option<Seq<Seq<char>>>,
    source: Option<Seq<char>>,
    n: int,
) -> Seq<SyncBucketV>
    decreases n,
{
    if n <= 0 {
        Seq::empty()
    } else {
        let rest = chosen(buckets, ids, source, n - 1);
        let b = buckets[n - 1];
        if !second_hand(b) && asked_for(b.id, ids) {
            rest.push(with_hostname(b, source))
        } else {
            rest
        }
    }
}

fn is_asked_for(id: &String, ids: &Option<Vec<String>>) -> (r: bool)
    ensures
        r == asked_for(id@, ids.deep_view()),
{
    match ids {
        Some(ids) => {
            assert(ids.deep_view().len() == ids.len());
            ids.len() == 0 || list::contains_text(ids, &"*".to_owned()) || list::contains_text(
                ids,
                id,
            )
        },
        None => true,
    }
}

/// The buckets to sync, those updated longest ago first.
///
/// A bucket that is itself a copy synced from another host is never synced on: a host offers only
/// data it collected itself, or its own events would come back to it as somebody else's.
pub fn select_buckets(
    buckets: &Vec<Bucket>,
    ids: &Option<Vec<String>>,
    source: Option<&str>,
) -> (r: Vec<Bucket>)
    ensures
        r.deep_view() == arranged::<Bucket>(
            chosen(
                buckets.deep_view(),
                ids.deep_view(),
                match source {
                    Some(s) => Some(s@),
                    None => None,
                },
                buckets.len() as int,
            ),
        ),
{
    let ghost bv = buckets.deep_view();
    let ghost iv = ids.deep_view();
    let ghost sv = match source {
        Some(s) => Some(s@),
        None => None,
    };
    let mut out: Vec<Bucket> = Vec::new();
    assert(out.deep_view() =~= Seq::empty());
    let mut i: usize = 0;
    while i < buckets.len()
        invariant
            i <= buckets.len(),
            bv == buckets.deep_view(),
            iv == ids.deep_view(),
            sv == match source {
                Some(s) => Some(s@),
                None => None,
            },
            out.deep_view() == chosen(bv, iv, sv, i as int),
        decreases buckets.len() - i,
    {
        assert(bv[i as int] == buckets@[i as int].deep_view());
        if !is_synced_bucket(&buckets[i]) && is_asked_for(&buckets[i].id, ids) {
            let mut b = buckets[i].clone();
            match source {
                Some(device) => {
                    if text::same(b.hostname.as_str(), "unknown") {
                        b.hostname = device.to_owned();
                    }
                },
                None => {},
            }
            assert(b.deep_view() =~= with_hostname(bv[i as int], sv));
            list::push(&mut out, b);
        }
        i = i + 1;
    }
    sort(&mut out);
    out
}

/// The origin an imported bucket is named after: the one its metadata gives, or else its hostname.
/// Nothing where the metadata gives one that is no text.
pub open spec fn origin_of(b: SyncBucketV) -> Option<Seq<char>> {
    match document(b.data.text) {
        Some(d) => match member(d.value, SYNC_ORIGIN_KEY@) {
            Some(v) => text_of(v),
            None => Some(b.hostname),
        },
        None => Some(b.hostname),
    }
}

/// The id without the part that names a peer.
pub open spec fn first_hand_id(id: Seq<char>) -> Seq<char> {
    match text::first_occurrence(id, SYNCED_FROM@) {
        Some(i) => id.take(i),
        None => id,
    }
}

/// Data changed to what a JSON text writes, where it writes any.
pub open spec fn data_or(text: Option<Seq<char>>, data: DataV) -> DataV {
    match text {
        Some(t) => match data_from(t) {
            Some(d) => d,
            None => data,
        },
        None => data,
    }
}

/// The bucket to sync into. On push it keeps its id and carries no origin: a staging copy is data
/// this device offers as its own. On import it is named after its origin and carries it.
pub open spec fn destination(b: SyncBucketV, is_push: bool) -> SyncBucketV {
    if is_push {
        SyncBucketV { data: data_or(text_without(b.data.text, SYNC_ORIGIN_KEY@), b.data), ..b }
    } else {
        let origin = origin_of(b)->0;
        SyncBucketV {
            id: first_hand_id(b.id) + SYNCED_FROM@ + origin,
            data: data_or(text_with(b.data.text, SYNC_ORIGIN_KEY@, origin), b.data),
            ..b
        }
    }
}

fn reread(text: Option<String>, data: &Data) -> (r: Data)
    ensures
        r.deep_view() == data_or(text.deep_view(), data.deep_view()),
{
    match text {
        Some(t) => match Data::parse(t.as_str()) {
            Some(d) => d,
            None => data.clone(),
        },
        None => data.clone(),
    }
}

/// The origin an imported bucket is named after; `None` where its metadata gives one that is no
/// text.
pub fn sync_origin(bucket: &Bucket) -> (r: Option<String>)
    ensures
        r.deep_view() == origin_of(bucket.deep_view()),
{
    match read_document(bucket.data.text.as_str()) {
        Some(d) => match d.value.get(SYNC_ORIGIN_KEY) {
            Some(v) => match v.as_text() {
                Some(t) => Some(t.clone()),
                None => None,
            },
            None => Some(bucket.hostname.clone()),
        },
        None => Some(bucket.hostname.clone()),
    }
}

/// The bucket to sync `bucket` into, as it should be: derived from the source every time. A staging
/// copy carries no origin, and an imported one carries the origin it is named after.
pub fn sync_bucket(bucket: &Bucket, is_push: bool) -> (r: Bucket)
    requires
        is_push || origin_of(bucket.deep_view()) is Some,
    ensures
        r.deep_view() == destination(bucket.deep_view(), is_push),
        writes_object(bucket.data.text@) ==> string_at(r.data.deep_view(), SYNC_ORIGIN_KEY@) == (
        if is_push {
            None
        } else {
            origin_of(bucket.deep_view())
        }),
{
    let ghost bv = bucket.deep_view();
    let mut want = bucket.clone();
    if is_push {
        let text = remove_member(bucket.data.text.as_str(), SYNC_ORIGIN_KEY);
        proof {
            if text is Some {
                data_keeps_absence(text->0@, SYNC_ORIGIN_KEY@);
            }
        }
        want.data = reread(text, &bucket.data);
    } else {
        match sync_origin(bucket) {
            Some(origin) => {
                let mut id = match text::find(bucket.id.as_str(), SYNCED_FROM) {
                    Some(i) => {
                        let p = text::part(bucket.id.as_str(), 0, i);
                        assert(p@ =~= bucket.id@.take(i as int));
                        p
                    },
                    None => bucket.id.clone(),
                };
                id.append(SYNCED_FROM);
                id.append(origin.as_str());
                want.id = id;
                let text = set_member(
                    bucket.data.text.as_str(),
                    SYNC_ORIGIN_KEY,
                    origin.as_str(),
                );
                proof {
                    if text is Some {
                        data_keeps_strings(text->0@, SYNC_ORIGIN_KEY@, origin@);
                    }
                }
                want.data = reread(text, &bucket.data);
            },
            None => {
                assert(false);
            },
        }
    }
    assert(want.deep_view() =~= destination(bv, is_push));
    want
}

/// The bucket to sync `bucket` into; `None` where it is imported and its metadata gives an origin
/// that is no text.
pub fn checked_sync_bucket(bucket: &Bucket, is_push: bool) -> (r: Option<Bucket>)
    ensures
        match r {
            Some(b) => (is_push || origin_of(bucket.deep_view()) is Some) && b.deep_view()
                == destination(bucket.deep_view(), is_push) && (writes_object(bucket.data.text@)
                ==> string_at(b.data.deep_view(), SYNC_ORIGIN_KEY@) == (if is_push {
                None
            } else {
                origin_of(bucket.deep_view())
            })),
            None => !is_push && origin_of(bucket.deep_view()) is None,
        },
{
    if is_push || sync_origin(bucket).is_some() {
        Some(sync_bucket(bucket, is_push))
    } else {
        None
    }
}

/// Whether what describes a bucket has drifted. The id, the times and the events are no part of it.
pub open spec fn drifted(have: SyncBucketV, want: SyncBucketV) -> bool {
    have.hostname != want.hostname || have.client != want.client || have.bucket_type
        != want.bucket_type || !same_data(have.data, want.data)
}

pub fn bucket_metadata_differs(have: &Bucket, want: &Bucket) -> (r: bool)
    ensures
        r == drifted(have.deep_view(), want.deep_view()),
{
    have.hostname != want.hostname || have.client != want.client || have.bucket_type
        != want.bucket_type || !have.data.same(&want.data)
}

/// What to do about the bucket to sync into.
#[derive(Clone, Copy, Debug, PartialEq, Eq, Structural)]
pub enum BucketAction {
    /// There is none: create it.
    Create,
    /// Its description has drifted from the source: refresh it. A device that corrected its own
    /// name could otherwise never correct what it had already staged.
    Refresh,
    /// It is as it should be.
    Keep,
}

/// What to do about the bucket to sync into, given the one that is there.
pub fn get_or_create_sync_bucket(have: Option<&Bucket>, want: &Bucket) -> (r: BucketAction)
    ensures
        r == match have {
            None => BucketAction::Create,
            Some(h) => if drifted(h.deep_view(), want.deep_view()) {
                BucketAction::Refresh
            } else {
                BucketAction::Keep
            },
        },
{
    match have {
        None => BucketAction::Create,
        Some(h) => if bucket_metadata_differs(h, want) {
            BucketAction::Refresh
        } else {
            BucketAction::Keep
        },
    }
}

/// One bucket to copy, and the bucket to copy it into, as it should be. There is none to copy into
/// where the source gives an origin that is no text.
#[derive(Debug)]
pub struct BucketJob {
    pub from: Bucket,
    pub into: Option<Bucket>,
}

#[verifier::ext_equal]
pub struct BucketJobV {
    pub from: SyncBucketV,
    pub into: Option<SyncBucketV>,
}

impl DeepView for BucketJob {
    type V = BucketJobV;

    open spec fn deep_view(&self) -> BucketJobV {
        BucketJobV { from: self.from.deep_view(), into: self.into.deep_view() }
    }
}

/// Which buckets to copy, and the device to record on each event copied.
#[derive(Debug)]
pub struct SyncPlan {
    pub jobs: Vec<BucketJob>,
    pub origin: Option<String>,
}

/// What is to be done with one bucket.
pub open spec fn job_for(b: SyncBucketV, is_push: bool) -> BucketJobV {
    BucketJobV {
        from: b,
        into: if is_push || origin_of(b) is Some {
            Some(destination(b, is_push))
        } else {
            None
        },
    }
}

pub open spec fn jobs_for(buckets: Seq<SyncBucketV>, is_push: bool) -> Seq<BucketJobV> {
    Seq::new(buckets.len(), |i: int| job_for(buckets[i], is_push))
}

/// What to copy from one datastore to another, given the buckets of the first. Nothing is recorded
/// on the way out: a staging copy is data this device offers as its own, and a tag on it would come
/// back from a peer as provenance it never had.
pub fn sync_datastores(
    buckets: &Vec<Bucket>,
    ids: &Option<Vec<String>>,
    is_push: bool,
    source: Option<&str>,
) -> (r: SyncPlan)
    ensures
        ({
            let sv = match source {
                Some(s) => Some(s@),
                None => None,
            };
            &&& r.jobs.deep_view() == jobs_for(
                arranged::<Bucket>(
                    chosen(buckets.deep_view(), ids.deep_view(), sv, buckets.len() as int),
                ),
                is_push,
            )
            &&& r.origin.deep_view() == if is_push {
                None
            } else {
                sv
            }
        }),
{
    let picked = select_buckets(buckets, ids, source);
    let ghost pv = picked.deep_view();
    let ghost goal = jobs_for(pv, is_push);
    assert(pv.len() == picked.len());
    let mut jobs: Vec<BucketJob> = Vec::new();
    assert(jobs.deep_view() =~= goal.take(0));
    let mut i: usize = 0;
    while i < picked.len()
        invariant
            i <= picked.len(),
            pv == picked.deep_view(),
            pv.len() == picked.len(),
            goal == jobs_for(pv, is_push),
            jobs.deep_view() == goal.take(i as int),
        decreases picked.len() - i,
    {
        assert(pv[i as int] == picked@[i as int].deep_view());
        let into = checked_sync_bucket(&picked[i], is_push);
        let job = BucketJob { from: picked[i].clone(), into };
        assert(job.deep_view() =~= goal[i as int]);
        list::push(&mut jobs, job);
        i = i + 1;
        assert(jobs.deep_view() =~= goal.take(i as int));
    }
    assert(jobs.deep_view() =~= goal);
    let origin = match source {
        Some(device) => if is_push {
            None
        } else {
            Some(device.to_owned())
        },
        None => None,
    };
    SyncPlan { jobs, origin }
}

proof fn chosen_are_first_hand(
    buckets: Seq<SyncBucketV>,
    ids: Option<Seq<Seq<char>>>,
    source: Option<Seq<char>>,
    n: int,
    b: SyncBucketV,
)
    requires
        0 <= n <= buckets.len(),
    ensures
        chosen(buckets, ids, source, n).contains(b) <==> exists|k: int|
            #![trigger buckets[k]]
            0 <= k < n && !second_hand(buckets[k]) && asked_for(buckets[k].id, ids) && b
                == with_hostname(buckets[k], source),
    decreases n,
{
    if n > 0 {
        chosen_are_first_hand(buckets, ids, source, n - 1, b);
        let rest = chosen(buckets, ids, source, n - 1);
        let all = chosen(buckets, ids, source, n);
        let last = buckets[n - 1];
        if !second_hand(last) && asked_for(last.id, ids) {
            if rest.contains(b) {
                let k = choose|k: int| 0 <= k < rest.len() && rest[k] == b;
                assert(all[k] == b);
            }
            assert(all[rest.len() as int] == with_hostname(last, source));
        }
    }
}

/// Data is only ever exchanged first-hand: what is synced is every bucket that its own device
/// collected and that is asked for, and no bucket that is itself a copy.
pub proof fn only_first_hand_data_is_exchanged(
    buckets: Seq<SyncBucketV>,
    ids: Option<Seq<Seq<char>>>,
    source: Option<Seq<char>>,
    b: SyncBucketV,
)
    ensures
        ({
            let picked = arranged::<Bucket>(chosen(buckets, ids, source, buckets.len() as int));
            &&& picked.contains(b) ==> !second_hand(b)
            &&& picked.contains(b) <==> exists|k: int|
                #![trigger buckets[k]]
                0 <= k < buckets.len() && !second_hand(buckets[k]) && asked_for(buckets[k].id, ids)
                    && b == with_hostname(buckets[k], source)
        }),
{
    let n = buckets.len() as int;
    arranged_contains::<Bucket>(chosen(buckets, ids, source, n), b);
    chosen_are_first_hand(buckets, ids, source, n, b);
}

/// What was imported is a copy, whatever it was imported from, so it is never passed on.
pub proof fn an_import_is_never_passed_on(b: SyncBucketV)
    requires
        origin_of(b) is Some,
    ensures
        second_hand(destination(b, false)),
{
    let front = first_hand_id(b.id);
    let id = destination(b, false).id;
    let from = front.len() as int;
    assert(id.subrange(from, from + SYNCED_FROM@.len()) =~= SYNCED_FROM@);
    assert(text::occurs_at(id, SYNCED_FROM@, from));
    text::find_from_sound(id, SYNCED_FROM@, 0);
}

/// An event with the device it was collected on recorded in its data, where that device is known
/// and nothing is recorded yet.
pub open spec fn tagged(e: EventV, origin: Option<Seq<char>>) -> EventV {
    match origin {
        Some(device) => match document(e.data.text) {
            Some(d) => if member(d.value, EVENT_ORIGIN_KEY@) is Some {
                e
            } else {
                EventV {
                    data: data_or(text_with(e.data.text, EVENT_ORIGIN_KEY@, device), e.data),
                    ..e
                }
            },
            None => e,
        },
        None => e,
    }
}

/// Where the first member of a name is a text, it is the first string member of that name.
proof fn first_string(members: Seq<Member>, key: Seq<char>, i: int, n: int)
    requires
        0 <= i < n <= members.len(),
        members[i].key@ == key,
        text_of(members[i].value) is Some,
        forall|j: int| 0 <= j < i ==> (#[trigger] members[j]).key@ != key,
    ensures
        string_from(string_members(members, n), key, 0) == text_of(members[i].value),
    decreases n,
{
    let all = string_members(members, n);
    if n - 1 > i {
        first_string(members, key, i, n - 1);
        let rest = string_members(members, n - 1);
        if let Some(s) = text_of(members[n - 1].value) {
            string_from_push(rest, (members[n - 1].key@, s), key, 0);
        }
    } else {
        let rest = string_members(members, n - 1);
        no_string(members, key, n - 1);
        let s = text_of(members[i].value)->0;
        assert(all == rest.push((key, s)));
        string_from_last(rest, s, key, 0);
    }
}

proof fn no_string(members: Seq<Member>, key: Seq<char>, n: int)
    requires
        0 <= n <= members.len(),
        forall|j: int| 0 <= j < n ==> (#[trigger] members[j]).key@ != key,
    ensures
        forall|k: int|
            0 <= k < string_members(members, n).len() ==> (#[trigger] string_members(
                members,
                n,
            )[k]).0 != key,
    decreases n,
{
    if n > 0 {
        no_string(members, key, n - 1);
        let rest = string_members(members, n - 1);
        let all = string_members(members, n);
        assert(members[n - 1].key@ != key);
        assert forall|k: int| 0 <= k < all.len() implies (#[trigger] all[k]).0 != key by {
            if k < rest.len() {
                assert(all[k] == rest[k]);
            }
        }
    }
}

proof fn string_from_push(
    strings: Seq<(Seq<char>, Seq<char>)>,
    more: (Seq<char>, Seq<char>),
    key: Seq<char>,
    i: int,
)
    requires
        0 <= i,
        string_from(strings, key, i) is Some,
    ensures
        string_from(strings.push(more), key, i) == string_from(strings, key, i),
    decreases strings.len() - i,
{
    if i < strings.len() && strings[i].0 != key {
        string_from_push(strings, more, key, i + 1);
    }
}

proof fn string_from_last(
    strings: Seq<(Seq<char>, Seq<char>)>,
    value: Seq<char>,
    key: Seq<char>,
    i: int,
)
    requires
        0 <= i <= strings.len(),
        forall|k: int| 0 <= k < strings.len() ==> (#[trigger] strings[k]).0 != key,
    ensures
        string_from(strings.push((key, value)), key, i) == Some(value),
    decreases strings.len() - i,
{
    if i < strings.len() {
        assert(strings[i].0 != key);
        string_from_last(strings, value, key, i + 1);
    }
}

proof fn found_first(members: Seq<Member>, key: Seq<char>, i: int) -> (k: int)
    requires
        0 <= i,
        find_from(members, key, i) is Some,
    ensures
        i <= k < members.len(),
        members[k].key@ == key,
        find_from(members, key, i) == Some(members[k].value),
        forall|j: int| i <= j < k ==> (#[trigger] members[j]).key@ != key,
    decreases members.len() - i,
{
    if members[i].key@ == key {
        i
    } else {
        found_first(members, key, i + 1)
    }
}

/// The data that a text writes has the string members that the text writes.
pub proof fn data_keeps_strings(text: Seq<char>, key: Seq<char>, value: Seq<char>)
    requires
        writes_object(text),
        string_member(text, key) == Some(value),
    ensures
        data_from(text) matches Some(d) && string_at(d, key) == Some(value),
{
    let d = document(text)->0;
    if let Json::Object(members) = d.value {
        let k = found_first(members@, key, 0);
        first_string(members@, key, k, members@.len() as int);
    }
}

/// Where nothing is found under a name, nothing stands under it.
proof fn found_nowhere(members: Seq<Member>, key: Seq<char>, i: int)
    requires
        0 <= i <= members.len(),
        find_from(members, key, i) is None,
    ensures
        forall|j: int| i <= j < members.len() ==> (#[trigger] members[j]).key@ != key,
    decreases members.len() - i,
{
    if i < members.len() {
        found_nowhere(members, key, i + 1);
    }
}

proof fn string_nowhere(strings: Seq<(Seq<char>, Seq<char>)>, key: Seq<char>, i: int)
    requires
        forall|k: int| 0 <= k < strings.len() ==> (#[trigger] strings[k]).0 != key,
    ensures
        string_from(strings, key, i) is None,
    decreases strings.len() - i,
{
    if 0 <= i < strings.len() {
        string_nowhere(strings, key, i + 1);
    }
}

/// The data that a text writes has no string member under a name that the text does not use.
pub proof fn data_keeps_absence(text: Seq<char>, key: Seq<char>)
    requires
        writes_object(text),
        member(document(text)->0.value, key) is None,
    ensures
        data_from(text) matches Some(d) && string_at(d, key) is None,
{
    let d = document(text)->0;
    if let Json::Object(members) = d.value {
        found_nowhere(members@, key, 0);
        no_string(members@, key, members@.len() as int);
        string_nowhere(string_members(members@, members@.len() as int), key, 0);
    }
}

/// Record on an imported event which device collected it.
///
/// A tag that is there already is left alone: it is a truer statement of where the event came from
/// than the folder this copy was read out of. An event without one comes out tagged, and is then
/// resolved to that device.
pub fn tag_origin(event: &mut Event, origin: Option<&str>)
    ensures
        final(event).deep_view() == tagged(
            old(event).deep_view(),
            match origin {
                Some(s) => Some(s@),
                None => None,
            },
        ),
        origin matches Some(s) && writes_object(old(event).data.text@) && (document(
            old(event).data.text@,
        ) matches Some(d) && member(d.value, EVENT_ORIGIN_KEY@) is None) ==> string_at(
            final(event).data.deep_view(),
            EVENT_ORIGIN_KEY@,
        ) == Some(origin->0@),
{
    let ghost before = event.deep_view();
    let device = match origin {
        Some(device) => device,
        None => {
            return;
        },
    };
    match read_document(event.data.text.as_str()) {
        Some(d) => {
            if d.value.get(EVENT_ORIGIN_KEY).is_none() {
                let text = set_member(event.data.text.as_str(), EVENT_ORIGIN_KEY, device);
                proof {
                    if text is Some {
                        data_keeps_strings(text->0@, EVENT_ORIGIN_KEY@, device@);
                    }
                }
                let data = reread(text, &event.data);
                event.data = data;
            }
        },
        None => {},
    }
    assert(event.deep_view() =~= tagged(before, Some(device@)));
}

/// Where a bucket's sync resumes: at the end of the last event that is there, or else where the
/// caller wants to start.
pub fn resume_at(last: Option<&Event>, start: Option<Instant>) -> (r: Option<Instant>)
    requires
        last matches Some(e) ==> in_range(e.timestamp@ + e.duration@),
    ensures
        match last {
            Some(e) => r matches Some(t) && t@ == e.timestamp@ + e.duration@,
            None => r == start,
        },
{
    match last {
        Some(e) => e.timestamp.plus(e.duration),
        None => start,
    }
}

/// An event as it is copied: without its id, which means something only where it came from, and
/// with its origin recorded.
pub open spec fn copied_event(e: EventV, origin: Option<Seq<char>>) -> EventV {
    tagged(EventV { id: None, ..e }, origin)
}

pub open spec fn copied_events(events: Seq<EventV>, origin: Option<Seq<char>>) -> Seq<EventV> {
    Seq::new(events.len(), |i: int| copied_event(events[i], origin))
}

/// How many of the first `n` events stand before the run of events that share the timestamp `t`
/// with the last of them.
pub open spec fn before_run(events: Seq<EventV>, t: int, n: int) -> int
    decreases n,
{
    if n <= 0 {
        0
    } else if events[n - 1].timestamp == t {
        before_run(events, t, n - 1)
    } else {
        n
    }
}

/// How many events of a full page are written now. The run that the page ends in is left for the
/// next page, since it may go on there; unless it is the whole page.
pub open spec fn page_length(page: Seq<EventV>) -> int {
    let t = page.last().timestamp;
    if page[0].timestamp == t {
        page.len() as int
    } else {
        before_run(page, t, page.len() as int)
    }
}

/// Where the next page ends.
pub open spec fn next_end(page: Seq<EventV>) -> int {
    let t = page.last().timestamp;
    if page[0].timestamp == t {
        t - 1
    } else {
        t
    }
}

/// What to do with a page of events.
#[derive(Debug)]
pub enum PageStep {
    /// Nothing is left to fetch.
    Done,
    /// Insert these, oldest first, and fetch the page that ends here.
    Insert(Vec<Event>, Instant),
    /// The last page. The oldest event goes in as a heartbeat, where one is given, so that it can
    /// extend the event that is there; then the rest are inserted, oldest first.
    Last(Option<Event>, Vec<Event>),
}

#[verifier::ext_equal]
pub enum PageStepV {
    Done,
    Insert(Seq<EventV>, int),
    Last(Option<EventV>, Seq<EventV>),
}

impl DeepView for PageStep {
    type V = PageStepV;

    open spec fn deep_view(&self) -> PageStepV {
        match self {
            PageStep::Done => PageStepV::Done,
            PageStep::Insert(events, end) => PageStepV::Insert(events.deep_view(), end@),
            PageStep::Last(first, events) => PageStepV::Last(
                first.deep_view(),
                events.deep_view(),
            ),
        }
    }
}

/// What to do with a page of events, newest first, fetched `batch` at a time. Fewer than asked for
/// means that nothing older is left. Only a single page can extend the event that is there: behind
/// a page that was written, the event that is there is another.
pub open spec fn step_for(
    page: Seq<EventV>,
    batch: int,
    first_page: bool,
    origin: Option<Seq<char>>,
) -> PageStepV {
    if page.len() == 0 {
        PageStepV::Done
    } else if page.len() < batch {
        let asc = copied_events(page, origin).reverse();
        if first_page {
            PageStepV::Last(Some(asc[0]), asc.skip(1))
        } else {
            PageStepV::Last(None, asc)
        }
    } else {
        PageStepV::Insert(
            copied_events(page.take(page_length(page)), origin).reverse(),
            next_end(page),
        )
    }
}

pub proof fn before_run_bounds(events: Seq<EventV>, t: int, n: int)
    requires
        0 <= n <= events.len(),
    ensures
        0 <= before_run(events, t, n) <= n,
        before_run(events, t, n) > 0 ==> events[before_run(events, t, n) - 1].timestamp != t,
        forall|i: int| before_run(events, t, n) <= i < n ==> (#[trigger] events[i]).timestamp == t,
    decreases n,
{
    if n > 0 && events[n - 1].timestamp == t {
        before_run_bounds(events, t, n - 1);
    }
}

/// The first `n` events of a page as they are copied, oldest first.
fn copy_reversed(page: Vec<Event>, n: usize, origin: Option<&str>) -> (r: Vec<Event>)
    requires
        n <= page.len(),
    ensures
        r.deep_view() == copied_events(
            page.deep_view().take(n as int),
            match origin {
                Some(s) => Some(s@),
                None => None,
            },
        ).reverse(),
{
    let ghost pv = page.deep_view();
    let ghost ov = match origin {
        Some(s) => Some(s@),
        None => None,
    };
    let mut page = page;
    page.truncate(n);
    let ghost kept = pv.take(n as int);
    assert(page.deep_view() =~= kept);
    let mut out: Vec<Event> = Vec::new();
    let ghost goal = copied_events(kept, ov).reverse();
    assert(out.deep_view() =~= goal.take(0));
    while page.len() > 0
        invariant
            page.len() <= n,
            n == kept.len(),
            page.deep_view() == kept.take(page.len() as int),
            ov == match origin {
                Some(s) => Some(s@),
                None => None,
            },
            goal == copied_events(kept, ov).reverse(),
            out.deep_view() == goal.take(n - page.len()),
        decreases page.len(),
    {
        let ghost before = page.deep_view();
        let ghost m = page.len() as int;
        match page.pop() {
            Some(e) => {
                let mut e = e;
                assert(e.deep_view() == before[m - 1]);
                assert(before[m - 1] == kept[m - 1]);
                assert(page.deep_view() =~= kept.take(m - 1));
                e.id = None;
                assert(e.deep_view() =~= EventV { id: None, ..kept[m - 1] });
                tag_origin(&mut e, origin);
                assert(goal[n - m] == copied_event(kept[m - 1], ov));
                list::push(&mut out, e);
                assert(out.deep_view() =~= goal.take(n - page.len()));
            },
            None => {
                assert(false);
            },
        }
    }
    assert(out.deep_view() =~= goal);
    out
}

/// What to do with a page of events, newest first, fetched `batch` at a time.
///
/// A full page may end in the middle of a run of events with one timestamp. That run is dropped
/// from the page and fetched again, whole, with the next one, which ends at that timestamp.
/// A page that is all one run is taken as it is, rather than fetched for ever.
pub fn sync_one(page: Vec<Event>, batch: usize, first_page: bool, origin: Option<&str>) -> (r:
    PageStep)
    requires
        batch > 0,
        page.len() >= batch && page[0].timestamp@ == page[page.len() - 1].timestamp@
            ==> page[0].timestamp@ > MIN_NANOS,
    ensures
        r.deep_view() == step_for(
            page.deep_view(),
            batch as int,
            first_page,
            match origin {
                Some(s) => Some(s@),
                None => None,
            },
        ),
{
    let ghost pv = page.deep_view();
    let ghost ov = match origin {
        Some(s) => Some(s@),
        None => None,
    };
    let n: usize = page.len();
    assert(pv.len() == n);
    if n == 0 {
        return PageStep::Done;
    }
    assert(pv[n - 1] == page@[n - 1].deep_view());
    assert(pv[0] == page@[0].deep_view());
    if n < batch {
        assert(pv.take(n as int) =~= pv);
        let mut asc = copy_reversed(page, n, origin);
        let ghost all = asc.deep_view();
        assert(all.len() == asc.len());
        if first_page {
            let oldest = asc.remove(0);
            assert(oldest.deep_view() == all[0]);
            assert(asc.deep_view() =~= all.skip(1));
            return PageStep::Last(Some(oldest), asc);
        }
        return PageStep::Last(None, asc);
    }
    let boundary = page[n - 1].timestamp;
    if page[0].timestamp == boundary {
        let end = boundary.plus(Duration { nanos: -1 });
        let _ = boundary.nanos();
        match end {
            Some(end) => {
                let asc = copy_reversed(page, n, origin);
                PageStep::Insert(asc, end)
            },
            None => {
                assert(false);
                PageStep::Done
            },
        }
    } else {
        let mut k: usize = n;
        while k > 0 && page[k - 1].timestamp == boundary
            invariant
                k <= n,
                n == page.len(),
                pv == page.deep_view(),
                before_run(pv, boundary@, n as int) == before_run(pv, boundary@, k as int),
            decreases k,
        {
            assert(pv[k - 1] == page@[k - 1].deep_view());
            k = k - 1;
        }
        if k > 0 {
            assert(pv[k - 1] == page@[k - 1].deep_view());
        }
        let asc = copy_reversed(page, k, origin);
        PageStep::Insert(asc, boundary)
    }
}

/// Events listed newest first.
pub open spec fn newest_first(events: Seq<EventV>) -> bool {
    forall|i: int, j: int|
        0 <= i < j < events.len() ==> (#[trigger] events[j]).timestamp <= (
        #[trigger] events[i]).timestamp
}

/// What a source answers when asked for the events behind the first `k`, at most `batch` of them.
pub open spec fn page_at(source: Seq<EventV>, k: int, batch: int) -> Seq<EventV> {
    let rest = source.skip(k);
    if rest.len() < batch {
        rest
    } else {
        rest.take(batch)
    }
}

/// Whether the events no later than `end` are those behind the first `k`.
pub open spec fn ends_at(source: Seq<EventV>, k: int, end: int) -> bool {
    forall|i: int| 0 <= i < source.len() ==> ((#[trigger] source[i]).timestamp <= end <==> i >= k)
}

/// The next page begins exactly where this one stopped writing: asked for the events no later than
/// the end it was given, the source answers with what has not been written yet.
pub proof fn the_next_page_goes_on_where_this_one_stopped(
    source: Seq<EventV>,
    k: int,
    batch: int,
)
    requires
        newest_first(source),
        0 <= k,
        0 < batch,
        k + batch <= source.len(),
        source[k].timestamp != source[k + batch - 1].timestamp,
    ensures
        ({
            let page = page_at(source, k, batch);
            &&& 0 < page_length(page) < batch
            &&& ends_at(source, k + page_length(page), next_end(page))
        }),
{
    let page = page_at(source, k, batch);
    let t = page.last().timestamp;
    assert(page.len() == batch);
    assert(page[0] == source[k]);
    assert(page.last() == source[k + batch - 1]);
    before_run_bounds(page, t, batch);
    let c = page_length(page);
    assert(c > 0) by {
        if c == 0 {
            assert(page[0].timestamp == t);
        }
    }
    assert(c < batch) by {
        if c == batch {
            assert(page[batch - 1].timestamp != t);
        }
    }
    assert forall|i: int| 0 <= i < source.len() implies ((#[trigger] source[i]).timestamp
        <= next_end(page) <==> i >= k + c) by {
        assert(page[c - 1] == source[k + c - 1]);
        assert(page[c] == source[k + c]);
        assert(source[k + c - 1].timestamp >= source[k + batch - 1].timestamp);
        if i < k + c - 1 {
            assert(source[i].timestamp >= source[k + c - 1].timestamp);
        }
        if i > k + c {
            assert(source[i].timestamp <= source[k + c].timestamp);
        }
    }
}

/// What is written for a source, page by page, newest page first, each page newest first: the
/// pages' events as step_for keeps them.
pub open spec fn written_pages(source: Seq<EventV>, k: int, batch: int) -> Seq<EventV>
    decreases source.len() - k,
{
    if batch <= 0 || k < 0 || k >= source.len() {
        Seq::empty()
    } else {
        let page = page_at(source, k, batch);
        if page.len() < batch {
            page
        } else if page_length(page) <= 0 || k + page_length(page) > source.len() {
            Seq::empty()
        } else {
            page.take(page_length(page)) + written_pages(source, k + page_length(page), batch)
        }
    }
}

/// No `batch` events share one timestamp.
pub open spec fn no_long_run(source: Seq<EventV>, batch: int) -> bool {
    forall|i: int|
        0 <= i && i + batch <= source.len() ==> (#[trigger] source[i]).timestamp != source[i + batch
            - 1].timestamp
}

/// Every event of the source is written exactly once, in order, however the pages fall, as long as
/// no page's worth of events shares one timestamp.
pub proof fn every_event_is_copied_once(source: Seq<EventV>, k: int, batch: int)
    requires
        newest_first(source),
        0 < batch,
        no_long_run(source, batch),
        0 <= k <= source.len(),
    ensures
        written_pages(source, k, batch) == source.skip(k),
    decreases source.len() - k,
{
    if k < source.len() {
        let page = page_at(source, k, batch);
        if page.len() == batch {
            assert(source[k].timestamp != source[k + batch - 1].timestamp);
            the_next_page_goes_on_where_this_one_stopped(source, k, batch);
            let c = page_length(page);
            every_event_is_copied_once(source, k + c, batch);
            assert(page.take(c) + source.skip(k + c) =~= source.skip(k));
        } else {
            assert(page =~= source.skip(k));
        }
    } else {
        assert(source.skip(k) =~= Seq::empty());
    }
}

} // verus!
