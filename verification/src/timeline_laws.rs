//! What the answer to a request says, of what is stored and of what was asked.

use vstd::prelude::*;

use crate::block_laws::{
    drawn_blocks_are_in_good_order, in_good_order, segments_are_in_good_order, share_follows,
};
use crate::coalesce::{all_seeded, coalesced, folded, folded_has_shares, folded_sound};
use crate::day_laws::{cut_is_blank, first_marker, marked_at};
use crate::decision::{merged, RecordV};
use crate::exclude::{full_pattern, usable, RuleV};
use crate::json::{member, text_without, Json};
use crate::list;
use crate::model::{
    attributed, label, others, share_ms, string_at, under, BucketV, DataV, EventV, InputV, SegmentV,
    SliceV,
};
use crate::normalise::{bucket_device, peer_in, SYNCED_FROM};
use crate::order::{arranged, arranged_contains, arranged_keeps};
use crate::pipeline::{computed, one_activity_counts_at_any_instant};
use crate::smooth::rounded;
use crate::text;
use crate::time::{whole_millis, whole_seconds};
use crate::timeline::{
    activity_in, background_of, behind, blocks_of, candidate_in, counts, idle_events, idle_in,
    input_for, named_by_buckets, names_known, own_names, rules_in, rules_of, sliver_asked,
    texts_in, the_totals_do_not_depend_on_the_threshold, timeline_of, uncounts, BackgroundV,
    StoredBucket, StoredV, TimelineRequest,
};

verus! {

/// Whether a stored bucket holds activity.
pub open spec fn holds_activity() -> spec_fn(StoredV) -> bool {
    |b: StoredV| b.bucket_type == "currentwindow"@
}

/// Whether a stored bucket tells idle time.
pub open spec fn tells_idle() -> spec_fn(StoredV) -> bool {
    |b: StoredV| b.bucket_type == "afkstatus"@
}

/// Whether an event is a time away.
pub open spec fn away() -> spec_fn(EventV) -> bool {
    |e: EventV| string_at(e.data, "status"@) == Some("afk"@)
}

/// A stored bucket with all its events.
pub open spec fn whole_bucket() -> spec_fn(StoredV) -> BucketV {
    |b: StoredV| BucketV { bucket_id: b.bucket_id, events: b.events }
}

/// A stored bucket with its times away.
pub open spec fn away_bucket() -> spec_fn(StoredV) -> BucketV {
    |b: StoredV| BucketV { bucket_id: b.bucket_id, events: b.events.filter(away()) }
}

proof fn activity_is_filtered(stored: Seq<StoredV>, n: int)
    requires
        0 <= n <= stored.len(),
    ensures
        activity_in(stored, n) == stored.take(n).filter(holds_activity()).map_values(
            whole_bucket(),
        ),
    decreases n,
{
    reveal(Seq::filter);
    if n > 0 {
        activity_is_filtered(stored, n - 1);
        assert(stored.take(n).drop_last() =~= stored.take(n - 1));
        assert(activity_in(stored, n) =~= stored.take(n).filter(holds_activity()).map_values(
            whole_bucket(),
        ));
    } else {
        assert(activity_in(stored, n) =~= stored.take(n).filter(holds_activity()).map_values(
            whole_bucket(),
        ));
    }
}

proof fn idle_events_are_filtered(events: Seq<EventV>, n: int)
    requires
        0 <= n <= events.len(),
    ensures
        idle_events(events, n) == events.take(n).filter(away()),
    decreases n,
{
    reveal(Seq::filter);
    if n > 0 {
        idle_events_are_filtered(events, n - 1);
        assert(events.take(n).drop_last() =~= events.take(n - 1));
    } else {
        assert(idle_events(events, n) =~= events.take(n).filter(away()));
    }
}

proof fn idle_is_filtered(stored: Seq<StoredV>, n: int)
    requires
        0 <= n <= stored.len(),
    ensures
        idle_in(stored, n) == stored.take(n).filter(tells_idle()).map_values(away_bucket()),
    decreases n,
{
    reveal(Seq::filter);
    if n > 0 {
        idle_is_filtered(stored, n - 1);
        assert(stored.take(n).drop_last() =~= stored.take(n - 1));
        let b = stored[n - 1];
        idle_events_are_filtered(b.events, b.events.len() as int);
        assert(b.events.take(b.events.len() as int) =~= b.events);
        assert(idle_in(stored, n) =~= stored.take(n).filter(tells_idle()).map_values(
            away_bucket(),
        ));
    } else {
        assert(idle_in(stored, n) =~= stored.take(n).filter(tells_idle()).map_values(
            away_bucket(),
        ));
    }
}

/// Every stored bucket of activity goes into a day, with every event it has, and every stored bucket
/// that tells idle time, with every time away it has: each once, by id, and nothing else does.
pub proof fn every_stored_bucket_goes_in(
    req: TimelineRequest,
    stored: Seq<StoredV>,
    records: Seq<RecordV>,
    classes: Option<Json>,
)
    ensures
        ({
            let input = input_for(req, stored, records, classes);
            let sorted = arranged::<StoredBucket>(stored);
            &&& sorted.to_multiset() == stored.to_multiset()
            &&& input.activity == sorted.filter(holds_activity()).map_values(whole_bucket())
            &&& input.idle == sorted.filter(tells_idle()).map_values(away_bucket())
            &&& forall|k: int|
                0 <= k < stored.len() && (#[trigger] stored[k]).bucket_type == "currentwindow"@
                    ==> input.activity.contains(whole_bucket()(stored[k]))
            &&& forall|k: int|
                0 <= k < stored.len() && (#[trigger] stored[k]).bucket_type == "afkstatus"@
                    ==> input.idle.contains(away_bucket()(stored[k]))
            &&& input.own_device == req.own_device@
            &&& input.min_contention == 60_000_000_000
            &&& input.decisions == merged(records)
        }),
{
    let input = input_for(req, stored, records, classes);
    let sorted = arranged::<StoredBucket>(stored);
    let n = sorted.len() as int;
    arranged_keeps::<StoredBucket>(stored);
    activity_is_filtered(sorted, n);
    idle_is_filtered(sorted, n);
    assert(sorted.take(n) =~= sorted);
    assert forall|k: int|
        0 <= k < stored.len() && (#[trigger] stored[k]).bucket_type
            == "currentwindow"@ implies input.activity.contains(whole_bucket()(stored[k])) by {
        arranged_contains::<StoredBucket>(stored, stored[k]);
        assert(stored.contains(stored[k]));
        kept_and_mapped(sorted, holds_activity(), whole_bucket(), stored[k]);
    }
    assert forall|k: int|
        0 <= k < stored.len() && (#[trigger] stored[k]).bucket_type
            == "afkstatus"@ implies input.idle.contains(away_bucket()(stored[k])) by {
        arranged_contains::<StoredBucket>(stored, stored[k]);
        assert(stored.contains(stored[k]));
        kept_and_mapped(sorted, tells_idle(), away_bucket(), stored[k]);
    }
}

proof fn kept_and_mapped(
    s: Seq<StoredV>,
    p: spec_fn(StoredV) -> bool,
    f: spec_fn(StoredV) -> BucketV,
    x: StoredV,
)
    requires
        s.contains(x),
        p(x),
    ensures
        s.filter(p).map_values(f).contains(f(x)),
{
    broadcast use vstd::seq_lib::group_filter_ensures;

    let i = choose|i: int| 0 <= i < s.len() && s[i] == x;
    assert(s.filter(p).contains(s[i]));
    let k = choose|k: int| 0 <= k < s.filter(p).len() && s.filter(p)[k] == x;
    assert(s.filter(p).map_values(f)[k] == f(x));
}

/// While a device is away, as one of its stored buckets tells, a day shows nothing of that device:
/// no slice of it lies in any segment at that moment.
pub proof fn a_day_shows_nothing_of_a_device_that_is_away(
    req: TimelineRequest,
    stored: Seq<StoredV>,
    records: Seq<RecordV>,
    classes: Option<Json>,
    b: int,
    e: int,
    t: int,
    i: int,
    k: int,
)
    requires
        0 <= b < stored.len(),
        stored[b].bucket_type == "afkstatus"@,
        0 <= e < stored[b].events.len(),
        away()(stored[b].events[e]),
        stored[b].events[e].timestamp <= t < stored[b].events[e].timestamp
            + stored[b].events[e].duration,
        ({
            let day = computed(input_for(req, stored, records, classes));
            0 <= i < day.len() && day[i].start <= t < day[i].end && 0 <= k < day[i].active.len()
        }),
    ensures
        ({
            let input = input_for(req, stored, records, classes);
            let bucket = away_bucket()(stored[b]);
            computed(input)[i].active[k].device != crate::day_laws::device_of(input, bucket)
        }),
{
    broadcast use vstd::seq_lib::group_filter_ensures;

    let input = input_for(req, stored, records, classes);
    let bucket = away_bucket()(stored[b]);
    let event = stored[b].events[e];
    every_stored_bucket_goes_in(req, stored, records, classes);
    assert(input.idle.contains(bucket));
    let p = choose|p: int| 0 <= p < input.idle.len() && input.idle[p] == bucket;
    assert(bucket.events.contains(stored[b].events[e]));
    let q = choose|q: int| 0 <= q < bucket.events.len() && bucket.events[q] == event;
    let device = crate::day_laws::device_of(input, bucket);
    assert(crate::day_laws::goes_on(input.idle[p].events[q], t));
    assert(crate::day_laws::idle_at(input, device, t));
    crate::day_laws::the_day_shows_what_went_on(input, i, t);
    let s = computed(input)[i].active[k];
    let (x, y) = choose|x: int, y: int| #[trigger]
        crate::day_laws::shows_at(input, x, y, t) && crate::day_laws::cut_from(input, s, x, y, t);
    assert(!crate::day_laws::idle_at(input, s.device, t));
}

/// What a segment of a day adds to the time that counts.
pub open spec fn adds_to_the_day() -> spec_fn(SegmentV) -> int {
    |s: SegmentV|
        if s.ignored {
            0
        } else {
            whole_millis(s.end - s.start) * 1_000_000
        }
}

/// What a segment of a day adds to the time that counts toward nothing.
pub open spec fn adds_to_nothing() -> spec_fn(SegmentV) -> int {
    |s: SegmentV|
        if s.ignored {
            whole_millis(s.end - s.start) * 1_000_000
        } else {
            0
        }
}

proof fn a_seed_counts_its_span(s: SegmentV)
    requires
        s.foreground_shares.len() == 0,
        s.bridged_ms == 0,
        s.not_counted ==> s.ignored,
    ensures
        counts()(crate::coalesce::seeded(s)) == adds_to_the_day()(s),
        uncounts()(crate::coalesce::seeded(s)) == adds_to_nothing()(s),
{
    let shares = crate::coalesce::seeded(s).foreground_shares;
    assert(list::sum(shares, under(false), 0) == 0);
    assert(list::sum(shares, under(true), 0) == 0);
    assert(list::sum(shares, under(false), 1) == under(false)(shares[0]));
    assert(list::sum(shares, under(true), 1) == under(true)(shares[0]));
}

proof fn sums_of_seeds(segs: Seq<SegmentV>, n: int)
    requires
        0 <= n <= segs.len(),
        forall|i: int|
            0 <= i < segs.len() ==> (#[trigger] segs[i]).foreground_shares.len() == 0
                && segs[i].bridged_ms == 0 && (segs[i].not_counted ==> segs[i].ignored),
    ensures
        list::sum(all_seeded(segs), counts(), n) == list::sum(segs, adds_to_the_day(), n),
        list::sum(all_seeded(segs), uncounts(), n) == list::sum(segs, adds_to_nothing(), n),
    decreases n,
{
    if n > 0 {
        sums_of_seeds(segs, n - 1);
        assert(segs[n - 1].foreground_shares.len() == 0);
        a_seed_counts_its_span(segs[n - 1]);
    }
}

/// The time that a day is said to count is that of its segments which are not ignored, and the time
/// said to count toward nothing that of those which are: however it is drawn, and rounded only once.
pub proof fn the_totals_are_those_of_the_segments(req: TimelineRequest, input: InputV)
    ensures
        timeline_of(req, input).combined_seconds == whole_seconds(
            list::total(computed(input), adds_to_the_day()),
        ),
        timeline_of(req, input).excluded_seconds == whole_seconds(
            list::total(computed(input), adds_to_nothing()),
        ),
{
    let segs = computed(input);
    the_totals_do_not_depend_on_the_threshold(input, sliver_asked(req.sliver_secs));
    assert forall|i: int| 0 <= i < segs.len() implies (
    #[trigger] segs[i]).foreground_shares.len() == 0 && segs[i].bridged_ms == 0 && (
    segs[i].not_counted ==> segs[i].ignored) by {
        cut_is_blank(input, i);
        crate::pipeline::later_steps_keep(input, i);
    }
    sums_of_seeds(segs, segs.len() as int);
}

proof fn others_hold(slices: Seq<SliceV>, fg: int, n: int, s: SliceV)
    requires
        0 <= n <= slices.len(),
    ensures
        others(slices, fg, n).contains(s) <==> exists|k: int|
            0 <= k < n && k != fg && #[trigger] slices[k] == s,
    decreases n,
{
    if n > 0 {
        others_hold(slices, fg, n - 1, s);
        let rest = others(slices, fg, n - 1);
        let all = others(slices, fg, n);
        if all.contains(s) {
            let k = choose|k: int| 0 <= k < all.len() && all[k] == s;
            if k < rest.len() {
                assert(rest[k] == s);
                assert(rest.contains(s));
            } else {
                assert(slices[n - 1] == s);
            }
        }
        if rest.contains(s) {
            let k = choose|k: int| 0 <= k < rest.len() && rest[k] == s;
            assert(all[k] == s);
        }
        if n - 1 != fg {
            assert(all[rest.len() as int] == slices[n - 1]);
        }
    }
}

proof fn behind_holds(slices: Seq<SliceV>, own: BackgroundV, n: int)
    requires
        0 <= n <= slices.len(),
    ensures
        behind(slices, own, n).no_duplicates(),
        forall|row: BackgroundV| #[trigger]
            behind(slices, own, n).contains(row) <==> row != own && exists|k: int|
                0 <= k < n && row.device == (#[trigger] slices[k]).device && row.label == label(
                    slices[k].data,
                ),
    decreases n,
{
    if n > 0 {
        behind_holds(slices, own, n - 1);
        let rest = behind(slices, own, n - 1);
        let all = behind(slices, own, n);
        let last = BackgroundV { device: slices[n - 1].device, label: label(slices[n - 1].data) };
        assert forall|row: BackgroundV| #[trigger] all.contains(row) <==> row != own && exists|
            k: int,
        |
            0 <= k < n && row.device == (#[trigger] slices[k]).device && row.label == label(
                slices[k].data,
            ) by {
            if all.contains(row) {
                let k = choose|k: int| 0 <= k < all.len() && all[k] == row;
                if k < rest.len() {
                    assert(rest[k] == row);
                    assert(rest.contains(row));
                } else {
                    assert(row == last);
                    assert(row.device == slices[n - 1].device);
                }
            }
            if rest.contains(row) {
                let k = choose|k: int| 0 <= k < rest.len() && rest[k] == row;
                assert(all[k] == row);
            }
            if all.len() > rest.len() {
                assert(all[rest.len() as int] == last);
            }
            if row != own && exists|k: int|
                0 <= k < n && row.device == (#[trigger] slices[k]).device && row.label == label(
                    slices[k].data,
                ) {
                let k = choose|k: int|
                    0 <= k < n && row.device == (#[trigger] slices[k]).device && row.label == label(
                        slices[k].data,
                    );
                if k == n - 1 {
                    assert(row == last);
                } else {
                    assert(rest.contains(row));
                }
            }
        }
        assert(rest.contains(last) || !rest.contains(last));
    }
}

/// Behind a block's winner is listed everything else that was running, by device and label, each
/// once, and never the winner itself.
pub proof fn everything_behind_the_winner_is_listed(seg: SegmentV, row: BackgroundV)
    requires
        0 <= seg.foreground < seg.active.len(),
    ensures
        background_of(seg).no_duplicates(),
        background_of(seg).contains(row) <==> exists|k: int|
            0 <= k < seg.active.len() && row.device == (#[trigger] seg.active[k]).device
                && row.label == label(seg.active[k].data) && !(row.device
                == seg.active[seg.foreground].device && row.label == label(
                seg.active[seg.foreground].data,
            )),
{
    let n = seg.active.len() as int;
    let slices = others(seg.active, seg.foreground, n);
    let fg = seg.active[seg.foreground];
    let own = BackgroundV { device: fg.device, label: label(fg.data) };
    behind_holds(slices, own, slices.len() as int);
    if background_of(seg).contains(row) {
        let k = choose|k: int|
            0 <= k < slices.len() && row.device == (#[trigger] slices[k]).device && row.label
                == label(slices[k].data);
        others_hold(seg.active, seg.foreground, n, slices[k]);
        assert(slices.contains(slices[k]));
    }
    if exists|k: int|
        0 <= k < seg.active.len() && row.device == (#[trigger] seg.active[k]).device && row.label
            == label(seg.active[k].data) && !(row.device == fg.device && row.label == label(
            fg.data,
        )) {
        let k = choose|k: int|
            0 <= k < seg.active.len() && row.device == (#[trigger] seg.active[k]).device
                && row.label == label(seg.active[k].data) && !(row.device == fg.device && row.label
                == label(fg.data));
        others_hold(seg.active, seg.foreground, n, seg.active[k]);
        assert(slices.contains(seg.active[k]));
        let j = choose|j: int| 0 <= j < slices.len() && slices[j] == seg.active[k];
        assert(row.device == slices[j].device);
    }
}

/// Each block of a day has its row, in order, which says of it: where it starts and ends, how long
/// it counts, what it is called, whose it is, and every mark that it bears.
pub proof fn every_block_has_its_row(req: TimelineRequest, input: InputV, i: int)
    requires
        0 <= i < blocks_of(input, sliver_asked(req.sliver_secs)).len(),
    ensures
        ({
            let blocks = blocks_of(input, sliver_asked(req.sliver_secs));
            let rows = timeline_of(req, input).combined;
            let (row, seg) = (rows[i], blocks[i]);
            let fg = seg.active[seg.foreground];
            &&& rows.len() == blocks.len()
            &&& seg.foreground_shares.len() > 0
            &&& row.start == seg.start && row.end == seg.end
            &&& row.seconds == whole_seconds(share_ms(seg.foreground_shares, false) * 1_000_000)
            &&& row.uncounted_ms == share_ms(seg.foreground_shares, true)
            &&& row.bridged_seconds == whole_seconds(seg.bridged_ms * 1_000_000)
            &&& row.smoothed_seconds == seg.smoothed_seconds
            &&& row.device == fg.device
            &&& row.label == if seg.label_override is Some {
                seg.label_override->0
            } else {
                label(fg.data)
            }
            &&& row.relabelled == (seg.label_override is Some)
            &&& row.state == seg.state && row.unresolved == seg.unresolved
            &&& row.absorbed_short_contention == seg.absorbed_short_contention
            &&& row.resolved_by == seg.resolved_by && row.auto_resolved == seg.auto_resolved
            &&& row.ignored == seg.ignored && row.not_counted == seg.not_counted
            &&& row.excluded_labels == seg.excluded_labels
            &&& row.absorbed_labels == seg.absorbed_labels
            &&& row.deliberate_background == seg.deliberate_background
            &&& row.background == background_of(seg)
            &&& row.shares.len() == seg.foreground_shares.len()
            &&& forall|k: int|
                0 <= k < row.shares.len() ==> (#[trigger] row.shares[k]).ms
                    == seg.foreground_shares[k].ms && row.shares[k].label == label(
                    seg.foreground_shares[k].data,
                ) && row.shares[k].not_counted == seg.foreground_shares[k].not_counted
                    && row.shares[k].detail == told_of(seg.foreground_shares[k].data)
            &&& row.detail == told_of(seg.foreground_shares[0].data)
            &&& forall|k: int|
                0 <= k < seg.foreground_shares.len() ==> (#[trigger] seg.foreground_shares[k]).ms
                    <= seg.foreground_shares[0].ms
        }),
{
    let blocks = blocks_of(input, sliver_asked(req.sliver_secs));
    blocks_are_in_good_order(input, sliver_asked(req.sliver_secs));
    assert(in_good_order(blocks[i]));
    let left = all_seeded(
        rounded(
            all_seeded(coalesced(computed(input))),
            sliver_asked(req.sliver_secs),
            5_000_000_000,
        ),
    );
    folded_has_shares(left, left.len() as int);
    assert(blocks == folded(left, left.len() as int));
    let shares = blocks[i].foreground_shares;
    assert forall|k: int| 0 <= k < shares.len() implies (#[trigger] shares[k]).ms <= shares[0].ms by {
        if k > 0 {
            assert(share_follows(shares[0], shares[k]));
        }
    }
}

/// What is told of an activity: what its data writes, without the device it was collected on.
pub open spec fn told_of(data: DataV) -> Seq<char> {
    match text_without(data.text, "$aw.origin.device"@) {
        Some(t) => t,
        None => data.text,
    }
}

/// Every block of a day lists its shares longest first, its labels ascending, and its slices by
/// device and bucket.
pub proof fn blocks_are_in_good_order(input: InputV, sliver: int)
    ensures
        forall|i: int|
            0 <= i < blocks_of(input, sliver).len() ==> in_good_order(
                #[trigger] blocks_of(input, sliver)[i],
            ),
{
    let segs = computed(input);
    one_activity_counts_at_any_instant(input);
    assert forall|i: int| 0 <= i < segs.len() implies attributed(#[trigger] segs[i])
        && in_good_order(segs[i]) by {
        segments_are_in_good_order(input, i);
    }
    let merged = coalesced(segs);
    drawn_blocks_are_in_good_order(segs, sliver, 5_000_000_000);
    let given = all_seeded(segs);
    assert forall|i: int| 0 <= i < given.len() implies attributed(#[trigger] given[i]) by {
        assert(attributed(segs[i]));
    }
    folded_sound(given, given.len() as int);
    assert forall|i: int| 0 <= i < merged.len() implies attributed(#[trigger] merged[i])
        && in_good_order(merged[i]) by {
    }
    drawn_blocks_are_in_good_order(merged, sliver, 5_000_000_000);
}

/// What is behind the winner is listed in the order of the slices, and the rules in the order of the
/// categories: what the first of them give comes first.
pub proof fn what_comes_first_is_listed_first(
    slices: Seq<SliceV>,
    own: BackgroundV,
    classes: Seq<Json>,
    m: int,
    n: int,
)
    requires
        0 <= m <= n,
    ensures
        n <= slices.len() ==> behind(slices, own, m).is_prefix_of(behind(slices, own, n)),
        n <= classes.len() ==> rules_in(classes, m).is_prefix_of(rules_in(classes, n)),
    decreases n,
{
    if m < n {
        what_comes_first_is_listed_first(slices, own, classes, m, n - 1);
    }
}

/// Whether a bucket id names this peer: what stands behind the first marker in it.
pub open spec fn names_peer(bucket_id: Seq<char>, peer: Seq<char>) -> bool {
    exists|at: int| #[trigger]
        first_marker(bucket_id, "-synced-from-"@, at) && peer == bucket_id.skip(
            at + "-synced-from-"@.len(),
        )
}

proof fn peers_are_named(bucket_id: Seq<char>, peer: Seq<char>)
    ensures
        peer_in(bucket_id) == Some(peer) <==> names_peer(bucket_id, peer),
{
    let marker = SYNCED_FROM@;
    text::find_from_sound(bucket_id, marker, 0);
    if let Some(k) = text::first_occurrence(bucket_id, marker) {
        assert(marked_at(bucket_id, marker, k));
        assert(first_marker(bucket_id, marker, k)) by {
            assert forall|j: int| #[trigger] marked_at(bucket_id, marker, j) implies k <= j by {
                assert(text::occurs_at(bucket_id, marker, j));
            }
        }
        assert(bucket_id.skip(k + marker.len()) =~= bucket_id.subrange(
            k + marker.len(),
            bucket_id.len() as int,
        ));
    }
    if names_peer(bucket_id, peer) {
        let at = choose|at: int| #[trigger]
            first_marker(bucket_id, "-synced-from-"@, at) && peer == bucket_id.skip(
                at + "-synced-from-"@.len(),
            );
        assert(marked_at(bucket_id, marker, at));
        assert(text::occurs_at(bucket_id, marker, at));
        let k = text::first_occurrence(bucket_id, marker)->0;
        assert(marked_at(bucket_id, marker, k));
        assert(k == at);
    }
}

/// Whether activity bucket `k` is the first that names this peer.
pub open spec fn first_naming(activity: Seq<BucketV>, peer: Seq<char>, k: int, n: int) -> bool {
    &&& 0 <= k < n
    &&& names_peer(activity[k].bucket_id, peer)
    &&& forall|j: int| 0 <= j < k ==> !names_peer((#[trigger] activity[j]).bucket_id, peer)
}

proof fn buckets_name(
    asked: Map<Seq<char>, Seq<char>>,
    own: Seq<char>,
    activity: Seq<BucketV>,
    n: int,
    name: Seq<char>,
)
    requires
        0 <= n <= activity.len(),
    ensures
        ({
            let names = named_by_buckets(asked, own, activity, n);
            &&& asked.contains_key(name) ==> names.contains_pair(name, asked[name])
            &&& forall|k: int| #[trigger]
                first_naming(activity, name, k, n) && !asked.contains_key(name)
                    ==> names.contains_pair(
                    name,
                    bucket_device(activity[k].events, activity[k].bucket_id, own, asked),
                )
            &&& names.contains_key(name) ==> asked.contains_key(name) || exists|k: int| #[trigger]
                first_naming(activity, name, k, n)
        }),
    decreases n,
{
    if n > 0 {
        buckets_name(asked, own, activity, n - 1, name);
        let rest = named_by_buckets(asked, own, activity, n - 1);
        let names = named_by_buckets(asked, own, activity, n);
        let b = activity[n - 1];
        peers_are_named(b.bucket_id, name);
        let named_before = exists|k: int| #[trigger] first_naming(activity, name, k, n - 1);
        if named_before {
            let k = choose|k: int| #[trigger] first_naming(activity, name, k, n - 1);
            assert(first_naming(activity, name, k, n));
            assert forall|j: int| #[trigger] first_naming(activity, name, j, n) implies j == k by {
                if j < k {
                    assert(!names_peer(activity[j].bucket_id, name));
                } else if k < j {
                    assert(!names_peer(activity[k].bucket_id, name));
                }
            }
        } else {
            assert forall|j: int| #[trigger] first_naming(activity, name, j, n) implies j == n
                - 1 by {
                if j < n - 1 {
                    assert(first_naming(activity, name, j, n - 1));
                }
            }
            if names_peer(b.bucket_id, name) {
                assert forall|j: int| 0 <= j < n - 1 implies !names_peer(
                    (#[trigger] activity[j]).bucket_id,
                    name,
                ) by {
                    if names_peer(activity[j].bucket_id, name) {
                        earliest_naming(activity, name, j, n - 1);
                    }
                }
                assert(first_naming(activity, name, n - 1, n));
            }
        }
    }
}

proof fn earliest_naming(activity: Seq<BucketV>, name: Seq<char>, j: int, n: int)
    requires
        0 <= j < n <= activity.len(),
        names_peer(activity[j].bucket_id, name),
    ensures
        exists|k: int| #[trigger] first_naming(activity, name, k, n),
    decreases j,
{
    if forall|i: int| 0 <= i < j ==> !names_peer((#[trigger] activity[i]).bucket_id, name) {
        assert(first_naming(activity, name, j, n));
    } else {
        let i = choose|i: int| 0 <= i < j && names_peer((#[trigger] activity[i]).bucket_id, name);
        earliest_naming(activity, name, i, n);
    }
}

/// The names that a day knows are those it was asked with, which stay as they are; those that peers
/// give themselves in the ids of their buckets, each for the device of the first bucket that has it;
/// and this device's own, unless it is taken.
pub proof fn every_name_is_known(
    asked: Map<Seq<char>, Seq<char>>,
    own: Seq<char>,
    own_hostname: Seq<char>,
    activity: Seq<BucketV>,
    name: Seq<char>,
)
    ensures
        ({
            let names = names_known(asked, own, own_hostname, activity);
            let n = activity.len() as int;
            let given = exists|k: int| #[trigger] first_naming(activity, name, k, n);
            &&& asked.contains_key(name) ==> names.contains_pair(name, asked[name])
            &&& forall|k: int| #[trigger]
                first_naming(activity, name, k, n) && !asked.contains_key(name)
                    ==> names.contains_pair(
                    name,
                    bucket_device(activity[k].events, activity[k].bucket_id, own, asked),
                )
            &&& !asked.contains_key(name) && !given && name == own_hostname && name.len() > 0
                ==> names.contains_pair(name, own)
            &&& !asked.contains_key(name) && !given && !(name == own_hostname && name.len() > 0)
                ==> !names.contains_key(name)
        }),
{
    buckets_name(asked, own, activity, activity.len() as int, name);
    buckets_name(asked, own, activity, activity.len() as int, own_hostname);
}

/// Whether a category writes this rule: it says that it is not counted, it has a pattern that can be
/// used, and the rule is that pattern, ignoring case where it says so, on the fields that it lists
/// as texts, or on all where it lists none.
pub open spec fn writes_rule(class: Json, r: RuleV) -> bool {
    let (data, rule) = (member(class, "data"@), member(class, "rule"@));
    &&& data is Some && member(data->0, "not_counted"@) == Some(Json::Bool(true))
    &&& rule is Some
    &&& member(rule->0, "regex"@) matches Some(Json::Text(regex)) && r.pattern == if member(
        rule->0,
        "ignore_case"@,
    ) == Some(Json::Bool(true)) {
        "(?i)"@ + regex@
    } else {
        regex@
    }
    &&& usable(r.pattern)
    &&& match member(rule->0, "select_keys"@) {
        Some(Json::List(items)) => {
            let keys = items@.filter(|j: Json| j is Text).map_values(|j: Json| j->Text_0@);
            r.select_keys == if keys.len() > 0 {
                Some(keys)
            } else {
                None
            }
        },
        _ => r.select_keys is None,
    }
}

proof fn texts_in_are_filtered(items: Seq<Json>, n: int)
    requires
        0 <= n <= items.len(),
    ensures
        texts_in(items, n) == items.take(n).filter(|j: Json| j is Text).map_values(
            |j: Json| j->Text_0@,
        ),
    decreases n,
{
    reveal(Seq::filter);
    if n > 0 {
        texts_in_are_filtered(items, n - 1);
        assert(items.take(n).drop_last() =~= items.take(n - 1));
    }
    assert(texts_in(items, n) =~= items.take(n).filter(|j: Json| j is Text).map_values(
        |j: Json| j->Text_0@,
    ));
}

proof fn candidates_write_rules(class: Json, r: RuleV)
    ensures
        writes_rule(class, r) <==> (candidate_in(class) matches Some(c) && usable(
            full_pattern(c.regex, c.ignore_case),
        ) && r == (RuleV {
            pattern: full_pattern(c.regex, c.ignore_case),
            select_keys: c.select_keys,
        })),
{
    if let Some(rule) = member(class, "rule"@) {
        if let Some(Json::List(items)) = member(rule, "select_keys"@) {
            texts_in_are_filtered(items@, items@.len() as int);
            assert(items@.take(items@.len() as int) =~= items@);
        }
    }
    if writes_rule(class, r) {
        let c = candidate_in(class)->0;
        assert(r =~= (RuleV {
            pattern: full_pattern(c.regex, c.ignore_case),
            select_keys: c.select_keys,
        }));
    }
}

proof fn classes_write(classes: Seq<Json>, n: int, r: RuleV)
    requires
        0 <= n <= classes.len(),
    ensures
        rules_in(classes, n).contains(r) <==> exists|k: int|
            0 <= k < n && writes_rule(#[trigger] classes[k], r),
    decreases n,
{
    if n > 0 {
        classes_write(classes, n - 1, r);
        candidates_write_rules(classes[n - 1], r);
        let rest = rules_in(classes, n - 1);
        let all = rules_in(classes, n);
        if all.contains(r) {
            let i = choose|i: int| 0 <= i < all.len() && all[i] == r;
            if i < rest.len() {
                assert(rest[i] == r);
                assert(rest.contains(r));
            } else {
                assert(writes_rule(classes[n - 1], r));
            }
        }
        if rest.contains(r) {
            let i = choose|i: int| 0 <= i < rest.len() && rest[i] == r;
            assert(all[i] == r);
        }
        if writes_rule(classes[n - 1], r) {
            assert(all[rest.len() as int] == r);
        }
    }
}

/// The rules of a day are those that the stored categories write, and no others; there are none
/// where what is stored is no list.
pub proof fn every_category_that_opts_out_is_a_rule(classes: Option<Json>, r: RuleV)
    ensures
        match classes {
            Some(Json::List(items)) => rules_of(classes).contains(r) <==> exists|k: int|
                0 <= k < items@.len() && writes_rule(#[trigger] items@[k], r),
            _ => rules_of(classes).len() == 0,
        },
{
    if let Some(Json::List(items)) = classes {
        classes_write(items@, items@.len() as int, r);
    }
}

/// Whether bucket `k` gives this device a name: it was not synced from a peer, and its hostname,
/// without the space around it, says something.
pub open spec fn gives_name(
    buckets: Seq<(Seq<char>, Seq<char>)>,
    k: int,
    name: Seq<char>,
) -> bool {
    &&& 0 <= k < buckets.len()
    &&& name == text::trimmed(buckets[k].1)
    &&& name.len() > 0
    &&& name != "localhost"@
    &&& name != "unknown"@
    &&& forall|i: int| !#[trigger] marked_at(buckets[k].0, "-synced-from-"@, i)
}

/// The names of this device are all those that its own buckets give it, and no others.
pub proof fn own_buckets_give_the_name(
    buckets: Seq<(Seq<char>, Seq<char>)>,
    n: int,
    name: Seq<char>,
)
    requires
        0 <= n <= buckets.len(),
    ensures
        own_names(buckets, n).contains(name) <==> exists|k: int| k < n && #[trigger] gives_name(
            buckets,
            k,
            name,
        ),
    decreases n,
{
    if n > 0 {
        own_buckets_give_the_name(buckets, n - 1, name);
        let rest = own_names(buckets, n - 1);
        let all = own_names(buckets, n);
        let id = buckets[n - 1].0;
        text::find_from_sound(id, SYNCED_FROM@, 0);
        assert((peer_in(id) is None) <==> forall|i: int| !#[trigger] marked_at(
            id,
            "-synced-from-"@,
            i,
        )) by {
            if let Some(k) = text::first_occurrence(id, SYNCED_FROM@) {
                assert(marked_at(id, "-synced-from-"@, k));
            } else {
                assert forall|i: int| !#[trigger] marked_at(id, "-synced-from-"@, i) by {
                    assert(!text::occurs_at(id, SYNCED_FROM@, i));
                }
            }
        }
        if all.contains(name) {
            let i = choose|i: int| 0 <= i < all.len() && all[i] == name;
            if i < rest.len() {
                assert(rest[i] == name);
                assert(rest.contains(name));
                let k = choose|k: int| k < n - 1 && #[trigger] gives_name(buckets, k, name);
                assert(gives_name(buckets, k, name));
            } else {
                assert(gives_name(buckets, n - 1, name));
            }
        }
        if rest.contains(name) {
            let i = choose|i: int| 0 <= i < rest.len() && rest[i] == name;
            assert(all[i] == name);
        }
        if exists|k: int| k < n && #[trigger] gives_name(buckets, k, name) {
            let k = choose|k: int| k < n && #[trigger] gives_name(buckets, k, name);
            if k == n - 1 {
                assert(all[rest.len() as int] == name);
            } else {
                assert(gives_name(buckets, k, name));
            }
        }
    } else {
        assert(!own_names(buckets, n).contains(name));
    }
}

} // verus!
