//! What a day can always be asked.

use vstd::prelude::*;

use crate::coalesce::{
    all_seeded, coalesced, folded, folded_groups, gathered, merge, mergeable, slice_at_sound,
};
use crate::list;
use crate::model::{attributed, label, ActiveSlice, InputV, SegmentV, SliceV};
use crate::normalise::normalised;
use crate::order::{
    arranged, arranged_contains, arranged_in_order, arranged_keeps, Sortable,
};
use crate::pipeline::{
    computed, later_steps_keep, one_activity_counts_at_any_instant, taken_out_keeps,
};
use crate::question::{
    a_question_is_one_whole_competition, activity, an_activity_is_credited_each_instant_once, asked,
    askable, blocks_of_run, breaks_off, competitors, covered_by, forward, forward_slice,
    forward_sources_can_be_asked_about, goes_on, holds_instant, id_of, ids_come_from_slices, ids_of,
    ids_of_sound, instants, one_competition, open_blocks, open_runs, question_of,
    questions_cover_the_open_blocks, ran, slices_of, sources, Competitor, CompetitorV, QuestionV,
};
use crate::segment::{atomic, segmented, segments_partition_activity};
use crate::smooth::{
    absorbed, next_sliver, next_sliver_sound, ready, ready_is_seeded, rounded, seeded_is_ready,
    smoothed, soaked, target,
};
use crate::smooth_laws::{rounding_finishes, step_shape};
use crate::text;
use crate::time::{whole_seconds, SpanV};

verus! {

/// Whether no slice of a block has a source that ends before it starts.
pub open spec fn sourced(seg: SegmentV) -> bool {
    forall|k: int| 0 <= k < seg.active.len() ==> forward_slice(#[trigger] seg.active[k])
}

proof fn gathered_forward(own: Seq<SliceV>, more: Seq<SliceV>, n: int)
    requires
        0 <= n <= more.len(),
        forall|k: int| 0 <= k < own.len() ==> forward_slice(#[trigger] own[k]),
        forall|k: int| 0 <= k < more.len() ==> forward_slice(#[trigger] more[k]),
    ensures
        forall|k: int|
            0 <= k < gathered(own, more, n).len() ==> forward_slice(
                #[trigger] gathered(own, more, n)[k],
            ),
    decreases n,
{
    if n > 0 {
        gathered_forward(own, more, n - 1);
        let rest = gathered(own, more, n - 1);
        slice_at_sound(rest, more[n - 1], 0);
        assert(forward_slice(more[n - 1]));
        assert forall|k: int| 0 <= k < gathered(own, more, n).len() implies forward_slice(
            #[trigger] gathered(own, more, n)[k],
        ) by {
            if k < rest.len() {
                assert(forward_slice(rest[k]));
            }
        }
    }
}

proof fn merge_sourced(prev: SegmentV, next: SegmentV)
    requires
        sourced(prev),
        sourced(next),
    ensures
        sourced(merge(prev, next)),
{
    let all = gathered(prev.active, next.active, next.active.len() as int);
    let active = arranged::<ActiveSlice>(all);
    gathered_forward(prev.active, next.active, next.active.len() as int);
    assert forall|k: int| 0 <= k < active.len() implies forward_slice(#[trigger] active[k]) by {
        arranged_contains::<ActiveSlice>(all, active[k]);
        assert(active.contains(active[k]));
        let j = choose|j: int| 0 <= j < all.len() && all[j] == active[k];
        assert(forward_slice(all[j]));
    }
}

proof fn folded_sourced(segs: Seq<SegmentV>, n: int)
    requires
        0 <= n <= segs.len(),
        forall|i: int| 0 <= i < segs.len() ==> sourced(#[trigger] segs[i]),
    ensures
        forall|k: int| 0 <= k < folded(segs, n).len() ==> sourced(#[trigger] folded(segs, n)[k]),
    decreases n,
{
    if n > 0 {
        folded_sourced(segs, n - 1);
        let rest = folded(segs, n - 1);
        assert(sourced(segs[n - 1]));
        if rest.len() > 0 && mergeable(rest.last(), segs[n - 1]) {
            assert(sourced(rest[rest.len() - 1]));
            merge_sourced(rest.last(), segs[n - 1]);
        }
    }
}

proof fn rounded_sourced(segs: Seq<SegmentV>, sliver: int, noise: int)
    requires
        ready(segs),
        forall|i: int| 0 <= i < segs.len() ==> sourced(#[trigger] segs[i]),
    ensures
        rounded(segs, sliver, noise).len() <= segs.len(),
        forall|k: int|
            0 <= k < rounded(segs, sliver, noise).len() ==> sourced(
                #[trigger] rounded(segs, sliver, noise)[k],
            ),
    decreases segs.len(),
{
    next_sliver_sound(segs, sliver, noise, segs.len() as int);
    if let Some(i) = next_sliver(segs, sliver, noise, segs.len() as int) {
        let t = target(segs, i, sliver, noise)->0;
        let j = step_shape(segs, i, t, sliver, noise);
        let next = absorbed(segs, i, t);
        let m = soaked(segs[t], segs[i], t > i);
        assert forall|k: int| 0 <= k < next.len() implies sourced(#[trigger] next[k]) by {
            if k < j {
                assert(next[k] == segs[k]);
            } else if k == j {
                assert(next[k] == m);
                assert(sourced(segs[t]));
            } else {
                assert(next[k] == segs[k + 1]);
            }
        }
        rounded_sourced(next, sliver, noise);
    }
}

/// Merging and smoothing keep what questions need: a foreground in every block, and sources that do
/// not end before they start.
pub proof fn drawing_keeps_the_sources(segs: Seq<SegmentV>, sliver: int, noise: int)
    requires
        forall|i: int|
            0 <= i < segs.len() ==> attributed(#[trigger] segs[i]) && sourced(segs[i]),
    ensures
        coalesced(segs).len() <= segs.len(),
        forall|k: int|
            0 <= k < coalesced(segs).len() ==> attributed(#[trigger] coalesced(segs)[k]) && sourced(
                coalesced(segs)[k],
            ),
        smoothed(segs, sliver, noise).len() <= segs.len(),
        forall|k: int|
            0 <= k < smoothed(segs, sliver, noise).len() ==> attributed(
                #[trigger] smoothed(segs, sliver, noise)[k],
            ) && sourced(smoothed(segs, sliver, noise)[k]),
{
    let given = all_seeded(segs);
    let n = given.len() as int;
    seeded_is_ready(segs);
    assert forall|i: int| 0 <= i < n implies attributed(#[trigger] given[i]) && sourced(
        given[i],
    ) by {
        assert(attributed(segs[i]) && sourced(segs[i]));
    }
    folded_groups(given, n);
    folded_sourced(given, n);
    folded_shrinks(given, n);
    rounded_sourced(given, sliver, noise);
    rounding_finishes(given, sliver, noise);
    let r = rounded(given, sliver, noise);
    ready_is_seeded(r);
    folded_groups(r, r.len() as int);
    folded_sourced(r, r.len() as int);
    folded_shrinks(r, r.len() as int);
}

proof fn folded_shrinks(segs: Seq<SegmentV>, n: int)
    requires
        0 <= n <= segs.len(),
    ensures
        folded(segs, n).len() <= n,
    decreases n,
{
    if n > 0 {
        folded_shrinks(segs, n - 1);
    }
}

/// Every day can be asked about, whatever the gap: as it was computed, merged, and merged and
/// smoothed.
pub proof fn a_day_can_be_asked_about(input: InputV, sliver: int, noise: int, gap: int)
    requires
        computed(input).len() <= usize::MAX,
    ensures
        askable(computed(input), gap),
        askable(coalesced(computed(input)), gap),
        askable(smoothed(coalesced(computed(input)), sliver, noise), gap),
{
    let day = computed(input);
    let ivs = normalised(input);
    let cut = segmented(ivs);
    one_activity_counts_at_any_instant(input);
    segments_partition_activity(ivs);
    assert forall|i: int| 0 <= i < day.len() implies attributed(#[trigger] day[i]) && sourced(
        day[i],
    ) by {
        later_steps_keep(input, i);
        assert(atomic(ivs, cut[i]));
        assert forall|k: int| 0 <= k < day[i].active.len() implies forward_slice(
            #[trigger] day[i].active[k],
        ) by {
            taken_out_keeps(
                cut[i],
                crate::exclude::marks_of(input.not_counted, cut[i].active),
            );
            assert(cut[i].active.contains(day[i].active[k]));
            let j = choose|j: int|
                0 <= j < cut[i].active.len() && cut[i].active[j] == day[i].active[k];
            assert(cut[i].active[j].source_start <= cut[i].start);
        }
    }
    drawing_keeps_the_sources(day, sliver, noise);
    let merged = coalesced(day);
    drawing_keeps_the_sources(merged, sliver, noise);
    sourced_can_be_asked_about(day, gap);
    sourced_can_be_asked_about(merged, gap);
    sourced_can_be_asked_about(smoothed(merged, sliver, noise), gap);
}

proof fn sourced_can_be_asked_about(segs: Seq<SegmentV>, gap: int)
    requires
        segs.len() <= usize::MAX,
        forall|i: int|
            0 <= i < segs.len() ==> attributed(#[trigger] segs[i]) && sourced(segs[i]),
    ensures
        askable(segs, gap),
{
    assert(forward(segs)) by {
        assert forall|i: int, k: int|
            0 <= i < segs.len() && segs[i].unresolved && 0 <= k
                < segs[i].active.len() implies forward_slice(#[trigger] segs[i].active[k]) by {
            assert(sourced(segs[i]));
        }
    }
    forward_sources_can_be_asked_about(segs, gap);
}

/// Whether a slice of one of the blocks shows this app on this device.
pub open spec fn shown_in(
    segs: Seq<SegmentV>,
    blocks: Seq<usize>,
    device: Seq<char>,
    name: Seq<char>,
    b: int,
    k: int,
) -> bool {
    &&& 0 <= b < blocks.len()
    &&& 0 <= k < segs[blocks[b] as int].active.len()
    &&& segs[blocks[b] as int].active[k].device == device
    &&& label(segs[blocks[b] as int].active[k].data) == name
}

/// Whether an app runs on a device at `t`, as the slices of the blocks tell.
pub open spec fn runs_at(
    segs: Seq<SegmentV>,
    blocks: Seq<usize>,
    device: Seq<char>,
    name: Seq<char>,
    t: int,
) -> bool {
    exists|b: int, k: int| #[trigger]
        shown_in(segs, blocks, device, name, b, k)
            && segs[blocks[b] as int].active[k].source_start <= t
            < segs[blocks[b] as int].active[k].source_end
}

/// The moments at which an app runs on a device.
pub open spec fn running_time(
    segs: Seq<SegmentV>,
    blocks: Seq<usize>,
    device: Seq<char>,
    name: Seq<char>,
) -> Set<int> {
    Set::new(|t: int| runs_at(segs, blocks, device, name, t))
}

proof fn slices_hold(segs: Seq<SegmentV>, blocks: Seq<usize>, n: int, s: SliceV)
    requires
        0 <= n <= blocks.len(),
    ensures
        slices_of(segs, blocks, n).contains(s) <==> exists|b: int, k: int|
            0 <= b < n && 0 <= k < segs[blocks[b] as int].active.len()
                && #[trigger] segs[blocks[b] as int].active[k] == s,
    decreases n,
{
    if n > 0 {
        slices_hold(segs, blocks, n - 1, s);
        let rest = slices_of(segs, blocks, n - 1);
        let more = segs[blocks[n - 1] as int].active;
        let all = slices_of(segs, blocks, n);
        if all.contains(s) {
            let i = choose|i: int| 0 <= i < all.len() && all[i] == s;
            if i < rest.len() {
                assert(rest[i] == s);
                assert(rest.contains(s));
            } else {
                assert(segs[blocks[n - 1] as int].active[i - rest.len()] == s);
            }
        }
        if rest.contains(s) {
            let i = choose|i: int| 0 <= i < rest.len() && rest[i] == s;
            assert(all[i] == s);
        }
        if exists|k: int| 0 <= k < more.len() && #[trigger] more[k] == s {
            let k = choose|k: int| 0 <= k < more.len() && #[trigger] more[k] == s;
            assert(all[rest.len() + k] == s);
        }
        if exists|b: int, k: int|
            0 <= b < n && 0 <= k < segs[blocks[b] as int].active.len()
                && #[trigger] segs[blocks[b] as int].active[k] == s {
            let (b, k) = choose|b: int, k: int|
                0 <= b < n && 0 <= k < segs[blocks[b] as int].active.len()
                    && #[trigger] segs[blocks[b] as int].active[k] == s;
            if b == n - 1 {
                assert(more[k] == s);
            } else {
                assert(segs[blocks[b] as int].active[k] == s);
                assert(rest.contains(s));
            }
        }
    }
}

proof fn sources_hold(slices: Seq<SliceV>, id: (Seq<char>, Seq<char>), n: int, x: SpanV)
    requires
        0 <= n <= slices.len(),
    ensures
        sources(slices, id, n).contains(x) <==> exists|k: int|
            0 <= k < n && (#[trigger] slices[k]).device == id.0 && label(slices[k].data) == id.1
                && slices[k].source_start == x.start && slices[k].source_end == x.end,
    decreases n,
{
    if n > 0 {
        sources_hold(slices, id, n - 1, x);
        let rest = sources(slices, id, n - 1);
        let all = sources(slices, id, n);
        if all.contains(x) {
            let i = choose|i: int| 0 <= i < all.len() && all[i] == x;
            if i < rest.len() {
                assert(rest[i] == x);
                assert(rest.contains(x));
            } else {
                assert(slices[n - 1].device == id.0);
            }
        }
        if rest.contains(x) {
            let i = choose|i: int| 0 <= i < rest.len() && rest[i] == x;
            assert(all[i] == x);
        }
        let s = slices[n - 1];
        if s.device == id.0 && label(s.data) == id.1 && s.source_start == x.start && s.source_end
            == x.end {
            assert(id_of(s) == id);
            assert(all[rest.len() as int] == x);
        }
    }
}

/// How long an activity ran is how many moments there are at which it runs.
proof fn running_is_measured(
    segs: Seq<SegmentV>,
    blocks: Seq<usize>,
    device: Seq<char>,
    name: Seq<char>,
)
    requires
        forall|b: int|
            0 <= b < blocks.len() ==> sourced(segs[#[trigger] blocks[b] as int]),
    ensures
        running_time(segs, blocks, device, name).finite(),
        ran(slices_of(segs, blocks, blocks.len() as int), (device, name)) == running_time(
            segs,
            blocks,
            device,
            name,
        ).len(),
{
    let n = blocks.len() as int;
    let slices = slices_of(segs, blocks, n);
    let m = slices.len() as int;
    let id = (device, name);
    assert forall|k: int| 0 <= k < m implies (#[trigger] slices[k]).source_start
        <= slices[k].source_end by {
        slices_hold(segs, blocks, n, slices[k]);
        assert(slices.contains(slices[k]));
        let (b, j) = choose|b: int, j: int|
            0 <= b < n && 0 <= j < segs[blocks[b] as int].active.len()
                && #[trigger] segs[blocks[b] as int].active[j] == slices[k];
        assert(sourced(segs[blocks[b] as int]));
        assert(forward_slice(segs[blocks[b] as int].active[j]));
    }
    an_activity_is_credited_each_instant_once(slices, id);
    let spans = sources(slices, id, m);
    assert forall|t: int| #[trigger] covered_by(spans, t) == runs_at(
        segs,
        blocks,
        device,
        name,
        t,
    ) by {
        if covered_by(spans, t) {
            let i = choose|i: int| 0 <= i < spans.len() && holds_instant(#[trigger] spans[i], t);
            assert(spans.contains(spans[i]));
            sources_hold(slices, id, m, spans[i]);
            let k = choose|k: int|
                0 <= k < m && (#[trigger] slices[k]).device == device && label(slices[k].data)
                    == name && slices[k].source_start == spans[i].start && slices[k].source_end
                    == spans[i].end;
            slices_hold(segs, blocks, n, slices[k]);
            assert(slices.contains(slices[k]));
            let (b, j) = choose|b: int, j: int|
                0 <= b < n && 0 <= j < segs[blocks[b] as int].active.len()
                    && #[trigger] segs[blocks[b] as int].active[j] == slices[k];
            assert(shown_in(segs, blocks, device, name, b, j));
        }
        if runs_at(segs, blocks, device, name, t) {
            let (b, j) = choose|b: int, j: int| #[trigger]
                shown_in(segs, blocks, device, name, b, j)
                    && segs[blocks[b] as int].active[j].source_start <= t
                    < segs[blocks[b] as int].active[j].source_end;
            let s = segs[blocks[b] as int].active[j];
            slices_hold(segs, blocks, n, s);
            let k = choose|k: int| 0 <= k < m && slices[k] == s;
            let x = SpanV { start: s.source_start, end: s.source_end };
            assert(slices[k].device == device);
            sources_hold(slices, id, m, x);
            let i = choose|i: int| 0 <= i < spans.len() && spans[i] == x;
            assert(holds_instant(spans[i], t));
        }
    }
    assert(instants(spans) =~= running_time(segs, blocks, device, name));
}

/// A question offers every activity that any of its blocks shows, and no other: each once, with the
/// whole seconds during which the blocks' slices tell that it ran, whichever block they are of. It
/// starts where its first block does and ends where its last one does.
pub proof fn a_question_offers_whatever_competed(segs: Seq<SegmentV>, blocks: Seq<usize>)
    requires
        blocks.len() > 0,
        forall|b: int|
            0 <= b < blocks.len() ==> sourced(segs[#[trigger] blocks[b] as int]),
    ensures
        ({
            let q = question_of(segs, blocks);
            let first = segs[blocks[0] as int];
            &&& q.blocks == blocks
            &&& q.start == first.start
            &&& q.end == segs[blocks[blocks.len() - 1] as int].end
            &&& forall|device: Seq<char>, name: Seq<char>, b: int, k: int| #[trigger]
                shown_in(segs, blocks, device, name, b, k) ==> exists|c: int|
                    0 <= c < q.competitors.len() && (#[trigger] q.competitors[c]).device == device
                        && q.competitors[c].label == name
            &&& forall|c: int|
                0 <= c < q.competitors.len() ==> offer_is_told(
                    segs,
                    blocks,
                    #[trigger] q.competitors[c],
                )
            &&& forall|c: int, d: int|
                0 <= c < d < q.competitors.len() ==> !((#[trigger] q.competitors[c]).device == (
                #[trigger] q.competitors[d]).device && q.competitors[c].label
                    == q.competitors[d].label)
        }),
{
    let n = blocks.len() as int;
    let slices = slices_of(segs, blocks, n);
    let m = slices.len() as int;
    let first = segs[blocks[0] as int];
    let winner = activity(first);
    let listed = competitors(slices, winner);
    let ids = ids_of(slices, m);
    let q = question_of(segs, blocks);
    let offered = q.competitors;
    ids_of_sound(slices, m);
    arranged_keeps::<Competitor>(listed);
    assert forall|device: Seq<char>, name: Seq<char>, b: int, k: int| #[trigger]
        shown_in(segs, blocks, device, name, b, k) implies exists|c: int|
        0 <= c < offered.len() && (#[trigger] offered[c]).device == device && offered[c].label
            == name by {
        let s = segs[blocks[b] as int].active[k];
        slices_hold(segs, blocks, n, s);
        let j = choose|j: int| 0 <= j < m && slices[j] == s;
        assert(ids.contains(id_of(slices[j])));
        let a = choose|a: int| 0 <= a < ids.len() && ids[a] == id_of(s);
        arranged_contains::<Competitor>(listed, listed[a]);
        assert(listed.contains(listed[a]));
        let c = choose|c: int| 0 <= c < offered.len() && offered[c] == listed[a];
        assert(offered[c].device == device);
    }
    assert forall|c: int| 0 <= c < offered.len() implies offer_is_told(
        segs,
        blocks,
        #[trigger] offered[c],
    ) by {
        arranged_contains::<Competitor>(listed, offered[c]);
        assert(offered.contains(offered[c]));
        let a = choose|a: int| 0 <= a < listed.len() && listed[a] == offered[c];
        ids_come_from_slices(slices, m, a);
        let j = choose|j: int| 0 <= j < m && ids[a] == id_of(#[trigger] slices[j]);
        slices_hold(segs, blocks, n, slices[j]);
        assert(slices.contains(slices[j]));
        let (b, k) = choose|b: int, k: int|
            0 <= b < n && 0 <= k < segs[blocks[b] as int].active.len()
                && #[trigger] segs[blocks[b] as int].active[k] == slices[j];
        assert(shown_in(segs, blocks, offered[c].device, offered[c].label, b, k));
        running_is_measured(segs, blocks, offered[c].device, offered[c].label);
        assert(ids[a] == (offered[c].device, offered[c].label));
    }
    assert(listed.no_duplicates()) by {
        assert forall|a: int, b: int|
            0 <= a < listed.len() && 0 <= b < listed.len() && a != b implies listed[a]
            != listed[b] by {
            assert(ids[a] != ids[b]);
        }
    }
    listed.lemma_multiset_has_no_duplicates();
    offered.lemma_multiset_has_no_duplicates_conv();
    assert forall|c: int, d: int| 0 <= c < d < offered.len() implies !((
    #[trigger] offered[c]).device == (#[trigger] offered[d]).device && offered[c].label
        == offered[d].label) by {
        arranged_contains::<Competitor>(listed, offered[c]);
        arranged_contains::<Competitor>(listed, offered[d]);
        assert(offered.contains(offered[c]) && offered.contains(offered[d]));
        let a = choose|a: int| 0 <= a < listed.len() && listed[a] == offered[c];
        let b = choose|b: int| 0 <= b < listed.len() && listed[b] == offered[d];
        if ids[a] == ids[b] {
            assert(a == b);
            assert(offered[c] == offered[d]);
        }
    }
}

/// Whether what a question says of one competitor is what its blocks tell: one of them shows it, it
/// ran for the whole seconds that their slices tell, and it is the winner where the first block has
/// it in the foreground.
pub open spec fn offer_is_told(segs: Seq<SegmentV>, blocks: Seq<usize>, c: CompetitorV) -> bool {
    let first = segs[blocks[0] as int];
    &&& exists|b: int, k: int| #[trigger] shown_in(segs, blocks, c.device, c.label, b, k)
    &&& c.seconds == whole_seconds(running_time(segs, blocks, c.device, c.label).len() as int)
    &&& c.is_foreground == (c.device == first.active[first.foreground].device && c.label == label(
        first.active[first.foreground].data,
    ))
}

/// The competitors of a question are offered longest first. Of two that ran equally long the winner
/// comes first, then the lower label, then the lower device.
pub proof fn competitors_are_offered_longest_first(
    segs: Seq<SegmentV>,
    blocks: Seq<usize>,
    c: int,
    d: int,
)
    requires
        0 <= c < d < question_of(segs, blocks).competitors.len(),
    ensures
        ({
            let x = question_of(segs, blocks).competitors[c];
            let y = question_of(segs, blocks).competitors[d];
            &&& x.seconds >= y.seconds
            &&& x.seconds == y.seconds && y.is_foreground ==> x.is_foreground
            &&& x.seconds == y.seconds && x.is_foreground == y.is_foreground ==> !text::before(
                y.label,
                x.label,
            )
            &&& x.seconds == y.seconds && x.is_foreground == y.is_foreground && x.label == y.label
                ==> !text::before(y.device, x.device)
        }),
{
    let first = segs[blocks[0] as int];
    let slices = slices_of(segs, blocks, blocks.len() as int);
    let listed = competitors(slices, activity(first));
    arranged_in_order::<Competitor>(listed);
    let offered = question_of(segs, blocks).competitors;
    assert(!<Competitor as Sortable>::precedes(offered[d], offered[c]));
}

/// Whether open block `i` belongs to the same question as the open block `j` before it: some time
/// may pass between the two, no more than that has passed, and the same app on the same device is
/// in the foreground of both.
pub open spec fn same_question(segs: Seq<SegmentV>, j: int, i: int, gap: int) -> bool {
    let (x, y) = (segs[j].active[segs[j].foreground], segs[i].active[segs[i].foreground]);
    &&& gap > 0
    &&& 0 <= segs[i].start - segs[j].end <= gap
    &&& x.device == y.device
    &&& label(x.data) == label(y.data)
}

/// The questions of a day are about its open blocks, each about some of them that follow one another
/// and belong together, and as many as do.
pub proof fn questions_are_whole_competitions(segs: Seq<SegmentV>, gap: int)
    requires
        segs.len() <= usize::MAX,
    ensures
        ({
            let qs = asked(segs, gap);
            &&& forall|q: int|
                0 <= q < qs.len() ==> (#[trigger] qs[q]).blocks.len() > 0 && qs[q] == question_of(
                    segs,
                    qs[q].blocks,
                )
            &&& forall|q: int, k: int|
                0 <= q < qs.len() && 0 < k < qs[q].blocks.len() ==> #[trigger] follows_in(
                    segs,
                    qs,
                    gap,
                    q,
                    k,
                )
            &&& forall|q: int|
                0 < q < qs.len() ==> !same_question(
                    segs,
                    qs[q - 1].blocks.last() as int,
                    (#[trigger] qs[q]).blocks[0] as int,
                    gap,
                )
            &&& list::flat(qs, |x: QuestionV| x.blocks, qs.len() as int) == open_blocks(
                segs,
                segs.len() as int,
            )
        }),
{
    let n = segs.len() as int;
    let runs = open_runs(segs, gap, n);
    let qs = asked(segs, gap);
    a_question_is_one_whole_competition(segs, gap, n);
    questions_cover_the_open_blocks(segs, gap, n);
    assert(qs.len() == runs.len());
    assert forall|q: int| 0 <= q < qs.len() implies (#[trigger] qs[q]).blocks.len() > 0 && qs[q]
        == question_of(segs, qs[q].blocks) by {
        assert(runs[q].len() > 0);
    }
    assert forall|q: int, k: int|
        0 <= q < qs.len() && 0 < k < qs[q].blocks.len() implies #[trigger] follows_in(
        segs,
        qs,
        gap,
        q,
        k,
    ) by {
        assert(one_competition(segs, runs[q], gap));
        assert(goes_on(segs, runs[q][k - 1] as int, runs[q][k] as int, gap));
    }
    assert forall|q: int| 0 < q < qs.len() implies !same_question(
        segs,
        qs[q - 1].blocks.last() as int,
        (#[trigger] qs[q]).blocks[0] as int,
        gap,
    ) by {
        assert(breaks_off(segs, runs, q, gap));
    }
    let f = |x: QuestionV| x.blocks;
    questions_list_their_runs(segs, gap, qs.len() as int);
}

/// Whether block `k` of a question belongs together with the one before it.
pub open spec fn follows_in(
    segs: Seq<SegmentV>,
    qs: Seq<QuestionV>,
    gap: int,
    q: int,
    k: int,
) -> bool {
    same_question(segs, qs[q].blocks[k - 1] as int, qs[q].blocks[k] as int, gap)
}

proof fn questions_list_their_runs(segs: Seq<SegmentV>, gap: int, m: int)
    requires
        0 <= m <= asked(segs, gap).len(),
    ensures
        list::flat(asked(segs, gap), |x: QuestionV| x.blocks, m) == list::flat(
            open_runs(segs, gap, segs.len() as int),
            blocks_of_run(),
            m,
        ),
    decreases m,
{
    if m > 0 {
        questions_list_their_runs(segs, gap, m - 1);
    }
}

/// The open blocks of a day are those that are unresolved, in order.
pub proof fn open_blocks_are_unresolved(segs: Seq<SegmentV>, n: int, x: usize)
    requires
        0 <= n <= segs.len(),
        segs.len() <= usize::MAX,
    ensures
        open_blocks(segs, n).contains(x) <==> x < n && segs[x as int].unresolved,
        forall|i: int, j: int|
            0 <= i < j < open_blocks(segs, n).len() ==> (#[trigger] open_blocks(segs, n)[i]) < (
            #[trigger] open_blocks(segs, n)[j]),
    decreases n,
{
    if n > 0 {
        open_blocks_are_unresolved(segs, n - 1, x);
        let rest = open_blocks(segs, n - 1);
        let all = open_blocks(segs, n);
        if rest.contains(x) {
            let i = choose|i: int| 0 <= i < rest.len() && rest[i] == x;
            assert(all[i] == x);
        }
        if all.contains(x) {
            let i = choose|i: int| 0 <= i < all.len() && all[i] == x;
            if i < rest.len() {
                assert(rest[i] == x);
                assert(rest.contains(x));
            }
        }
        if segs[n - 1].unresolved {
            assert(all[rest.len() as int] == (n - 1) as usize);
            assert forall|i: int, j: int| 0 <= i < j < all.len() implies (#[trigger] all[i]) < (
            #[trigger] all[j]) by {
                if j == rest.len() {
                    open_blocks_are_unresolved(segs, n - 1, all[i]);
                    assert(rest[i] == all[i]);
                    assert(rest.contains(all[i]));
                }
            }
        }
    }
}

} // verus!
