//! How a block lists what it holds, and what counts of it.

use vstd::prelude::*;

use crate::coalesce::{all_seeded, coalesced, folded, gathered, merge, mergeable, pooled, united};
use crate::list;
use crate::model::{
    attributed, counted, label, others, uncounted, under, ActiveSlice, ForegroundShare, InputV,
    SegmentV, ShareV, SliceV,
};
use crate::normalise::normalised;
use crate::order::{arranged, arranged_in_order, in_order, Sortable};
use crate::pipeline::{computed, later_steps_keep};
use crate::question::open_time;
use crate::segment::segmented;
use crate::smooth::{
    absorbed, next_sliver, next_sliver_sound, noted, ready, ready_is_seeded, rounded,
    seeded_is_ready, smoothed, soaked, taken_in, target,
};
use crate::smooth_laws::{rounding_finishes, step_shape};
use crate::text;

verus! {

/// Whether share `b` may follow share `a`: it is no longer; of two equally long one that counts does
/// not follow one that does not; then the labels ascend, and then the texts.
pub open spec fn share_follows(a: ShareV, b: ShareV) -> bool {
    ||| a.ms > b.ms
    ||| a.ms == b.ms && !a.not_counted && b.not_counted
    ||| a.ms == b.ms && a.not_counted == b.not_counted && {
        ||| !text::before(label(b.data), label(a.data)) && label(a.data) != label(b.data)
        ||| label(a.data) == label(b.data) && !text::before(b.data.text, a.data.text)
    }
}

/// Whether slice `b` may follow slice `a`: the devices ascend, of one device the buckets, and of one
/// bucket the texts.
pub open spec fn slice_follows(a: SliceV, b: SliceV) -> bool {
    &&& !text::before(b.device, a.device)
    &&& a.device == b.device ==> !text::before(b.bucket_id, a.bucket_id)
    &&& a.device == b.device && a.bucket_id == b.bucket_id ==> !text::before(
        b.data.text,
        a.data.text,
    )
}

/// Whether a block lists its shares longest first, its labels ascending, and its slices by device
/// and bucket.
pub open spec fn in_good_order(seg: SegmentV) -> bool {
    &&& forall|a: int, b: int|
        0 <= a < b < seg.foreground_shares.len() ==> share_follows(
            #[trigger] seg.foreground_shares[a],
            #[trigger] seg.foreground_shares[b],
        )
    &&& forall|a: int, b: int|
        0 <= a < b < seg.absorbed_labels.len() ==> !text::before(
            #[trigger] seg.absorbed_labels[b],
            #[trigger] seg.absorbed_labels[a],
        )
    &&& forall|a: int, b: int|
        0 <= a < b < seg.active.len() ==> slice_follows(
            #[trigger] seg.active[a],
            #[trigger] seg.active[b],
        )
}

proof fn sorted_shares(shares: Seq<ShareV>)
    requires
        in_order::<ForegroundShare>(shares),
    ensures
        forall|a: int, b: int|
            0 <= a < b < shares.len() ==> share_follows(#[trigger] shares[a], #[trigger] shares[b]),
{
    assert forall|a: int, b: int| 0 <= a < b < shares.len() implies share_follows(
        #[trigger] shares[a],
        #[trigger] shares[b],
    ) by {
        assert(!<ForegroundShare as Sortable>::precedes(shares[b], shares[a]));
    }
}

proof fn sorted_labels(labels: Seq<Seq<char>>)
    requires
        in_order::<String>(labels),
    ensures
        forall|a: int, b: int|
            0 <= a < b < labels.len() ==> !text::before(#[trigger] labels[b], #[trigger] labels[a]),
{
    assert forall|a: int, b: int| 0 <= a < b < labels.len() implies !text::before(
        #[trigger] labels[b],
        #[trigger] labels[a],
    ) by {
        assert(!<String as Sortable>::precedes(labels[b], labels[a]));
    }
}

proof fn sorted_slices(slices: Seq<SliceV>)
    requires
        in_order::<ActiveSlice>(slices),
    ensures
        forall|a: int, b: int|
            0 <= a < b < slices.len() ==> slice_follows(#[trigger] slices[a], #[trigger] slices[b]),
{
    assert forall|a: int, b: int| 0 <= a < b < slices.len() implies slice_follows(
        #[trigger] slices[a],
        #[trigger] slices[b],
    ) by {
        assert(!<ActiveSlice as Sortable>::precedes(slices[b], slices[a]));
    }
}

proof fn merged_in_order(prev: SegmentV, next: SegmentV)
    ensures
        in_good_order(merge(prev, next)),
{
    let shares = pooled(
        prev.foreground_shares,
        next.foreground_shares,
        next.foreground_shares.len() as int,
    );
    let labels = united(
        prev.absorbed_labels,
        next.absorbed_labels,
        next.absorbed_labels.len() as int,
    );
    let slices = gathered(prev.active, next.active, next.active.len() as int);
    arranged_in_order::<ForegroundShare>(shares);
    arranged_in_order::<String>(labels);
    arranged_in_order::<ActiveSlice>(slices);
    sorted_shares(arranged::<ForegroundShare>(shares));
    sorted_labels(arranged::<String>(labels));
    sorted_slices(arranged::<ActiveSlice>(slices));
}

proof fn folded_in_order(segs: Seq<SegmentV>, n: int)
    requires
        0 <= n <= segs.len(),
        forall|i: int| 0 <= i < segs.len() ==> in_good_order(#[trigger] segs[i]),
    ensures
        forall|k: int|
            0 <= k < folded(segs, n).len() ==> in_good_order(#[trigger] folded(segs, n)[k]),
    decreases n,
{
    if n > 0 {
        folded_in_order(segs, n - 1);
        let rest = folded(segs, n - 1);
        assert(in_good_order(segs[n - 1]));
        if rest.len() > 0 && mergeable(rest.last(), segs[n - 1]) {
            merged_in_order(rest.last(), segs[n - 1]);
        }
    }
}

proof fn soaked_in_order(t: SegmentV, s: SegmentV, before: bool)
    requires
        in_good_order(t),
    ensures
        in_good_order(soaked(t, s, before)),
{
    let more = seq![crate::smooth::drawn_label(s)] + s.absorbed_labels;
    let labels = noted(
        t.absorbed_labels,
        more,
        crate::smooth::drawn_label(t),
        more.len() as int,
    );
    arranged_in_order::<ForegroundShare>(taken_in(t, s));
    arranged_in_order::<String>(labels);
    sorted_shares(arranged::<ForegroundShare>(taken_in(t, s)));
    sorted_labels(arranged::<String>(labels));
}

proof fn rounded_in_order(segs: Seq<SegmentV>, sliver: int, noise: int)
    requires
        ready(segs),
        forall|i: int| 0 <= i < segs.len() ==> in_good_order(#[trigger] segs[i]),
    ensures
        forall|k: int|
            0 <= k < rounded(segs, sliver, noise).len() ==> in_good_order(
                #[trigger] rounded(segs, sliver, noise)[k],
            ),
    decreases segs.len(),
{
    next_sliver_sound(segs, sliver, noise, segs.len() as int);
    if let Some(i) = next_sliver(segs, sliver, noise, segs.len() as int) {
        let t = target(segs, i, sliver, noise)->0;
        let j = step_shape(segs, i, t, sliver, noise);
        let next = absorbed(segs, i, t);
        let m = soaked(segs[t], segs[i], t > i);
        assert(in_good_order(segs[t]));
        soaked_in_order(segs[t], segs[i], t > i);
        assert forall|k: int| 0 <= k < next.len() implies in_good_order(#[trigger] next[k]) by {
            if k < j {
                assert(next[k] == segs[k]);
            } else if k == j {
                assert(next[k] == m);
            } else {
                assert(next[k] == segs[k + 1]);
            }
        }
        rounded_in_order(next, sliver, noise);
        assert(rounded(segs, sliver, noise) == rounded(next, sliver, noise));
    } else {
        assert(rounded(segs, sliver, noise) == segs);
    }
}

/// Merging and smoothing keep every block in good order.
pub proof fn drawn_blocks_are_in_good_order(segs: Seq<SegmentV>, sliver: int, noise: int)
    requires
        forall|i: int|
            0 <= i < segs.len() ==> attributed(#[trigger] segs[i]) && in_good_order(segs[i]),
    ensures
        forall|k: int|
            0 <= k < coalesced(segs).len() ==> in_good_order(#[trigger] coalesced(segs)[k]),
        forall|k: int|
            0 <= k < smoothed(segs, sliver, noise).len() ==> in_good_order(
                #[trigger] smoothed(segs, sliver, noise)[k],
            ),
{
    let given = all_seeded(segs);
    seeded_is_ready(segs);
    assert forall|i: int| 0 <= i < given.len() implies in_good_order(#[trigger] given[i]) by {
        assert(in_good_order(segs[i]));
    }
    folded_in_order(given, given.len() as int);
    rounded_in_order(given, sliver, noise);
    rounding_finishes(given, sliver, noise);
    let r = rounded(given, sliver, noise);
    ready_is_seeded(r);
    folded_in_order(r, r.len() as int);
}

proof fn unmarked_in_order(slices: Seq<SliceV>, marked: Seq<bool>, n: int)
    requires
        0 <= n <= slices.len(),
        in_order::<ActiveSlice>(slices),
    ensures
        in_order::<ActiveSlice>(crate::exclude::unmarked(slices, marked, n)),
        forall|k: int|
            0 <= k < crate::exclude::unmarked(slices, marked, n).len() ==> exists|j: int|
                0 <= j < n && #[trigger] slices[j] == #[trigger] crate::exclude::unmarked(
                    slices,
                    marked,
                    n,
                )[k],
    decreases n,
{
    if n > 0 {
        unmarked_in_order(slices, marked, n - 1);
        let rest = crate::exclude::unmarked(slices, marked, n - 1);
        let all = crate::exclude::unmarked(slices, marked, n);
        assert forall|a: int, b: int| 0 <= a < b < all.len() implies !ActiveSlice::precedes(
            #[trigger] all[b],
            #[trigger] all[a],
        ) by {
            assert(all[a] == rest[a]);
            if b < rest.len() {
                assert(all[b] == rest[b]);
            } else {
                let j = choose|j: int| 0 <= j < n - 1 && #[trigger] slices[j] == rest[a];
                assert(!ActiveSlice::precedes(slices[n - 1], slices[j]));
            }
        }
        assert forall|k: int| 0 <= k < all.len() implies exists|j: int|
            0 <= j < n && #[trigger] slices[j] == #[trigger] all[k] by {
            if k < rest.len() {
                assert(all[k] == rest[k]);
                let j = choose|j: int| 0 <= j < n - 1 && #[trigger] slices[j] == rest[k];
                assert(slices[j] == all[k]);
            } else {
                assert(slices[n - 1] == all[k]);
            }
        }
    }
}

/// Every segment of a day is in good order, and the labels taken out of it ascend, each once.
pub proof fn segments_are_in_good_order(input: InputV, i: int)
    requires
        0 <= i < computed(input).len(),
    ensures
        in_good_order(computed(input)[i]),
        forall|a: int, b: int|
            0 <= a < b < computed(input)[i].excluded_labels.len() ==> text::before(
                #[trigger] computed(input)[i].excluded_labels[a],
                #[trigger] computed(input)[i].excluded_labels[b],
            ),
{
    let ivs = normalised(input);
    let cut = segmented(ivs)[i];
    let marked = crate::exclude::marks_of(input.not_counted, cut.active);
    let n = cut.active.len() as int;
    crate::day_laws::cut_is_blank(input, i);
    later_steps_keep(input, i);
    crate::day_laws::cut_is_arranged(input, i);
    unmarked_in_order(cut.active, marked, n);
    sorted_slices(cut.active);
    sorted_slices(crate::exclude::unmarked(cut.active, marked, n));
    crate::answer_laws::decisions_leave_the_rest(input, i);
    let labels = crate::exclude::marked_labels(cut.active, marked, n);
    let sorted = arranged::<String>(labels);
    arranged_in_order::<String>(labels);
    list::runs_ascend(sorted, sorted.len() as int);
}

/// What counts of a block is the time of its shares that count; where it has none yet, its span
/// without what was bridged. What does not count is the time of the others.
pub proof fn what_counts_of_a_block(seg: SegmentV)
    ensures
        ({
            let counting = seg.foreground_shares.filter(|s: ShareV| !s.not_counted);
            let rest = seg.foreground_shares.filter(|s: ShareV| s.not_counted);
            &&& seg.foreground_shares.len() > 0 ==> counted(seg) == list::total(
                counting,
                |s: ShareV| s.ms,
            ) * 1_000_000
            &&& seg.foreground_shares.len() == 0 ==> counted(seg) == seg.end - seg.start
                - seg.bridged_ms * 1_000_000
            &&& uncounted(seg) == list::total(rest, |s: ShareV| s.ms) * 1_000_000
        }),
{
    let n = seg.foreground_shares.len() as int;
    assert(seg.foreground_shares.take(n) =~= seg.foreground_shares);
    shares_are_filtered(seg.foreground_shares, n);
}

proof fn shares_are_filtered(shares: Seq<ShareV>, n: int)
    requires
        0 <= n <= shares.len(),
    ensures
        list::sum(shares, under(false), n) == list::total(
            shares.take(n).filter(|s: ShareV| !s.not_counted),
            |s: ShareV| s.ms,
        ),
        list::sum(shares, under(true), n) == list::total(
            shares.take(n).filter(|s: ShareV| s.not_counted),
            |s: ShareV| s.ms,
        ),
    decreases n,
{
    reveal(Seq::filter);
    let ms = |s: ShareV| s.ms;
    if n > 0 {
        shares_are_filtered(shares, n - 1);
        assert(shares.take(n).drop_last() =~= shares.take(n - 1));
        let s = shares[n - 1];
        list::total_push(shares.take(n - 1).filter(|s: ShareV| !s.not_counted), ms, s);
        list::total_push(shares.take(n - 1).filter(|s: ShareV| s.not_counted), ms, s);
    }
}

/// The slices other than one are all of them but that one, in order.
pub proof fn the_others_are_all_but_one(slices: Seq<SliceV>, fg: int)
    requires
        0 <= fg < slices.len(),
    ensures
        others(slices, fg, slices.len() as int) == slices.remove(fg),
{
    others_up_to(slices, fg, slices.len() as int);
}

proof fn others_up_to(slices: Seq<SliceV>, fg: int, n: int)
    requires
        0 <= fg < slices.len(),
        0 <= n <= slices.len(),
    ensures
        others(slices, fg, n) == if n <= fg {
            slices.take(n)
        } else {
            slices.remove(fg).take(n - 1)
        },
    decreases n,
{
    if n > 0 {
        others_up_to(slices, fg, n - 1);
    }
    let goal = if n <= fg {
        slices.take(n)
    } else {
        slices.remove(fg).take(n - 1)
    };
    assert(others(slices, fg, n) =~= goal);
}

/// The open time of a question is what counts of its blocks, taken together.
pub proof fn open_time_is_what_counts(segs: Seq<SegmentV>, blocks: Seq<usize>, n: int)
    requires
        0 <= n <= blocks.len(),
        forall|k: int| 0 <= k < blocks.len() ==> (#[trigger] blocks[k]) < segs.len(),
    ensures
        open_time(segs, blocks, n) == list::sum(
            blocks,
            |b: usize| counted(segs[b as int]),
            n,
        ),
    decreases n,
{
    if n > 0 {
        open_time_is_what_counts(segs, blocks, n - 1);
        assert(blocks[n - 1] < segs.len());
    }
}

} // verus!
