//! What merged blocks hold, said of the segments they were merged from.

use vstd::prelude::*;

use crate::coalesce::{
    all_seeded, coalesced, credited, folded, gathered, merge, merge_attributed, mergeable, pooled,
    same_slice, seeded, share_at, share_at_sound, slice_at, slice_at_sound, united, widened,
};
use crate::list;
use crate::model::{
    attributed, foreground_of, label, same_data, ActiveSlice, DataV, ForegroundShare, SegmentV,
    ShareV, SliceV,
};
use crate::order::{arranged, arranged_contains};
use crate::time::whole_millis;

verus! {

/// Whether two slices are of one activity: one device, one bucket, the same data.
pub open spec fn one_activity(a: SliceV, b: SliceV) -> bool {
    a.device == b.device && a.bucket_id == b.bucket_id && same_data(a.data, b.data)
}

/// Whether one of the slices is of the same activity as `s` and spans at least what `s` does.
pub open spec fn spanned(slices: Seq<SliceV>, s: SliceV) -> bool {
    exists|j: int|
        0 <= j < slices.len() && one_activity(#[trigger] slices[j], s) && slices[j].source_start
            <= s.source_start && s.source_end <= slices[j].source_end
}

/// Whether a slice starts where one of the pieces of its activity does.
pub open spec fn starts_as(pieces: Seq<SliceV>, s: SliceV) -> bool {
    exists|p: int|
        0 <= p < pieces.len() && one_activity(#[trigger] pieces[p], s) && pieces[p].source_start
            == s.source_start
}

/// Whether a slice ends where one of the pieces of its activity does.
pub open spec fn ends_as(pieces: Seq<SliceV>, s: SliceV) -> bool {
    exists|p: int|
        0 <= p < pieces.len() && one_activity(#[trigger] pieces[p], s) && pieces[p].source_end
            == s.source_end
}

/// Whether the slices are the pieces put together: each piece is spanned by one, and each starts and
/// ends where pieces of its activity do.
pub open spec fn put_together(slices: Seq<SliceV>, pieces: Seq<SliceV>) -> bool {
    &&& forall|p: int| 0 <= p < pieces.len() ==> #[trigger] spanned(slices, pieces[p])
    &&& forall|j: int| 0 <= j < slices.len() ==> #[trigger] starts_as(pieces, slices[j])
    &&& forall|j: int| 0 <= j < slices.len() ==> #[trigger] ends_as(pieces, slices[j])
}

spec fn both_ends(pieces: Seq<SliceV>, s: SliceV) -> bool {
    starts_as(pieces, s) && ends_as(pieces, s)
}

/// From both ends at once.
proof fn with_both_ends(slices: Seq<SliceV>, pieces: Seq<SliceV>)
    requires
        forall|p: int| 0 <= p < pieces.len() ==> #[trigger] spanned(slices, pieces[p]),
        forall|j: int| 0 <= j < slices.len() ==> #[trigger] both_ends(pieces, slices[j]),
    ensures
        put_together(slices, pieces),
{
    assert forall|j: int| 0 <= j < slices.len() implies #[trigger] starts_as(pieces, slices[j]) by {
        assert(both_ends(pieces, slices[j]));
    }
    assert forall|j: int| 0 <= j < slices.len() implies #[trigger] ends_as(pieces, slices[j]) by {
        assert(both_ends(pieces, slices[j]));
    }
}

/// The milliseconds of a share that is of these data and this flag.
pub open spec fn ms_of(data: DataV, not_counted: bool) -> spec_fn(ShareV) -> int {
    |s: ShareV|
        if same_data(s.data, data) && s.not_counted == not_counted {
            s.ms
        } else {
            0
        }
}

/// The milliseconds that a block credits to these data, under this flag.
pub open spec fn credits(data: DataV, not_counted: bool) -> spec_fn(SegmentV) -> int {
    |s: SegmentV| list::total(s.foreground_shares, ms_of(data, not_counted))
}

pub open spec fn smoothed_in() -> spec_fn(SegmentV) -> int {
    |s: SegmentV| s.smoothed_seconds
}

/// The slices of a block.
pub open spec fn slices_in() -> spec_fn(SegmentV) -> Seq<SliceV> {
    |s: SegmentV| s.active
}

/// The milliseconds bridged within and between the parts of a block.
pub open spec fn bridged_in(parts: Seq<SegmentV>, n: int) -> int
    decreases n,
{
    if n <= 0 {
        0
    } else if n == 1 {
        parts[0].bridged_ms
    } else {
        bridged_in(parts, n - 1) + whole_millis(parts[n - 1].start - parts[n - 2].end) + parts[n
            - 1].bridged_ms
    }
}

/// Whether two blocks bear the same marks and have the same app on the same device in the
/// foreground.
pub open spec fn same_marks(a: SegmentV, b: SegmentV) -> bool {
    let (x, y) = (a.active[a.foreground], b.active[b.foreground]);
    &&& a.state == b.state
    &&& a.unresolved == b.unresolved
    &&& a.absorbed_short_contention == b.absorbed_short_contention
    &&& a.resolved_by == b.resolved_by
    &&& a.auto_resolved == b.auto_resolved
    &&& a.label_override == b.label_override
    &&& a.ignored == b.ignored
    &&& a.not_counted == b.not_counted
    &&& a.excluded_labels == b.excluded_labels
    &&& a.deliberate_background == b.deliberate_background
    &&& x.device == y.device
    &&& label(x.data) == label(y.data)
}

/// Whether block `b` follows block `a` with no more than two seconds between them.
pub open spec fn follows_closely(a: SegmentV, b: SegmentV) -> bool {
    0 <= b.start - a.end <= 2_000_000_000
}

/// Whether part `i` follows the one before it closely.
pub open spec fn follows_on(parts: Seq<SegmentV>, i: int) -> bool {
    follows_closely(parts[i - 1], parts[i])
}

/// Whether a block is made of these parts, which follow one another closely and bear its marks: it
/// spans them, its slices are theirs put together, it has the foreground of the first, and it
/// credits, bridges, and notes what they do.
pub open spec fn made_from(m: SegmentV, parts: Seq<SegmentV>) -> bool {
    let n = parts.len() as int;
    &&& n > 0
    &&& m.start == parts[0].start
    &&& m.end == parts[n - 1].end
    &&& 0 <= m.foreground < m.active.len()
    &&& one_activity(
        m.active[m.foreground],
        parts[0].active[parts[0].foreground],
    )
    &&& forall|i: int| 0 <= i < n ==> #[trigger] same_marks(m, parts[i])
    &&& forall|i: int| 0 < i < n ==> #[trigger] follows_on(parts, i)
    &&& put_together(m.active, list::flat(parts, slices_in(), n))
    &&& m.smoothed_seconds == list::total(parts, smoothed_in())
    &&& m.bridged_ms == bridged_in(parts, n)
    &&& forall|data: DataV, not_counted: bool| #[trigger]
        credits(data, not_counted)(m) == list::total(parts, credits(data, not_counted))
    &&& forall|l: Seq<char>| #[trigger]
        m.absorbed_labels.contains(l) <==> exists|i: int|
            0 <= i < n && (#[trigger] parts[i]).absorbed_labels.contains(l)
}

pub proof fn crediting_adds(shares: Seq<ShareV>, s: ShareV, data: DataV, flag: bool)
    ensures
        list::total(credited(shares, s.data, s.ms, s.not_counted), ms_of(data, flag))
            == list::total(shares, ms_of(data, flag)) + ms_of(data, flag)(s),
{
    let g = ms_of(data, flag);
    share_at_sound(shares, s.data, s.not_counted, 0);
    match share_at(shares, s.data, s.not_counted, 0) {
        Some(i) => {
            let t = ShareV { ms: shares[i].ms + s.ms, ..shares[i] };
            list::total_update(shares, g, i, t);
        },
        None => {
            let t = ShareV { data: s.data, ms: s.ms, not_counted: s.not_counted };
            list::total_push(shares, g, t);
        },
    }
}

proof fn pooling_adds(own: Seq<ShareV>, more: Seq<ShareV>, n: int, data: DataV, flag: bool)
    requires
        0 <= n <= more.len(),
    ensures
        list::total(pooled(own, more, n), ms_of(data, flag)) == list::total(own, ms_of(data, flag))
            + list::sum(more, ms_of(data, flag), n),
    decreases n,
{
    if n > 0 {
        pooling_adds(own, more, n - 1, data, flag);
        crediting_adds(pooled(own, more, n - 1), more[n - 1], data, flag);
    }
}

proof fn uniting_holds(own: Seq<Seq<char>>, more: Seq<Seq<char>>, n: int, l: Seq<char>)
    requires
        0 <= n <= more.len(),
    ensures
        united(own, more, n).contains(l) <==> own.contains(l) || exists|k: int|
            0 <= k < n && #[trigger] more[k] == l,
    decreases n,
{
    if n > 0 {
        uniting_holds(own, more, n - 1, l);
        let rest = united(own, more, n - 1);
        let all = united(own, more, n);
        if all.contains(l) {
            let k = choose|k: int| 0 <= k < all.len() && all[k] == l;
            if k < rest.len() {
                assert(rest[k] == l);
                assert(rest.contains(l));
            } else {
                assert(more[n - 1] == l);
            }
        }
        if rest.contains(l) {
            let k = choose|k: int| 0 <= k < rest.len() && rest[k] == l;
            assert(all[k] == l);
        }
        if more[n - 1] == l && !rest.contains(l) {
            assert(all[rest.len() as int] == l);
        }
    }
}

proof fn spanned_more(slices: Seq<SliceV>, a: SliceV, b: SliceV)
    requires
        spanned(slices, a),
        one_activity(a, b),
        a.source_start <= b.source_start,
        b.source_end <= a.source_end,
    ensures
        spanned(slices, b),
{
    let j = choose|j: int|
        0 <= j < slices.len() && one_activity(#[trigger] slices[j], a) && slices[j].source_start
            <= a.source_start && a.source_end <= slices[j].source_end;
    assert(one_activity(slices[j], b));
}

/// Widening slice `i` keeps whatever was spanned.
proof fn widening_spans(slices: Seq<SliceV>, i: int, more: SliceV, s: SliceV)
    requires
        0 <= i < slices.len(),
        spanned(slices, s),
    ensures
        spanned(slices.update(i, widened(slices[i], more)), s),
{
    let j = choose|j: int|
        0 <= j < slices.len() && one_activity(#[trigger] slices[j], s) && slices[j].source_start
            <= s.source_start && s.source_end <= slices[j].source_end;
    let out = slices.update(i, widened(slices[i], more));
    assert(one_activity(out[j], s));
}

proof fn pushing_spans(slices: Seq<SliceV>, more: SliceV, s: SliceV)
    requires
        spanned(slices, s),
    ensures
        spanned(slices.push(more), s),
{
    let j = choose|j: int|
        0 <= j < slices.len() && one_activity(#[trigger] slices[j], s) && slices[j].source_start
            <= s.source_start && s.source_end <= slices[j].source_end;
    assert(slices.push(more)[j] == slices[j]);
}

/// Gathering slices puts them together.
proof fn gathering_puts_together(own: Seq<SliceV>, more: Seq<SliceV>, n: int)
    requires
        0 <= n <= more.len(),
    ensures
        put_together(gathered(own, more, n), own + more.take(n)),
    decreases n,
{
    let out = gathered(own, more, n);
    let pieces = own + more.take(n);
    if n <= 0 {
        assert(pieces =~= own);
        assert forall|p: int| 0 <= p < pieces.len() implies #[trigger] spanned(out, pieces[p]) by {
            assert(one_activity(out[p], pieces[p]));
        }
        assert forall|j: int| 0 <= j < out.len() implies #[trigger] both_ends(pieces, out[j]) by {
            assert(one_activity(pieces[j], out[j]));
        }
        with_both_ends(out, pieces);
    } else {
        gathering_puts_together(own, more, n - 1);
        let rest = gathered(own, more, n - 1);
        let before = own + more.take(n - 1);
        let s = more[n - 1];
        assert(pieces =~= before.push(s));
        slice_at_sound(rest, s, 0);
        let at = slice_at(rest, s, 0);
        assert forall|p: int| 0 <= p < pieces.len() implies #[trigger] spanned(out, pieces[p]) by {
            if p < before.len() {
                assert(pieces[p] == before[p]);
                assert(spanned(rest, before[p]));
                match at {
                    Some(i) => widening_spans(rest, i, s, before[p]),
                    None => pushing_spans(rest, s, before[p]),
                }
            } else {
                match at {
                    Some(i) => {
                        assert(one_activity(out[i], s));
                    },
                    None => {
                        assert(one_activity(out[rest.len() as int], s));
                    },
                }
            }
        }
        assert forall|j: int| 0 <= j < out.len() implies #[trigger] both_ends(pieces, out[j]) by {
            let last = before.len() as int;
            assert(pieces[last] == s);
            if j < rest.len() {
                assert(starts_as(before, rest[j]) && ends_as(before, rest[j]));
                let p = choose|p: int|
                    0 <= p < before.len() && one_activity(#[trigger] before[p], rest[j])
                        && before[p].source_start == rest[j].source_start;
                let q = choose|q: int|
                    0 <= q < before.len() && one_activity(#[trigger] before[q], rest[j])
                        && before[q].source_end == rest[j].source_end;
                assert(pieces[p] == before[p] && pieces[q] == before[q]);
                assert(one_activity(pieces[p], out[j]) && one_activity(pieces[q], out[j]));
                if at == Some(j) {
                    assert(one_activity(pieces[last], out[j]));
                }
            } else {
                assert(one_activity(pieces[last], out[j]));
            }
        }
        with_both_ends(out, pieces);
    }
}

/// What is put together of slices that were themselves put together is put together of the pieces.
proof fn put_together_again(
    slices: Seq<SliceV>,
    a: Seq<SliceV>,
    b: Seq<SliceV>,
    x: Seq<SliceV>,
    y: Seq<SliceV>,
)
    requires
        put_together(slices, a + b),
        put_together(a, x),
        put_together(b, y),
    ensures
        put_together(slices, x + y),
{
    let mid = a + b;
    let pieces = x + y;
    assert forall|p: int| 0 <= p < pieces.len() implies #[trigger] spanned(slices, pieces[p]) by {
        if p < x.len() {
            assert(spanned(a, x[p]));
            let j = choose|j: int|
                0 <= j < a.len() && one_activity(#[trigger] a[j], x[p]) && a[j].source_start
                    <= x[p].source_start && x[p].source_end <= a[j].source_end;
            assert(mid[j] == a[j]);
            assert(spanned(slices, mid[j]));
            spanned_more(slices, a[j], x[p]);
        } else {
            let q = p - x.len();
            assert(spanned(b, y[q]));
            let j = choose|j: int|
                0 <= j < b.len() && one_activity(#[trigger] b[j], y[q]) && b[j].source_start
                    <= y[q].source_start && y[q].source_end <= b[j].source_end;
            assert(mid[a.len() + j] == b[j]);
            assert(spanned(slices, mid[a.len() + j]));
            spanned_more(slices, b[j], y[q]);
        }
    }
    assert forall|j: int| 0 <= j < slices.len() implies #[trigger] both_ends(pieces, slices[j]) by {
        let s = slices[j];
        assert(starts_as(mid, s) && ends_as(mid, s));
        let p = choose|p: int|
            0 <= p < mid.len() && one_activity(#[trigger] mid[p], s) && mid[p].source_start
                == s.source_start;
        let q = choose|q: int|
            0 <= q < mid.len() && one_activity(#[trigger] mid[q], s) && mid[q].source_end
                == s.source_end;
        ends_within(a, b, x, y, p);
        ends_within(a, b, x, y, q);
        let u = choose|u: int|
            0 <= u < pieces.len() && one_activity(#[trigger] pieces[u], mid[p])
                && pieces[u].source_start == mid[p].source_start;
        let v = choose|v: int|
            0 <= v < pieces.len() && one_activity(#[trigger] pieces[v], mid[q])
                && pieces[v].source_end == mid[q].source_end;
        assert(one_activity(pieces[u], s));
        assert(one_activity(pieces[v], s));
    }
    with_both_ends(slices, pieces);
}

proof fn ends_within(
    a: Seq<SliceV>,
    b: Seq<SliceV>,
    x: Seq<SliceV>,
    y: Seq<SliceV>,
    p: int,
)
    requires
        0 <= p < (a + b).len(),
        put_together(a, x),
        put_together(b, y),
    ensures
        starts_as(x + y, (a + b)[p]),
        ends_as(x + y, (a + b)[p]),
{
    let mid = a + b;
    let pieces = x + y;
    if p < a.len() {
        assert(starts_as(x, a[p]) && ends_as(x, a[p]));
        let u = choose|u: int|
            0 <= u < x.len() && one_activity(#[trigger] x[u], a[p]) && x[u].source_start
                == a[p].source_start;
        let v = choose|v: int|
            0 <= v < x.len() && one_activity(#[trigger] x[v], a[p]) && x[v].source_end
                == a[p].source_end;
        assert(pieces[u] == x[u] && pieces[v] == x[v]);
    } else {
        let k = p - a.len();
        assert(starts_as(y, b[k]) && ends_as(y, b[k]));
        let u = choose|u: int|
            0 <= u < y.len() && one_activity(#[trigger] y[u], b[k]) && y[u].source_start
                == b[k].source_start;
        let v = choose|v: int|
            0 <= v < y.len() && one_activity(#[trigger] y[v], b[k]) && y[v].source_end
                == b[k].source_end;
        assert(pieces[x.len() + u] == y[u] && pieces[x.len() + v] == y[v]);
    }
}

/// The order that slices are listed in does not matter.
proof fn put_together_in_any_order(a: Seq<SliceV>, b: Seq<SliceV>, pieces: Seq<SliceV>)
    requires
        put_together(a, pieces),
        forall|s: SliceV| #[trigger] a.contains(s) <==> b.contains(s),
    ensures
        put_together(b, pieces),
{
    assert forall|p: int| 0 <= p < pieces.len() implies #[trigger] spanned(b, pieces[p]) by {
        assert(spanned(a, pieces[p]));
        let j = choose|j: int|
            0 <= j < a.len() && one_activity(#[trigger] a[j], pieces[p]) && a[j].source_start
                <= pieces[p].source_start && pieces[p].source_end <= a[j].source_end;
        assert(a.contains(a[j]));
        let k = choose|k: int| 0 <= k < b.len() && b[k] == a[j];
        assert(one_activity(b[k], pieces[p]));
    }
    assert forall|j: int| 0 <= j < b.len() implies #[trigger] both_ends(pieces, b[j]) by {
        assert(b.contains(b[j]));
        assert(a.contains(b[j]));
        let k = choose|k: int| 0 <= k < a.len() && a[k] == b[j];
        assert(starts_as(pieces, a[k]) && ends_as(pieces, a[k]));
    }
    with_both_ends(b, pieces);
}

proof fn itself_put_together(slices: Seq<SliceV>)
    ensures
        put_together(slices, slices),
{
    gathering_puts_together(slices, Seq::empty(), 0);
    assert(slices + Seq::<SliceV>::empty().take(0) =~= slices);
}

/// One block is made from itself.
proof fn made_from_itself(s: SegmentV)
    requires
        attributed(s),
    ensures
        made_from(s, seq![s]),
{
    let parts = seq![s];
    itself_put_together(s.active);
    assert(list::flat(parts, slices_in(), 0) =~= Seq::empty());
    assert(list::flat(parts, slices_in(), 1) =~= s.active);
    assert(list::sum(parts, smoothed_in(), 0) == 0);
    assert(list::sum(parts, smoothed_in(), 1) == s.smoothed_seconds);
    assert forall|data: DataV, not_counted: bool| #[trigger]
        credits(data, not_counted)(s) == list::total(parts, credits(data, not_counted)) by {
        let f = credits(data, not_counted);
        assert(list::sum(parts, f, 0) == 0);
        assert(list::sum(parts, f, 1) == f(parts[0]));
    }
    assert forall|l: Seq<char>| #[trigger] s.absorbed_labels.contains(l) <==> exists|i: int|
        0 <= i < 1 && (#[trigger] parts[i]).absorbed_labels.contains(l) by {
        if s.absorbed_labels.contains(l) {
            assert(parts[0].absorbed_labels.contains(l));
        }
    }
    assert(bridged_in(parts, 1) == s.bridged_ms);
}

/// Merging a block that follows into one made of parts makes one of those parts and it.
proof fn merging_makes(prev: SegmentV, next: SegmentV, parts: Seq<SegmentV>)
    requires
        made_from(prev, parts),
        attributed(next),
        mergeable(prev, next),
    ensures
        made_from(merge(prev, next), parts.push(next)),
{
    let m = merge(prev, next);
    let all = parts.push(next);
    let n = parts.len() as int;
    merge_attributed(prev, next);
    merged_slices(prev, next, parts);
    merged_credits(prev, next, parts);
    merged_labels(prev, next, parts);
    list::total_push(parts, smoothed_in(), next);
    bridged_prefix(parts, all, n);
    assert(all[n] == next && all[n - 1] == parts[n - 1]);
    assert(one_activity(m.active[m.foreground], all[0].active[all[0].foreground])) by {
        assert(same_slice(foreground_of(m), foreground_of(prev)));
        assert(all[0] == parts[0]);
    }
    assert forall|i: int| 0 <= i < all.len() implies #[trigger] same_marks(m, all[i]) by {
        if i < n {
            assert(all[i] == parts[i]);
            assert(same_marks(prev, parts[i]));
        }
    }
    assert forall|i: int| 0 < i < all.len() implies #[trigger] follows_on(all, i) by {
        if i < n {
            assert(all[i] == parts[i] && all[i - 1] == parts[i - 1]);
            assert(follows_on(parts, i));
        }
    }
}

proof fn bridged_prefix(a: Seq<SegmentV>, b: Seq<SegmentV>, n: int)
    requires
        0 <= n <= a.len(),
        n <= b.len(),
        forall|i: int| 0 <= i < n ==> a[i] == b[i],
    ensures
        bridged_in(a, n) == bridged_in(b, n),
    decreases n,
{
    if n > 0 {
        bridged_prefix(a, b, n - 1);
    }
}

proof fn merged_slices(prev: SegmentV, next: SegmentV, parts: Seq<SegmentV>)
    requires
        put_together(prev.active, list::flat(parts, slices_in(), parts.len() as int)),
    ensures
        put_together(
            merge(prev, next).active,
            list::flat(parts.push(next), slices_in(), parts.len() as int + 1),
        ),
{
    let n = parts.len() as int;
    let all = parts.push(next);
    let k = next.active.len() as int;
    let g = gathered(prev.active, next.active, k);
    gathering_puts_together(prev.active, next.active, k);
    assert(next.active.take(k) =~= next.active);
    itself_put_together(next.active);
    put_together_again(
        g,
        prev.active,
        next.active,
        list::flat(parts, slices_in(), n),
        next.active,
    );
    list::flat_prefix(all, parts, slices_in(), slices_in(), n);
    let sorted = arranged::<ActiveSlice>(g);
    assert forall|s: SliceV| #[trigger] g.contains(s) <==> sorted.contains(s) by {
        arranged_contains::<ActiveSlice>(g, s);
    }
    put_together_in_any_order(g, sorted, list::flat(all, slices_in(), n + 1));
}

proof fn merged_credits(prev: SegmentV, next: SegmentV, parts: Seq<SegmentV>)
    requires
        forall|data: DataV, not_counted: bool| #[trigger]
            credits(data, not_counted)(prev) == list::total(parts, credits(data, not_counted)),
    ensures
        forall|data: DataV, not_counted: bool| #[trigger]
            credits(data, not_counted)(merge(prev, next)) == list::total(
                parts.push(next),
                credits(data, not_counted),
            ),
{
    let m = merge(prev, next);
    let k = next.foreground_shares.len() as int;
    let p = pooled(prev.foreground_shares, next.foreground_shares, k);
    assert forall|data: DataV, not_counted: bool| #[trigger]
        credits(data, not_counted)(m) == list::total(parts.push(next), credits(data, not_counted)) by {
        let f = credits(data, not_counted);
        pooling_adds(prev.foreground_shares, next.foreground_shares, k, data, not_counted);
        list::total_arranged::<ForegroundShare>(p, ms_of(data, not_counted));
        list::total_push(parts, f, next);
        assert(f(prev) == list::total(parts, f));
    }
}

proof fn merged_labels(prev: SegmentV, next: SegmentV, parts: Seq<SegmentV>)
    requires
        forall|l: Seq<char>| #[trigger]
            prev.absorbed_labels.contains(l) <==> exists|i: int|
                0 <= i < parts.len() && (#[trigger] parts[i]).absorbed_labels.contains(l),
    ensures
        forall|l: Seq<char>| #[trigger]
            merge(prev, next).absorbed_labels.contains(l) <==> exists|i: int|
                0 <= i < parts.len() + 1 && (#[trigger] parts.push(next)[i]).absorbed_labels.contains(
                    l,
                ),
{
    let m = merge(prev, next);
    let all = parts.push(next);
    let k = next.absorbed_labels.len() as int;
    let u = united(prev.absorbed_labels, next.absorbed_labels, k);
    assert forall|l: Seq<char>| #[trigger] m.absorbed_labels.contains(l) <==> exists|i: int|
        0 <= i < parts.len() + 1 && (#[trigger] all[i]).absorbed_labels.contains(l) by {
        uniting_holds(prev.absorbed_labels, next.absorbed_labels, k, l);
        arranged_contains::<String>(u, l);
        if prev.absorbed_labels.contains(l) {
            let i = choose|i: int|
                0 <= i < parts.len() && (#[trigger] parts[i]).absorbed_labels.contains(l);
            assert(all[i].absorbed_labels.contains(l));
        }
        if exists|j: int| 0 <= j < k && #[trigger] next.absorbed_labels[j] == l {
            assert(all[parts.len() as int].absorbed_labels.contains(l));
        }
        if exists|i: int|
            0 <= i < parts.len() + 1 && (#[trigger] all[i]).absorbed_labels.contains(l) {
            let i = choose|i: int|
                0 <= i < parts.len() + 1 && (#[trigger] all[i]).absorbed_labels.contains(l);
            if i < parts.len() {
                assert(parts[i].absorbed_labels.contains(l));
            } else {
                let j = choose|j: int|
                    0 <= j < k && #[trigger] next.absorbed_labels[j] == l;
            }
        }
    }
}

/// Whether the range of block `k` is one, and not empty.
pub open spec fn range_at(starts: Seq<int>, k: int, n: int) -> bool {
    0 <= starts[k] && starts[k] < starts[k + 1] && starts[k + 1] <= n
}

/// Where the blocks of a list begin among the segments: from `starts[k]` up to `starts[k + 1]` for
/// block `k`.
pub open spec fn made_in_order(
    out: Seq<SegmentV>,
    segs: Seq<SegmentV>,
    starts: Seq<int>,
) -> bool {
    &&& starts.len() == out.len() + 1
    &&& starts[0] == 0
    &&& starts[out.len() as int] == segs.len()
    &&& forall|k: int| 0 <= k < out.len() ==> #[trigger] range_at(starts, k, segs.len() as int)
    &&& forall|k: int|
        0 <= k < out.len() ==> made_from(
            #[trigger] out[k],
            segs.subrange(starts[k], starts[k + 1]),
        )
}

proof fn folding_makes(segs: Seq<SegmentV>, n: int) -> (starts: Seq<int>)
    requires
        0 <= n <= segs.len(),
        forall|i: int| 0 <= i < segs.len() ==> attributed(#[trigger] segs[i]),
    ensures
        made_in_order(folded(segs, n), segs.take(n), starts),
        forall|k: int|
            0 < k < folded(segs, n).len() ==> #[trigger] mergeable_at(folded(segs, n), k) == false,
    decreases n,
{
    if n <= 0 {
        assert(segs.take(0).len() == 0);
        seq![0int]
    } else {
        let held = folding_makes(segs, n - 1);
        let rest = folded(segs, n - 1);
        let out = folded(segs, n);
        let seg = segs[n - 1];
        let before = segs.take(n - 1);
        let now = segs.take(n);
        let m = rest.len() as int;
        assert(attributed(segs[n - 1]));
        if m > 0 && mergeable(rest.last(), seg) {
            let starts = held.update(m, n);
            let parts = before.subrange(held[m - 1], held[m]);
            assert(range_at(held, m - 1, before.len() as int));
            assert(made_from(rest[m - 1], parts));
            merging_makes(rest.last(), seg, parts);
            assert(now.subrange(starts[m - 1], starts[m]) =~= parts.push(seg));
            assert forall|k: int| 0 <= k < out.len() implies made_from(
                #[trigger] out[k],
                now.subrange(starts[k], starts[k + 1]),
            ) by {
                if k < m - 1 {
                    assert(out[k] == rest[k]);
                    assert(made_from(rest[k], before.subrange(held[k], held[k + 1])));
                    assert(range_at(held, k, before.len() as int));
                    assert(now.subrange(starts[k], starts[k + 1]) =~= before.subrange(
                        held[k],
                        held[k + 1],
                    ));
                }
            }
            assert forall|k: int| 0 <= k < out.len() implies #[trigger] range_at(
                starts,
                k,
                now.len() as int,
            ) by {
                assert(range_at(held, k, before.len() as int));
            }
            assert forall|k: int| 0 < k < out.len() implies #[trigger] mergeable_at(out, k)
                == false by {
                assert(mergeable_at(rest, k) == false);
                assert(out[k - 1] == rest[k - 1]);
                if k < m - 1 {
                    assert(out[k] == rest[k]);
                } else {
                    merged_like_prev(rest[k - 1], rest.last(), seg);
                }
            }
            starts
        } else {
            let starts = held.push(n);
            made_from_itself(seg);
            assert(now.subrange(starts[m], starts[m + 1]) =~= seq![seg]);
            assert forall|k: int| 0 <= k < out.len() implies made_from(
                #[trigger] out[k],
                now.subrange(starts[k], starts[k + 1]),
            ) by {
                if k < m {
                    assert(out[k] == rest[k]);
                    assert(made_from(rest[k], before.subrange(held[k], held[k + 1])));
                    assert(range_at(held, k, before.len() as int));
                    assert(now.subrange(starts[k], starts[k + 1]) =~= before.subrange(
                        held[k],
                        held[k + 1],
                    ));
                }
            }
            assert forall|k: int| 0 <= k < out.len() implies #[trigger] range_at(
                starts,
                k,
                now.len() as int,
            ) by {
                if k < m {
                    assert(range_at(held, k, before.len() as int));
                }
            }
            assert forall|k: int| 0 < k < out.len() implies #[trigger] mergeable_at(out, k)
                == false by {
                if k < m {
                    assert(mergeable_at(rest, k) == false);
                    assert(out[k - 1] == rest[k - 1] && out[k] == rest[k]);
                }
            }
            starts
        }
    }
}

/// Whether block `k` would merge into the one before it: it follows it closely and bears the same
/// marks.
pub open spec fn mergeable_at(segs: Seq<SegmentV>, k: int) -> bool {
    follows_closely(segs[k - 1], segs[k]) && same_marks(segs[k - 1], segs[k])
}

proof fn merged_like_prev(first: SegmentV, prev: SegmentV, next: SegmentV)
    requires
        attributed(prev),
        mergeable(prev, next),
    ensures
        (follows_closely(first, merge(prev, next)) && same_marks(first, merge(prev, next))) == (
        follows_closely(first, prev) && same_marks(first, prev)),
{
    merge_attributed(prev, next);
    let m = merge(prev, next);
    assert(same_slice(foreground_of(m), foreground_of(prev)));
}

/// Merging makes every block of one or more of the segments in a row, each segment in one block, and
/// leaves no two neighbours that could be one: each block holds what its segments held, and nothing
/// else.
pub proof fn merged_blocks_hold_their_segments(segs: Seq<SegmentV>)
    requires
        forall|i: int| 0 <= i < segs.len() ==> attributed(#[trigger] segs[i]),
    ensures
        exists|starts: Seq<int>| #[trigger]
            made_in_order(coalesced(segs), all_seeded(segs), starts),
        forall|k: int|
            0 < k < coalesced(segs).len() ==> !#[trigger] mergeable_at(coalesced(segs), k),
{
    let given = all_seeded(segs);
    let n = given.len() as int;
    assert forall|i: int| 0 <= i < n implies attributed(#[trigger] given[i]) by {
        assert(attributed(segs[i]));
    }
    let starts = folding_makes(given, n);
    assert(given.take(n) =~= given);
    assert(made_in_order(coalesced(segs), given, starts));
    assert forall|k: int| 0 < k < coalesced(segs).len() implies !#[trigger] mergeable_at(
        coalesced(segs),
        k,
    ) by {
        assert(mergeable_at(folded(given, n), k) == false);
    }
}

/// A block without shares is given one: the data of its foreground, for the whole milliseconds of
/// its span that were recorded, counting as the block does. One that has shares keeps them, and
/// nothing else of a block changes.
pub proof fn a_block_starts_with_its_own_share(seg: SegmentV)
    ensures
        ({
            let s = seeded(seg);
            &&& seg.foreground_shares.len() > 0 ==> s == seg
            &&& seg.foreground_shares.len() == 0 ==> s.foreground_shares.len() == 1
                && s.foreground_shares[0].data == seg.active[seg.foreground].data
                && s.foreground_shares[0].ms == whole_millis(seg.end - seg.start) - seg.bridged_ms
                && s.foreground_shares[0].not_counted == (seg.ignored || seg.not_counted) && s == (
            SegmentV { foreground_shares: s.foreground_shares, ..seg })
        }),
{
}

} // verus!
