//! How slivers are rounded away, one at a time.

use vstd::prelude::*;

use crate::coalesce::{all_seeded, coalesced, credited};
use crate::list;
use crate::merge_laws::{credits, follows_closely, ms_of};
use crate::model::{
    foreground_of, label, same_data, share_ms, DataV, ForegroundShare, SegmentV, ShareV,
};
use crate::order::arranged_contains;
use crate::smooth::{
    absorbed, brackets, drawn_label, fused, goes_first, ident, linked, next_sliver, noted,
    reached_ahead, reached_back, ready, rounded, smoothed, soaked, span, taken_in, target,
};
use crate::smooth_laws::step_shape;
use crate::text;
use crate::time::{whole_millis, whole_seconds};

verus! {

/// Whether block `k` and the one before it may be one: one follows the other closely, neither is
/// open, one answer or none goes for both, and they count alike.
pub open spec fn neighbours(segs: Seq<SegmentV>, k: int) -> bool {
    &&& 0 < k < segs.len()
    &&& follows_closely(segs[k - 1], segs[k])
    &&& !segs[k - 1].unresolved
    &&& !segs[k].unresolved
    &&& segs[k - 1].resolved_by == segs[k].resolved_by
    &&& segs[k - 1].ignored == segs[k].ignored
    &&& segs[k - 1].not_counted == segs[k].not_counted
}

/// How long a block is drawn.
pub open spec fn length(seg: SegmentV) -> int {
    seg.end - seg.start
}

/// What a block is drawn as: the device, and the owner's words or else the app.
pub open spec fn drawn_as(seg: SegmentV) -> (Seq<char>, Seq<char>) {
    let fg = seg.active[seg.foreground];
    (
        fg.device,
        if seg.label_override is Some {
            seg.label_override->0
        } else {
            label(fg.data)
        },
    )
}

/// Whether one comes from block `a` to block `b` across neighbours, those in between all shorter
/// than `sliver`.
pub open spec fn in_reach(segs: Seq<SegmentV>, a: int, b: int, sliver: int) -> bool {
    &&& 0 <= a < b < segs.len()
    &&& forall|m: int| a < m <= b ==> #[trigger] neighbours(segs, m)
    &&& forall|m: int| a < m < b ==> length(#[trigger] segs[m]) < sliver
}

/// Whether block `i` lies between two blocks that are drawn as `id`, both in reach.
pub open spec fn lies_between(
    segs: Seq<SegmentV>,
    i: int,
    id: (Seq<char>, Seq<char>),
    sliver: int,
) -> bool {
    &&& exists|k: int| #[trigger] in_reach(segs, k, i, sliver) && drawn_as(segs[k]) == id
    &&& exists|k: int| #[trigger] in_reach(segs, i, k, sliver) && drawn_as(segs[k]) == id
}

/// Whether `t` is a neighbour of block `i`.
pub open spec fn is_neighbour(segs: Seq<SegmentV>, i: int, t: int) -> bool {
    (t == i - 1 && neighbours(segs, i)) || (t == i + 1 && neighbours(segs, i + 1))
}

/// Whether block `i` goes by its neighbours alone: it is part of an answer, unless nothing is to be
/// smoothed, or it is shorter than noise.
pub open spec fn goes_anyway(segs: Seq<SegmentV>, i: int, sliver: int, noise: int) -> bool {
    (sliver != 0 && segs[i].resolved_by is Some) || length(segs[i]) < noise
}

/// Whether block `i` may go into its neighbour `t` because it is a sliver and the stretch it lies in
/// is drawn as that neighbour on either side.
pub open spec fn belongs_to(segs: Seq<SegmentV>, i: int, t: int, sliver: int) -> bool {
    &&& is_neighbour(segs, i, t)
    &&& sliver != 0
    &&& length(segs[i]) < sliver
    &&& lies_between(segs, i, drawn_as(segs[t]), sliver)
}

/// Whether block `i` goes into its neighbour `t`. Of two it may go into it goes into the longer, and
/// into the one before it where they are equally long.
pub open spec fn goes_into(
    segs: Seq<SegmentV>,
    i: int,
    t: int,
    sliver: int,
    noise: int,
) -> bool {
    let other = 2 * i - t;
    if goes_anyway(segs, i, sliver, noise) {
        is_neighbour(segs, i, t) && (is_neighbour(segs, i, other) ==> length(segs[t]) > length(
            segs[other],
        ) || (length(segs[t]) == length(segs[other]) && t < i))
    } else {
        belongs_to(segs, i, t, sliver) && (belongs_to(segs, i, other, sliver) ==> whole_millis(
            length(segs[t]),
        ) > whole_millis(length(segs[other])) || (whole_millis(length(segs[t])) == whole_millis(
            length(segs[other]),
        ) && t < i))
    }
}

/// Whether block `a` goes before block `b`: the shorter, then the lower label, then the lower
/// device, then the earlier.
pub open spec fn is_first(a: SegmentV, b: SegmentV) -> bool {
    let (x, y) = (whole_millis(length(a)), whole_millis(length(b)));
    let (p, q) = (drawn_as(a), drawn_as(b));
    ||| x < y
    ||| x == y && text::before(p.1, q.1)
    ||| x == y && p.1 == q.1 && text::before(p.0, q.0)
    ||| x == y && p.1 == q.1 && p.0 == q.0 && a.start < b.start
}

/// Whether block `m` is block `t` grown over block `s` beside it: it spans both and the hole between
/// them, and is otherwise as `t` was. The time of `s` is credited to the activity of `t`, counting
/// or not as it did; its label and those it noted are noted, but for that of `t` itself; and so are
/// the seconds that came from elsewhere.
pub open spec fn grown_over(m: SegmentV, t: SegmentV, s: SegmentV, s_first: bool) -> bool {
    let hole = if s_first {
        t.start - s.end
    } else {
        s.start - t.end
    };
    let fg = t.active[t.foreground];
    &&& m.start == if s_first {
        s.start
    } else {
        t.start
    }
    &&& m.end == if s_first {
        t.end
    } else {
        s.end
    }
    &&& m.bridged_ms == t.bridged_ms + whole_millis(hole) + s.bridged_ms
    &&& m.smoothed_seconds == t.smoothed_seconds + s.smoothed_seconds + whole_seconds(
        (share_ms(s.foreground_shares, false) + share_ms(s.foreground_shares, true)) * 1_000_000,
    )
    &&& forall|data: DataV, not_counted: bool| #[trigger]
        credits(data, not_counted)(m) == credits(data, not_counted)(t) + if same_data(
            fg.data,
            data,
        ) {
            share_ms(s.foreground_shares, not_counted)
        } else {
            0
        }
    &&& forall|l: Seq<char>| #[trigger]
        m.absorbed_labels.contains(l) <==> t.absorbed_labels.contains(l) || (l != drawn_as(t).1 && (
        l == drawn_as(s).1 || s.absorbed_labels.contains(l)))
    &&& m == (SegmentV {
        start: m.start,
        end: m.end,
        bridged_ms: m.bridged_ms,
        smoothed_seconds: m.smoothed_seconds,
        foreground_shares: m.foreground_shares,
        absorbed_labels: m.absorbed_labels,
        ..t
    })
}

/// Whether `next` is the list with block `i` gone into its neighbour `t`, all others being as they
/// were.
pub open spec fn goes_away(
    segs: Seq<SegmentV>,
    i: int,
    t: int,
    next: Seq<SegmentV>,
) -> bool {
    let j = if t > i {
        i
    } else {
        t
    };
    &&& next.len() == segs.len() - 1
    &&& forall|k: int| 0 <= k < j ==> #[trigger] next[k] == segs[k]
    &&& forall|k: int| j < k < next.len() ==> #[trigger] next[k] == segs[k + 1]
    &&& grown_over(next[j], segs[t], segs[i], t > i)
}

proof fn links_are_neighbours(segs: Seq<SegmentV>, k: int)
    ensures
        linked(segs, k) == neighbours(segs, k),
{
}

proof fn reach_is_reach(segs: Seq<SegmentV>, a: int, b: int, sliver: int)
    requires
        0 <= b < segs.len(),
        0 <= a < segs.len(),
    ensures
        in_reach(segs, a, b, sliver) == reached_back(segs, b, a, sliver),
        in_reach(segs, a, b, sliver) == reached_ahead(segs, a, b, sliver),
{
    assert forall|m: int| #[trigger] linked(segs, m) == neighbours(segs, m) by {
        links_are_neighbours(segs, m);
    }
    assert forall|m: int| length(#[trigger] segs[m]) == span(segs[m]) by {}
    if in_reach(segs, a, b, sliver) {
        assert forall|m: int| a < m <= b implies #[trigger] linked(segs, m) by {
            assert(neighbours(segs, m));
        }
    }
    if reached_back(segs, b, a, sliver) || reached_ahead(segs, a, b, sliver) {
        assert forall|m: int| a < m <= b implies #[trigger] neighbours(segs, m) by {
            assert(linked(segs, m));
        }
    }
}

proof fn brackets_lie_between(
    segs: Seq<SegmentV>,
    i: int,
    id: (Seq<char>, Seq<char>),
    sliver: int,
)
    requires
        0 <= i < segs.len(),
    ensures
        brackets(segs, i, id, sliver) == lies_between(segs, i, id, sliver),
{
    if brackets(segs, i, id, sliver) {
        let k = choose|k: int| #[trigger] reached_back(segs, i, k, sliver) && ident(segs[k]) == id;
        let l = choose|l: int| #[trigger] reached_ahead(segs, i, l, sliver) && ident(segs[l]) == id;
        reach_is_reach(segs, k, i, sliver);
        reach_is_reach(segs, i, l, sliver);
        assert(in_reach(segs, k, i, sliver) && drawn_as(segs[k]) == id);
        assert(in_reach(segs, i, l, sliver) && drawn_as(segs[l]) == id);
    }
    if lies_between(segs, i, id, sliver) {
        let k = choose|k: int| #[trigger] in_reach(segs, k, i, sliver) && drawn_as(segs[k]) == id;
        let l = choose|l: int| #[trigger] in_reach(segs, i, l, sliver) && drawn_as(segs[l]) == id;
        reach_is_reach(segs, k, i, sliver);
        reach_is_reach(segs, i, l, sliver);
        assert(reached_back(segs, i, k, sliver) && ident(segs[k]) == id);
        assert(reached_ahead(segs, i, l, sliver) && ident(segs[l]) == id);
    }
}

/// A block goes where it is said to go, and nowhere else.
proof fn targets_are_gone_into(segs: Seq<SegmentV>, i: int, t: int, sliver: int, noise: int)
    requires
        0 <= i < segs.len(),
    ensures
        target(segs, i, sliver, noise) == Some(t) <==> goes_into(segs, i, t, sliver, noise),
{
    links_are_neighbours(segs, i);
    links_are_neighbours(segs, i + 1);
    if i > 0 {
        brackets_lie_between(segs, i, ident(segs[i - 1]), sliver);
    }
    if i + 1 < segs.len() {
        brackets_lie_between(segs, i, ident(segs[i + 1]), sliver);
    }
}

proof fn first_is_first(segs: Seq<SegmentV>, sliver: int, noise: int, n: int)
    requires
        0 <= n <= segs.len(),
    ensures
        match next_sliver(segs, sliver, noise, n) {
            Some(i) => 0 <= i < n && target(segs, i, sliver, noise) is Some && forall|j: int|
                0 <= j < n && #[trigger] target(segs, j, sliver, noise) is Some && j != i
                    ==> !goes_first(segs[j], segs[i]) && (j < i ==> goes_first(segs[i], segs[j])),
            None => forall|j: int| 0 <= j < n ==> #[trigger] target(segs, j, sliver, noise) is None,
        },
    decreases n,
{
    if n > 0 {
        first_is_first(segs, sliver, noise, n - 1);
        let held = next_sliver(segs, sliver, noise, n - 1);
        if target(segs, n - 1, sliver, noise) is Some && held is Some {
            let h = held->0;
            assert forall|j: int|
                0 <= j < n && #[trigger] target(segs, j, sliver, noise) is Some && j != next_sliver(
                    segs,
                    sliver,
                    noise,
                    n,
                )->0 implies !goes_first(segs[j], segs[next_sliver(segs, sliver, noise, n)->0]) && (
            j < next_sliver(segs, sliver, noise, n)->0 ==> goes_first(
                segs[next_sliver(segs, sliver, noise, n)->0],
                segs[j],
            )) by {
                going_is_ordered(segs[n - 1], segs[h], segs[j]);
                going_is_ordered(segs[j], segs[n - 1], segs[h]);
                going_is_ordered(segs[n - 1], segs[j], segs[h]);
                going_is_ordered(segs[h], segs[n - 1], segs[j]);
            }
        }
    }
}

proof fn going_is_ordered(a: SegmentV, b: SegmentV, c: SegmentV)
    ensures
        !goes_first(a, a),
        goes_first(a, b) ==> !goes_first(b, a),
        goes_first(a, b) && goes_first(b, c) ==> goes_first(a, c),
        goes_first(a, b) && !goes_first(c, b) ==> goes_first(a, c),
{
    text::before_is_total_order(drawn_label(a), drawn_label(b), drawn_label(c));
    text::before_is_total_order(drawn_label(b), drawn_label(c), drawn_label(a));
    text::before_is_total_order(drawn_label(a), drawn_label(c), drawn_label(b));
    text::before_is_total_order(
        foreground_of(a).device,
        foreground_of(b).device,
        foreground_of(c).device,
    );
    text::before_is_total_order(
        foreground_of(b).device,
        foreground_of(c).device,
        foreground_of(a).device,
    );
    text::before_is_total_order(
        foreground_of(a).device,
        foreground_of(c).device,
        foreground_of(b).device,
    );
}

proof fn noting_holds(
    labels: Seq<Seq<char>>,
    more: Seq<Seq<char>>,
    own: Seq<char>,
    n: int,
    l: Seq<char>,
)
    requires
        0 <= n <= more.len(),
    ensures
        noted(labels, more, own, n).contains(l) <==> labels.contains(l) || (l != own && exists|
            k: int,
        |
            0 <= k < n && #[trigger] more[k] == l),
    decreases n,
{
    if n > 0 {
        noting_holds(labels, more, own, n - 1, l);
        let rest = noted(labels, more, own, n - 1);
        let all = noted(labels, more, own, n);
        if all.contains(l) {
            let k = choose|k: int| 0 <= k < all.len() && all[k] == l;
            if k < rest.len() {
                assert(rest[k] == l);
                assert(rest.contains(l));
            } else {
                assert(more[n - 1] == l);
            }
        }
        if rest.contains(l) {
            let k = choose|k: int| 0 <= k < rest.len() && rest[k] == l;
            assert(all[k] == l);
        }
        if more[n - 1] == l && l != own && !rest.contains(l) {
            assert(all[rest.len() as int] == l);
        }
    }
}

proof fn taking_in_credits(t: SegmentV, s: SegmentV, data: DataV, flag: bool)
    ensures
        list::total(taken_in(t, s), ms_of(data, flag)) == list::total(
            t.foreground_shares,
            ms_of(data, flag),
        ) + if same_data(t.active[t.foreground].data, data) {
            share_ms(s.foreground_shares, flag)
        } else {
            0
        },
{
    let own = foreground_of(t).data;
    let kind = t.ignored || t.not_counted;
    let a = ShareV { data: own, ms: share_ms(s.foreground_shares, kind), not_counted: kind };
    let b = ShareV { data: own, ms: share_ms(s.foreground_shares, !kind), not_counted: !kind };
    crate::merge_laws::crediting_adds(t.foreground_shares, a, data, flag);
    let first = credited(t.foreground_shares, a.data, a.ms, a.not_counted);
    crate::merge_laws::crediting_adds(first, b, data, flag);
}

proof fn soaking_grows(t: SegmentV, s: SegmentV, s_first: bool)
    ensures
        grown_over(soaked(t, s, s_first), t, s, s_first),
{
    let m = soaked(t, s, s_first);
    let more = seq![drawn_label(s)] + s.absorbed_labels;
    let n = more.len() as int;
    let own = drawn_label(t);
    let labels = noted(t.absorbed_labels, more, own, n);
    assert forall|data: DataV, not_counted: bool| #[trigger]
        credits(data, not_counted)(m) == credits(data, not_counted)(t) + if same_data(
            t.active[t.foreground].data,
            data,
        ) {
            share_ms(s.foreground_shares, not_counted)
        } else {
            0
        } by {
        taking_in_credits(t, s, data, not_counted);
        list::total_arranged::<ForegroundShare>(taken_in(t, s), ms_of(data, not_counted));
    }
    assert forall|l: Seq<char>| #[trigger]
        m.absorbed_labels.contains(l) <==> t.absorbed_labels.contains(l) || (l != drawn_as(t).1 && (
        l == drawn_as(s).1 || s.absorbed_labels.contains(l))) by {
        noting_holds(t.absorbed_labels, more, own, n, l);
        arranged_contains::<String>(labels, l);
        assert(more[0] == drawn_label(s));
        if s.absorbed_labels.contains(l) {
            let k = choose|k: int| 0 <= k < s.absorbed_labels.len() && s.absorbed_labels[k] == l;
            assert(more[k + 1] == l);
        }
        if exists|k: int| 0 <= k < n && #[trigger] more[k] == l {
            let k = choose|k: int| 0 <= k < n && #[trigger] more[k] == l;
            if k > 0 {
                assert(s.absorbed_labels[k - 1] == l);
            }
        }
    }
}

/// Smoothing takes one block at a time: of those that may go the one that is first, into the
/// neighbour it goes into, which grows over it. What is left is smoothed in the same way, and where
/// no block may go nothing changes.
pub proof fn smoothing_takes_one_block_at_a_time(segs: Seq<SegmentV>, sliver: int, noise: int)
    requires
        ready(segs),
    ensures
        (forall|i: int, t: int|
            0 <= i < segs.len() ==> !#[trigger] goes_into(segs, i, t, sliver, noise)) ==> rounded(
            segs,
            sliver,
            noise,
        ) == segs,
        forall|i: int, t: int|
            0 <= i < segs.len() && #[trigger] goes_into(segs, i, t, sliver, noise) && (forall|
                j: int,
                u: int,
            |
                0 <= j < segs.len() && j != i && #[trigger] goes_into(segs, j, u, sliver, noise)
                    ==> is_first(segs[i], segs[j]) || (i < j && !is_first(segs[j], segs[i])))
                ==> exists|next: Seq<SegmentV>| #[trigger]
                goes_away(segs, i, t, next) && ready(next) && rounded(segs, sliver, noise)
                    == rounded(next, sliver, noise),
{
    let n = segs.len() as int;
    first_is_first(segs, sliver, noise, n);
    assert forall|i: int, t: int| 0 <= i < n implies (#[trigger] goes_into(
        segs,
        i,
        t,
        sliver,
        noise,
    ) <==> target(segs, i, sliver, noise) == Some(t)) by {
        targets_are_gone_into(segs, i, t, sliver, noise);
    }
    if next_sliver(segs, sliver, noise, n) is Some {
        let i = next_sliver(segs, sliver, noise, n)->0;
        let t = target(segs, i, sliver, noise)->0;
        assert(goes_into(segs, i, t, sliver, noise));
    }
    assert forall|i: int, t: int|
        0 <= i < segs.len() && #[trigger] goes_into(segs, i, t, sliver, noise) && (forall|
            j: int,
            u: int,
        |
            0 <= j < segs.len() && j != i && #[trigger] goes_into(segs, j, u, sliver, noise)
                ==> is_first(segs[i], segs[j]) || (i < j && !is_first(segs[j], segs[i])))
            implies exists|next: Seq<SegmentV>| #[trigger]
        goes_away(segs, i, t, next) && ready(next) && rounded(segs, sliver, noise) == rounded(
            next,
            sliver,
            noise,
        ) by {
        assert(target(segs, i, sliver, noise) == Some(t));
        let h = next_sliver(segs, sliver, noise, n)->0;
        let u = target(segs, h, sliver, noise)->0;
        assert(goes_into(segs, h, u, sliver, noise));
        if h != i {
            first_as_said(segs[i], segs[h]);
            first_as_said(segs[h], segs[i]);
            going_is_ordered(segs[i], segs[h], segs[h]);
            assert(target(segs, i, sliver, noise) is Some);
            assert(target(segs, h, sliver, noise) is Some);
        }
        assert(h == i);
        let j = step_shape(segs, i, t, sliver, noise);
        let m = soaked(segs[t], segs[i], t > i);
        let next = absorbed(segs, i, t);
        soaking_grows(segs[t], segs[i], t > i);
        assert(next == fused(segs, j, m));
        assert(next[j] == m);
        assert forall|k: int| 0 <= k < j implies #[trigger] next[k] == segs[k] by {}
        assert forall|k: int| j < k < next.len() implies #[trigger] next[k] == segs[k + 1] by {}
        assert(goes_away(segs, i, t, next));
    }
}

proof fn first_as_said(a: SegmentV, b: SegmentV)
    ensures
        is_first(a, b) == goes_first(a, b),
{
}

/// Smoothing goes on until no block may go.
pub proof fn nothing_is_left_to_go(
    segs: Seq<SegmentV>,
    sliver: int,
    noise: int,
    i: int,
    t: int,
)
    requires
        ready(segs),
        0 <= i < rounded(segs, sliver, noise).len(),
    ensures
        !goes_into(rounded(segs, sliver, noise), i, t, sliver, noise),
{
    crate::smooth_laws::rounding_finishes(segs, sliver, noise);
    targets_are_gone_into(rounded(segs, sliver, noise), i, t, sliver, noise);
}

/// What is drawn is what is left when no block may go any more, with the neighbours that can be one
/// merged.
pub proof fn what_is_left_is_merged(segs: Seq<SegmentV>, sliver: int, noise: int)
    ensures
        smoothed(segs, sliver, noise) == coalesced(rounded(all_seeded(segs), sliver, noise)),
{
}

} // verus!
