//! What smoothing keeps, whatever the threshold.

use vstd::prelude::*;

use crate::coalesce::{
    accounted, adjacent, all_seeded, alike, block_ms, coalesced, coalescing_is_idempotent,
    coalescing_keeps_every_millisecond, folded, folded_accounts, folded_groups, folded_has_shares,
    group_end, group_starts, made_of, meets, merge, mergeable, none_short, nothing_short,
    on_milliseconds, rounding_three, seeded, shortfall,
};
use crate::list;
use crate::model::{attributed, under, ForegroundShare, SegmentV};
use crate::order::arranged_keeps;
use crate::smooth::{
    absorbed, brackets, bracketed, fused, ident, linked, longer, next_sliver, next_sliver_sound,
    reached_ahead, reached_back, ready, ready_is_seeded, rounded, seeded_is_ready, smoothed,
    soaked, span, taken_in, taken_in_adds, target, target_is_linked,
};
use crate::time::whole_millis;

verus! {

/// One absorption, as smoothing picks it.
pub open spec fn step(segs: Seq<SegmentV>, i: int, t: int, sliver: int, noise: int) -> bool {
    next_sliver(segs, sliver, noise, segs.len() as int) == Some(i) && target(
        segs,
        i,
        sliver,
        noise,
    ) == Some(t)
}

/// What a step looks like: two linked neighbours become one block over both.
pub proof fn step_shape(segs: Seq<SegmentV>, i: int, t: int, sliver: int, noise: int) -> (j: int)
    requires
        ready(segs),
        step(segs, i, t, sliver, noise),
    ensures
        0 <= j,
        j + 1 < segs.len(),
        linked(segs, j + 1),
        (i == j && t == j + 1) || (i == j + 1 && t == j),
        absorbed(segs, i, t) == fused(segs, j, soaked(segs[t], segs[i], t > i)),
        absorbed(segs, i, t).len() == segs.len() - 1,
        ready(absorbed(segs, i, t)),
        soaked(segs[t], segs[i], t > i).start == segs[j].start,
        soaked(segs[t], segs[i], t > i).end == segs[j + 1].end,
{
    next_sliver_sound(segs, sliver, noise, segs.len() as int);
    target_is_linked(segs, i, sliver, noise);
    let j = if t > i {
        i
    } else {
        t
    };
    let m = soaked(segs[t], segs[i], t > i);
    let out = absorbed(segs, i, t);
    taken_in_adds(segs[t], segs[i]);
    arranged_keeps::<ForegroundShare>(taken_in(segs[t], segs[i]));
    assert forall|k: int| 0 <= k < out.len() implies attributed(#[trigger] out[k])
        && out[k].foreground_shares.len() > 0 by {
        if k < j {
            assert(out[k] == segs[k]);
        } else if k == j {
            assert(out[k] == m);
            assert(attributed(segs[t]));
        } else {
            assert(out[k] == segs[k + 1]);
        }
    }
    j
}

/// Smoothing ends where nothing is left to absorb.
pub proof fn rounding_finishes(segs: Seq<SegmentV>, sliver: int, noise: int)
    requires
        ready(segs),
    ensures
        ready(rounded(segs, sliver, noise)),
        forall|i: int|
            0 <= i < rounded(segs, sliver, noise).len() ==> #[trigger] target(
                rounded(segs, sliver, noise),
                i,
                sliver,
                noise,
            ) is None,
    decreases segs.len(),
{
    next_sliver_sound(segs, sliver, noise, segs.len() as int);
    if let Some(i) = next_sliver(segs, sliver, noise, segs.len() as int) {
        let t = target(segs, i, sliver, noise)->0;
        let j = step_shape(segs, i, t, sliver, noise);
        rounding_finishes(absorbed(segs, i, t), sliver, noise);
    }
}

proof fn fused_total(segs: Seq<SegmentV>, f: spec_fn(SegmentV) -> int, j: int, m: SegmentV)
    requires
        0 <= j,
        j + 1 < segs.len(),
    ensures
        list::total(fused(segs, j, m), f) == list::total(segs, f) + f(m) - f(segs[j]) - f(
            segs[j + 1],
        ),
{
    let head = segs.take(j);
    let tail = segs.skip(j + 2);
    assert(segs =~= head + seq![segs[j], segs[j + 1]] + tail);
    assert(fused(segs, j, m) =~= head + seq![m] + tail);
    list::total_concat(head, seq![segs[j], segs[j + 1]], f);
    list::total_concat(head + seq![segs[j], segs[j + 1]], tail, f);
    list::total_concat(head, seq![m], f);
    list::total_concat(head + seq![m], tail, f);
    let empty: Seq<SegmentV> = Seq::empty();
    list::total_push(empty, f, m);
    list::total_push(empty, f, segs[j]);
    list::total_push(seq![segs[j]], f, segs[j + 1]);
    assert(empty.push(m) =~= seq![m]);
    assert(empty.push(segs[j]) =~= seq![segs[j]]);
    assert(seq![segs[j]].push(segs[j + 1]) =~= seq![segs[j], segs[j + 1]]);
}

proof fn rounding_keeps_ms(segs: Seq<SegmentV>, sliver: int, noise: int, not_counted: bool)
    requires
        ready(segs),
    ensures
        list::total(rounded(segs, sliver, noise), block_ms(not_counted)) == list::total(
            segs,
            block_ms(not_counted),
        ),
    decreases segs.len(),
{
    next_sliver_sound(segs, sliver, noise, segs.len() as int);
    if let Some(i) = next_sliver(segs, sliver, noise, segs.len() as int) {
        let t = target(segs, i, sliver, noise)->0;
        let j = step_shape(segs, i, t, sliver, noise);
        let m = soaked(segs[t], segs[i], t > i);
        taken_in_adds(segs[t], segs[i]);
        list::total_arranged::<ForegroundShare>(taken_in(segs[t], segs[i]), under(not_counted));
        fused_total(segs, block_ms(not_counted), j, m);
        rounding_keeps_ms(absorbed(segs, i, t), sliver, noise, not_counted);
    }
}

/// Smoothing neither creates nor loses a millisecond, and moves none across the line between
/// counting and not counting: the day's counted time and its uncounted time stay what they were.
pub proof fn smoothing_keeps_every_millisecond(
    segs: Seq<SegmentV>,
    sliver: int,
    noise: int,
    not_counted: bool,
)
    requires
        forall|i: int| 0 <= i < segs.len() ==> attributed(#[trigger] segs[i]),
    ensures
        list::total(smoothed(segs, sliver, noise), block_ms(not_counted)) == list::total(
            all_seeded(segs),
            block_ms(not_counted),
        ),
{
    let given = all_seeded(segs);
    seeded_is_ready(segs);
    rounding_keeps_ms(given, sliver, noise, not_counted);
    rounding_finishes(given, sliver, noise);
    let r = rounded(given, sliver, noise);
    ready_is_seeded(r);
    coalescing_keeps_every_millisecond(r, not_counted);
}

/// No block ends before it starts.
pub open spec fn forward(segs: Seq<SegmentV>) -> bool {
    forall|i: int| 0 <= i < segs.len() ==> (#[trigger] segs[i]).start <= segs[i].end
}

/// The standing of a block: whether it is open, who answered it, and whether it counts.
pub open spec fn same_standing(a: SegmentV, b: SegmentV) -> bool {
    a.unresolved == b.unresolved && a.resolved_by == b.resolved_by && a.ignored == b.ignored
        && a.not_counted == b.not_counted
}

/// Whether block `a` lies inside block `b`, with the same standing.
pub open spec fn inside(a: SegmentV, b: SegmentV) -> bool {
    b.start <= a.start && a.end <= b.end && same_standing(a, b)
}

/// Whether every block of one list lies inside a block of the other, with the same standing.
pub open spec fn kept_inside(segs: Seq<SegmentV>, out: Seq<SegmentV>) -> bool {
    forall|i: int| 0 <= i < segs.len() ==> has_inside(#[trigger] segs[i], out)
}

pub open spec fn has_inside(seg: SegmentV, out: Seq<SegmentV>) -> bool {
    exists|k: int| 0 <= k < out.len() && inside(seg, #[trigger] out[k])
}

proof fn kept_inside_through(a: Seq<SegmentV>, b: Seq<SegmentV>, c: Seq<SegmentV>)
    requires
        kept_inside(a, b),
        kept_inside(b, c),
    ensures
        kept_inside(a, c),
{
    assert forall|i: int| 0 <= i < a.len() implies has_inside(#[trigger] a[i], c) by {
        assert(has_inside(a[i], b));
        let k = choose|k: int| 0 <= k < b.len() && inside(a[i], #[trigger] b[k]);
        assert(has_inside(b[k], c));
        let l = choose|l: int| 0 <= l < c.len() && inside(b[k], #[trigger] c[l]);
        assert(inside(a[i], c[l]));
    }
}

proof fn fusing_keeps_inside(segs: Seq<SegmentV>, j: int, m: SegmentV)
    requires
        forward(segs),
        0 <= j,
        j + 1 < segs.len(),
        inside(segs[j], m),
        inside(segs[j + 1], m),
    ensures
        kept_inside(segs, fused(segs, j, m)),
        forward(fused(segs, j, m)),
{
    let out = fused(segs, j, m);
    assert(segs[j].start <= segs[j].end);
    assert forall|k: int| 0 <= k < segs.len() implies has_inside(#[trigger] segs[k], out) by {
        if k < j {
            assert(inside(segs[k], out[k]));
        } else if k <= j + 1 {
            assert(inside(segs[k], out[j]));
        } else {
            assert(inside(segs[k], out[k - 1]));
        }
    }
    assert forall|k: int| 0 <= k < out.len() implies (#[trigger] out[k]).start <= out[k].end by {
        if k < j {
            assert(out[k] == segs[k]);
        } else if k > j {
            assert(out[k] == segs[k + 1]);
        }
    }
}

proof fn step_keeps_inside(segs: Seq<SegmentV>, i: int, t: int, sliver: int, noise: int)
    requires
        ready(segs),
        forward(segs),
        step(segs, i, t, sliver, noise),
    ensures
        kept_inside(segs, absorbed(segs, i, t)),
        forward(absorbed(segs, i, t)),
{
    let j = step_shape(segs, i, t, sliver, noise);
    let m = soaked(segs[t], segs[i], t > i);
    assert(segs[j].start <= segs[j].end);
    assert(segs[j + 1].start <= segs[j + 1].end);
    assert(same_standing(segs[t], m));
    fusing_keeps_inside(segs, j, m);
}

proof fn kept_inside_itself(segs: Seq<SegmentV>)
    ensures
        kept_inside(segs, segs),
{
    assert forall|i: int| 0 <= i < segs.len() implies has_inside(#[trigger] segs[i], segs) by {
        assert(inside(segs[i], segs[i]));
    }
}

proof fn rounding_keeps_inside(segs: Seq<SegmentV>, sliver: int, noise: int)
    requires
        ready(segs),
        forward(segs),
    ensures
        kept_inside(segs, rounded(segs, sliver, noise)),
        forward(rounded(segs, sliver, noise)),
    decreases segs.len(),
{
    next_sliver_sound(segs, sliver, noise, segs.len() as int);
    match next_sliver(segs, sliver, noise, segs.len() as int) {
        Some(i) => {
            let t = target(segs, i, sliver, noise)->0;
            let j = step_shape(segs, i, t, sliver, noise);
            let next = absorbed(segs, i, t);
            step_keeps_inside(segs, i, t, sliver, noise);
            rounding_keeps_inside(next, sliver, noise);
            kept_inside_through(segs, next, rounded(next, sliver, noise));
        },
        None => {
            kept_inside_itself(segs);
        },
    }
}

/// The given blocks from `a` to `b`, each touching the next, ascend.
proof fn group_ascends(segs: Seq<SegmentV>, a: int, b: int, i: int)
    requires
        forward(segs),
        0 <= a <= i <= b < segs.len(),
        forall|k: int| a < k <= b ==> meets(segs, k),
    ensures
        segs[a].start <= segs[i].start,
        segs[i].end <= segs[b].end,
    decreases b - a,
{
    group_ascends_from(segs, a, i);
    group_ascends_to(segs, i, b);
}

proof fn group_ascends_from(segs: Seq<SegmentV>, a: int, i: int)
    requires
        forward(segs),
        0 <= a <= i < segs.len(),
        forall|k: int| a < k <= i ==> meets(segs, k),
    ensures
        segs[a].start <= segs[i].start,
    decreases i - a,
{
    if a < i {
        group_ascends_from(segs, a, i - 1);
        assert(meets(segs, i));
        assert(segs[i - 1].start <= segs[i - 1].end);
    }
}

proof fn group_ascends_to(segs: Seq<SegmentV>, i: int, b: int)
    requires
        forward(segs),
        0 <= i <= b < segs.len(),
        forall|k: int| i < k <= b ==> meets(segs, k),
    ensures
        segs[i].end <= segs[b].end,
    decreases b - i,
{
    if i < b {
        group_ascends_to(segs, i, b - 1);
        assert(meets(segs, b));
        assert(segs[b].start <= segs[b].end);
    }
}

/// The merged block that given block `i` went into.
proof fn group_of(segs: Seq<SegmentV>, i: int, k: int) -> (g: int)
    requires
        forall|i: int| 0 <= i < segs.len() ==> attributed(#[trigger] segs[i]),
        0 <= i < segs.len(),
        0 <= k < group_starts(segs, segs.len() as int).len(),
        group_starts(segs, segs.len() as int)[k] <= i,
    ensures
        k <= g < folded(segs, segs.len() as int).len(),
        group_starts(segs, segs.len() as int)[g] <= i <= group_end(segs, segs.len() as int, g),
    decreases group_starts(segs, segs.len() as int).len() - k,
{
    let n = segs.len() as int;
    folded_groups(segs, n);
    if i <= group_end(segs, n, k) {
        k
    } else {
        group_of(segs, i, k + 1)
    }
}

proof fn coalescing_keeps_inside(segs: Seq<SegmentV>)
    requires
        ready(segs),
        forward(segs),
    ensures
        kept_inside(segs, coalesced(segs)),
{
    let n = segs.len() as int;
    ready_is_seeded(segs);
    folded_groups(segs, n);
    let out = coalesced(segs);
    assert forall|i: int| 0 <= i < segs.len() implies has_inside(#[trigger] segs[i], out) by {
        let g = group_of(segs, i, 0);
        let a = group_starts(segs, n)[g];
        let b = group_end(segs, n, g);
        assert(made_of(out[g], segs, a, b));
        group_ascends(segs, a, b, i);
        assert(alike(out[g], segs[i]));
        assert(inside(segs[i], out[g]));
    }
}

/// Every block stays inside a block that was settled the same way: a question is never smoothed away, an
/// answer never spreads to time it was not given for nor gives any up, and what counts toward
/// nothing stays apart from what counts.
pub proof fn smoothing_keeps_every_answer(segs: Seq<SegmentV>, sliver: int, noise: int)
    requires
        forall|i: int| 0 <= i < segs.len() ==> attributed(#[trigger] segs[i]),
        forward(segs),
    ensures
        kept_inside(segs, smoothed(segs, sliver, noise)),
{
    let given = all_seeded(segs);
    seeded_is_ready(segs);
    assert(forward(given)) by {
        assert forall|i: int| 0 <= i < given.len() implies (#[trigger] given[i]).start
            <= given[i].end by {
            assert(segs[i].start <= segs[i].end);
        }
    }
    assert(kept_inside(segs, given)) by {
        assert forall|i: int| 0 <= i < segs.len() implies has_inside(#[trigger] segs[i], given) by {
            assert(inside(segs[i], given[i]));
        }
    }
    rounding_finishes(given, sliver, noise);
    rounding_keeps_inside(given, sliver, noise);
    let r = rounded(given, sliver, noise);
    coalescing_keeps_inside(r);
    kept_inside_through(segs, given, r);
    kept_inside_through(segs, r, coalesced(r));
}

/// An open block comes through the rounding untouched.
pub proof fn an_open_block_is_never_absorbed(segs: Seq<SegmentV>, sliver: int, noise: int, k: int)
    requires
        ready(segs),
        0 <= k < segs.len(),
        segs[k].unresolved,
    ensures
        rounded(segs, sliver, noise).contains(segs[k]),
    decreases segs.len(),
{
    next_sliver_sound(segs, sliver, noise, segs.len() as int);
    match next_sliver(segs, sliver, noise, segs.len() as int) {
        Some(i) => {
            let t = target(segs, i, sliver, noise)->0;
            let j = step_shape(segs, i, t, sliver, noise);
            let next = absorbed(segs, i, t);
            if k < j {
                assert(next[k] == segs[k]);
                an_open_block_is_never_absorbed(next, sliver, noise, k);
            } else {
                assert(k > j + 1);
                assert(next[k - 1] == segs[k]);
                an_open_block_is_never_absorbed(next, sliver, noise, k - 1);
            }
        },
        None => {},
    }
}

/// With the threshold at zero only what is below the noise floor is absorbed: where nothing is,
/// rounding changes nothing.
pub proof fn zero_leaves_the_day_literal(segs: Seq<SegmentV>, noise: int)
    requires
        ready(segs),
        forall|i: int| 0 <= i < segs.len() ==> span(#[trigger] segs[i]) >= noise,
    ensures
        rounded(segs, 0, noise) == segs,
        smoothed(segs, 0, noise) == coalesced(segs),
{
    next_sliver_sound(segs, 0, noise, segs.len() as int);
    ready_is_seeded(segs);
    if let Some(i) = next_sliver(segs, 0, noise, segs.len() as int) {
        assert(span(segs[i]) >= noise);
    }
}

/// Where merged blocks `g - 1` and `g` are linked, the given blocks that meet there are linked too.
proof fn link_below(segs: Seq<SegmentV>, g: int)
    requires
        ready(segs),
        linked(folded(segs, segs.len() as int), g),
    ensures
        linked(segs, group_starts(segs, segs.len() as int)[g]),
        ident(segs[group_starts(segs, segs.len() as int)[g] - 1]) == ident(
            folded(segs, segs.len() as int)[g - 1],
        ),
        ident(segs[group_starts(segs, segs.len() as int)[g]]) == ident(
            folded(segs, segs.len() as int)[g],
        ),
{
    let n = segs.len() as int;
    let out = folded(segs, n);
    let starts = group_starts(segs, n);
    folded_groups(segs, n);
    let a = starts[g];
    assert(made_of(out[g], segs, starts[g], group_end(segs, n, g)));
    assert(made_of(out[g - 1], segs, starts[g - 1], group_end(segs, n, g - 1)));
    assert(group_end(segs, n, g - 1) == a - 1);
    assert(starts[g - 1] < starts[g]);
    assert(alike(out[g], segs[a]));
    assert(alike(out[g - 1], segs[a - 1]));
}

/// Inside a merged block that is not open, the given blocks are linked one to the next.
proof fn links_inside(segs: Seq<SegmentV>, g: int, i: int)
    requires
        ready(segs),
        0 <= g < folded(segs, segs.len() as int).len(),
        !folded(segs, segs.len() as int)[g].unresolved,
        group_starts(segs, segs.len() as int)[g] < i <= group_end(segs, segs.len() as int, g),
    ensures
        linked(segs, i),
{
    let n = segs.len() as int;
    folded_groups(segs, n);
    let out = folded(segs, n);
    assert(made_of(out[g], segs, group_starts(segs, n)[g], group_end(segs, n, g)));
    assert(meets(segs, i));
    assert(alike(out[g], segs[i]));
    assert(alike(out[g], segs[i - 1]));
}

/// A given block is no longer than the merged block it went into.
proof fn part_is_shorter(segs: Seq<SegmentV>, g: int, i: int)
    requires
        ready(segs),
        forward(segs),
        0 <= g < folded(segs, segs.len() as int).len(),
        group_starts(segs, segs.len() as int)[g] <= i <= group_end(segs, segs.len() as int, g),
    ensures
        0 <= i < segs.len(),
        span(segs[i]) <= span(folded(segs, segs.len() as int)[g]),
        segs[i].resolved_by == folded(segs, segs.len() as int)[g].resolved_by,
{
    let n = segs.len() as int;
    folded_groups(segs, n);
    let out = folded(segs, n);
    let a = group_starts(segs, n)[g];
    let b = group_end(segs, n, g);
    assert(made_of(out[g], segs, a, b));
    group_ascends(segs, a, b, i);
    assert(alike(out[g], segs[i]));
}

/// What is reached ahead among the merged blocks is reached ahead among the given ones.
proof fn reach_ahead_below(segs: Seq<SegmentV>, g: int, h: int, sliver: int, i: int)
    requires
        ready(segs),
        forward(segs),
        reached_ahead(folded(segs, segs.len() as int), g, h, sliver),
        0 <= g,
        span(folded(segs, segs.len() as int)[g]) < sliver,
        group_starts(segs, segs.len() as int)[g] <= i <= group_end(segs, segs.len() as int, g),
    ensures
        reached_ahead(segs, i, group_starts(segs, segs.len() as int)[h], sliver),
        ident(segs[group_starts(segs, segs.len() as int)[h]]) == ident(
            folded(segs, segs.len() as int)[h],
        ),
{
    let n = segs.len() as int;
    let out = folded(segs, n);
    let starts = group_starts(segs, n);
    folded_groups(segs, n);
    let e = starts[h];
    assert(linked(out, h));
    link_below(segs, h);
    assert(starts[g] < starts[h]);
    assert(starts[g + 1] <= starts[h]) by {
        if g + 1 < h {
            assert(starts[g + 1] < starts[h]);
        }
    }
    assert forall|m: int| i < m <= e implies #[trigger] linked(segs, m) by {
        let x = group_of(segs, m, g);
        assert(x <= h) by {
            if x > h {
                assert(starts[h] < starts[x]);
            }
        }
        if m == starts[x] {
            if x > g {
                assert(linked(out, x));
                link_below(segs, x);
            }
        } else {
            assert(x < h || (x == h && m <= e));
            assert(x < h);
            assert(!out[x].unresolved) by {
                assert(linked(out, x + 1));
            }
            links_inside(segs, x, m);
        }
    }
    assert forall|m: int| i < m < e implies span(#[trigger] segs[m]) < sliver by {
        let x = group_of(segs, m, g);
        assert(x < h) by {
            if x >= h {
                if x > h {
                    assert(starts[h] < starts[x]);
                }
            }
        }
        part_is_shorter(segs, x, m);
        if x > g {
            assert(span(out[x]) < sliver);
        }
    }
    assert(made_of(out[h], segs, starts[h], group_end(segs, n, h)));
}

/// What is reached back among the merged blocks is reached back among the given ones.
proof fn reach_back_below(segs: Seq<SegmentV>, g: int, h: int, sliver: int, i: int)
    requires
        ready(segs),
        forward(segs),
        reached_back(folded(segs, segs.len() as int), g, h, sliver),
        g < folded(segs, segs.len() as int).len(),
        span(folded(segs, segs.len() as int)[g]) < sliver,
        group_starts(segs, segs.len() as int)[g] <= i <= group_end(segs, segs.len() as int, g),
    ensures
        reached_back(segs, i, group_end(segs, segs.len() as int, h), sliver),
        ident(segs[group_end(segs, segs.len() as int, h)]) == ident(
            folded(segs, segs.len() as int)[h],
        ),
{
    let n = segs.len() as int;
    let out = folded(segs, n);
    let starts = group_starts(segs, n);
    folded_groups(segs, n);
    let e = group_end(segs, n, h);
    assert(linked(out, h + 1));
    link_below(segs, h + 1);
    assert(e == starts[h + 1] - 1);
    assert(starts[h + 1] <= starts[g]) by {
        if h + 1 < g {
            assert(starts[h + 1] < starts[g]);
        }
    }
    assert(made_of(out[g], segs, starts[g], group_end(segs, n, g)));
    assert forall|m: int| e < m <= i implies #[trigger] linked(segs, m) by {
        let x = group_of(segs, m, h + 1);
        assert(x <= g) by {
            if x > g {
                assert(starts[g] < starts[x]);
                assert(group_end(segs, n, g) < starts[x]) by {
                    if g + 1 < x {
                        assert(starts[g + 1] < starts[x]);
                    }
                }
            }
        }
        if m == starts[x] {
            assert(linked(out, x));
            link_below(segs, x);
        } else {
            assert(!out[x].unresolved) by {
                assert(linked(out, x));
            }
            links_inside(segs, x, m);
        }
    }
    assert forall|m: int| e < m < i implies span(#[trigger] segs[m]) < sliver by {
        let x = group_of(segs, m, h + 1);
        assert(x <= g) by {
            if x > g {
                assert(starts[g] < starts[x]);
                assert(group_end(segs, n, g) < starts[x]) by {
                    if g + 1 < x {
                        assert(starts[g + 1] < starts[x]);
                    }
                }
            }
        }
        part_is_shorter(segs, x, m);
        if x < g {
            assert(span(out[x]) < sliver);
        }
    }
    assert(made_of(out[h], segs, starts[h], group_end(segs, n, h)));
    assert(alike(out[h], segs[e]));
}

/// Where nothing is left to absorb, merging gives nothing new to absorb.
proof fn merging_adds_no_sliver(segs: Seq<SegmentV>, sliver: int, noise: int, g: int)
    requires
        ready(segs),
        forward(segs),
        forall|i: int| 0 <= i < segs.len() ==> #[trigger] target(segs, i, sliver, noise) is None,
        0 <= g < folded(segs, segs.len() as int).len(),
    ensures
        target(folded(segs, segs.len() as int), g, sliver, noise) is None,
{
    let n = segs.len() as int;
    let out = folded(segs, n);
    let starts = group_starts(segs, n);
    folded_groups(segs, n);
    if target(out, g, sliver, noise) is Some {
        target_is_linked(out, g, sliver, noise);
        let a = starts[g];
        let b = group_end(segs, n, g);
        assert(made_of(out[g], segs, a, b));
        part_is_shorter(segs, g, a);
        part_is_shorter(segs, g, b);
        let any_size = (sliver != 0 && out[g].resolved_by is Some) || span(out[g]) < noise;
        if any_size {
            if linked(out, g) {
                link_below(segs, g);
                assert(longer(segs, a) is Some);
                assert(target(segs, a, sliver, noise) is None);
            } else {
                link_below(segs, g + 1);
                assert(longer(segs, b) is Some);
                assert(target(segs, b, sliver, noise) is None);
            }
        } else {
            let before = linked(out, g) && brackets(out, g, ident(out[g - 1]), sliver);
            let after = linked(out, g + 1) && brackets(out, g, ident(out[g + 1]), sliver);
            assert(before || after);
            if before {
                link_below(segs, g);
                let h = choose|h: int| #[trigger]
                    reached_ahead(out, g, h, sliver) && ident(out[h]) == ident(out[g - 1]);
                reach_ahead_below(segs, g, h, sliver, a);
                assert(reached_back(segs, a, a - 1, sliver));
                assert(brackets(segs, a, ident(segs[a - 1]), sliver));
                assert(bracketed(segs, a, sliver) is Some);
                assert(longer(segs, a) is Some);
                assert(target(segs, a, sliver, noise) is None);
            } else {
                link_below(segs, g + 1);
                let h = choose|h: int| #[trigger]
                    reached_back(out, g, h, sliver) && ident(out[h]) == ident(out[g + 1]);
                reach_back_below(segs, g, h, sliver, b);
                assert(b + 1 == starts[g + 1]);
                assert(reached_ahead(segs, b, b + 1, sliver));
                assert(brackets(segs, b, ident(segs[b + 1]), sliver));
                assert(bracketed(segs, b, sliver) is Some);
                assert(longer(segs, b) is Some);
                assert(target(segs, b, sliver, noise) is None);
            }
        }
    }
}

/// Whether block `k` stands alone: neither neighbour touches it and may be joined with it.
pub open spec fn stands_alone(segs: Seq<SegmentV>, k: int) -> bool {
    !linked(segs, k) && !linked(segs, k + 1)
}

/// Whether a neighbour that may be joined with block `k` carries an activity that is on both sides
/// of it, with nothing but slivers in between.
pub open spec fn went_and_came_back(segs: Seq<SegmentV>, k: int, sliver: int) -> bool {
    (linked(segs, k) && brackets(segs, k, ident(segs[k - 1]), sliver)) || (linked(segs, k + 1)
        && brackets(segs, k, ident(segs[k + 1]), sliver))
}

/// What smoothing leaves: a block below the noise floor stays only where it stands alone; unless
/// the threshold is zero, so does a block that an answer settled, so that one answer never draws as
/// several blocks that touch; and no sliver is left that went and came back.
pub proof fn smoothing_leaves_nothing_to_absorb(
    segs: Seq<SegmentV>,
    sliver: int,
    noise: int,
    k: int,
)
    requires
        forall|i: int| 0 <= i < segs.len() ==> attributed(#[trigger] segs[i]),
        forward(segs),
        0 <= k < smoothed(segs, sliver, noise).len(),
    ensures
        ({
            let out = smoothed(segs, sliver, noise);
            &&& span(out[k]) < noise ==> stands_alone(out, k)
            &&& sliver != 0 && out[k].resolved_by is Some ==> stands_alone(out, k)
            &&& sliver != 0 && span(out[k]) < sliver ==> !went_and_came_back(out, k, sliver)
            &&& target(out, k, sliver, noise) is None
        }),
{
    let given = all_seeded(segs);
    seeded_is_ready(segs);
    seeded_goes_forward(segs);
    rounding_finishes(given, sliver, noise);
    rounding_keeps_inside(given, sliver, noise);
    let r = rounded(given, sliver, noise);
    ready_is_seeded(r);
    merging_adds_no_sliver(r, sliver, noise, k);
    let out = smoothed(segs, sliver, noise);
    assert(out == folded(r, r.len() as int));
    assert(longer(out, k) is None ==> stands_alone(out, k));
}

proof fn seeded_goes_forward(segs: Seq<SegmentV>)
    requires
        forward(segs),
    ensures
        forward(all_seeded(segs)),
{
    let given = all_seeded(segs);
    assert forall|i: int| 0 <= i < given.len() implies (#[trigger] given[i]).start
        <= given[i].end by {
        assert(segs[i].start <= segs[i].end);
    }
}

/// Where no block is below the noise floor, none was settled by an answer and no sliver went and
/// came back, there is nothing to guess at, and rounding changes nothing.
pub proof fn what_is_ambiguous_stays_literal(segs: Seq<SegmentV>, sliver: int, noise: int)
    requires
        ready(segs),
        forall|k: int|
            #![trigger segs[k]]
            0 <= k < segs.len() ==> span(segs[k]) >= noise && segs[k].resolved_by is None && (
            span(segs[k]) < sliver ==> !went_and_came_back(segs, k, sliver)),
    ensures
        rounded(segs, sliver, noise) == segs,
        smoothed(segs, sliver, noise) == coalesced(segs),
{
    next_sliver_sound(segs, sliver, noise, segs.len() as int);
    ready_is_seeded(segs);
    if let Some(i) = next_sliver(segs, sliver, noise, segs.len() as int) {
        assert(span(segs[i]) >= noise);
    }
}

/// Smoothing once is enough: smoothing again with the same numbers changes nothing.
pub proof fn smoothing_is_idempotent(segs: Seq<SegmentV>, sliver: int, noise: int)
    requires
        forall|i: int| 0 <= i < segs.len() ==> attributed(#[trigger] segs[i]),
        forward(segs),
    ensures
        smoothed(smoothed(segs, sliver, noise), sliver, noise) == smoothed(segs, sliver, noise),
{
    let given = all_seeded(segs);
    seeded_is_ready(segs);
    seeded_goes_forward(segs);
    rounding_finishes(given, sliver, noise);
    let r = rounded(given, sliver, noise);
    let n = r.len() as int;
    ready_is_seeded(r);
    let out = smoothed(segs, sliver, noise);
    assert(out == folded(r, n));
    folded_groups(r, n);
    folded_has_shares(r, n);
    assert(ready(out));
    ready_is_seeded(out);
    assert forall|g: int| 0 <= g < out.len() implies #[trigger] target(out, g, sliver, noise) is None by {
        smoothing_leaves_nothing_to_absorb(segs, sliver, noise, g);
    }
    next_sliver_sound(out, sliver, noise, out.len() as int);
    assert(rounded(out, sliver, noise) == out);
    coalescing_is_idempotent(r);
}

proof fn soaking_accounts(target: SegmentV, sliver: SegmentV, before: bool)
    requires
        before ==> adjacent(sliver, target),
        !before ==> adjacent(target, sliver),
        target.start <= target.end,
        sliver.start <= sliver.end,
    ensures
        ({
            let m = soaked(target, sliver, before);
            let both = shortfall()(target) + shortfall()(sliver);
            &&& m.start <= m.end
            &&& both <= shortfall()(m) <= both + 2
            &&& on_milliseconds(target) && on_milliseconds(sliver) ==> on_milliseconds(m)
                && shortfall()(m) == both
        }),
{
    taken_in_adds(target, sliver);
    list::total_arranged::<ForegroundShare>(taken_in(target, sliver), under(false));
    list::total_arranged::<ForegroundShare>(taken_in(target, sliver), under(true));
    let m = soaked(target, sliver, before);
    let hole = if before {
        target.start - sliver.end
    } else {
        sliver.start - target.end
    };
    let x = target.end - target.start;
    let y = sliver.end - sliver.start;
    rounding_three(x, hole, y);
    assert(m.end - m.start == x + hole + y);
}

proof fn rounding_accounts(segs: Seq<SegmentV>, sliver: int, noise: int)
    requires
        ready(segs),
        forall|i: int|
            0 <= i < segs.len() ==> (#[trigger] segs[i]).start <= segs[i].end && shortfall()(segs[i])
                >= 0,
    ensures
        ({
            let out = rounded(segs, sliver, noise);
            let given = list::total(segs, shortfall());
            &&& out.len() <= segs.len()
            &&& forall|k: int|
                0 <= k < out.len() ==> (#[trigger] out[k]).start <= out[k].end && shortfall()(out[k])
                    >= 0
            &&& given <= list::total(out, shortfall()) <= given + 2 * (segs.len() - out.len())
            &&& (forall|i: int| 0 <= i < segs.len() ==> on_milliseconds(#[trigger] segs[i])) ==> (
            forall|k: int| 0 <= k < out.len() ==> on_milliseconds(#[trigger] out[k])) && list::total(
                out,
                shortfall(),
            ) == given
        }),
    decreases segs.len(),
{
    next_sliver_sound(segs, sliver, noise, segs.len() as int);
    if let Some(i) = next_sliver(segs, sliver, noise, segs.len() as int) {
        let t = target(segs, i, sliver, noise)->0;
        let j = step_shape(segs, i, t, sliver, noise);
        let next = absorbed(segs, i, t);
        let m = soaked(segs[t], segs[i], t > i);
        assert(segs[i].start <= segs[i].end && segs[t].start <= segs[t].end);
        soaking_accounts(segs[t], segs[i], t > i);
        fused_total(segs, shortfall(), j, m);
        assert forall|k: int| 0 <= k < next.len() implies (#[trigger] next[k]).start <= next[k].end
            && shortfall()(next[k]) >= 0 by {
            if k < j {
                assert(next[k] == segs[k]);
            } else if k == j {
                assert(next[k] == m);
            } else {
                assert(next[k] == segs[k + 1]);
            }
        }
        if forall|i: int| 0 <= i < segs.len() ==> on_milliseconds(#[trigger] segs[i]) {
            assert(on_milliseconds(segs[i]) && on_milliseconds(segs[t]));
            assert forall|k: int| 0 <= k < next.len() implies on_milliseconds(#[trigger] next[k]) by {
                if k < j {
                    assert(next[k] == segs[k]);
                } else if k == j {
                    assert(next[k] == m);
                } else {
                    assert(next[k] == segs[k + 1]);
                }
            }
        }
        rounding_accounts(next, sliver, noise);
        assert(rounded(segs, sliver, noise) == rounded(next, sliver, noise));
    } else {
        assert(rounded(segs, sliver, noise) == segs);
    }
}

/// Every smoothed block's shares and bridged holes add up to what it draws, but for what rounding to
/// whole milliseconds takes: no block's exceed its span, so a hole that is drawn over is never
/// counted, and together they fall short by two milliseconds at most for each block that was joined
/// to another. For blocks cut on whole milliseconds they add up exactly.
pub proof fn smoothing_accounts_for_every_block(segs: Seq<SegmentV>, sliver: int, noise: int)
    requires
        forall|i: int| 0 <= i < segs.len() ==> attributed(#[trigger] segs[i]),
        forall|i: int|
            0 <= i < segs.len() ==> (#[trigger] segs[i]).start <= segs[i].end && accounted(
                seeded(segs[i]),
            ),
    ensures
        ({
            let out = smoothed(segs, sliver, noise);
            &&& forall|k: int| 0 <= k < out.len() ==> shortfall()(#[trigger] out[k]) >= 0
            &&& list::total(out, shortfall()) <= 2 * (segs.len() - out.len())
            &&& (forall|i: int| 0 <= i < segs.len() ==> on_milliseconds(#[trigger] segs[i]))
                ==> forall|k: int| 0 <= k < out.len() ==> accounted(#[trigger] out[k])
        }),
{
    let given = all_seeded(segs);
    let n = given.len() as int;
    seeded_is_ready(segs);
    assert forall|i: int| 0 <= i < n implies (#[trigger] given[i]).start <= given[i].end
        && accounted(given[i]) && shortfall()(given[i]) >= 0 by {
        assert(segs[i].start <= segs[i].end);
    }
    none_short(given, n);
    rounding_accounts(given, sliver, noise);
    rounding_finishes(given, sliver, noise);
    let r = rounded(given, sliver, noise);
    let out = smoothed(segs, sliver, noise);
    ready_is_seeded(r);
    folded_accounts(r, r.len() as int);
    if forall|i: int| 0 <= i < segs.len() ==> on_milliseconds(#[trigger] segs[i]) {
        assert forall|i: int| 0 <= i < n implies on_milliseconds(#[trigger] given[i]) by {
            assert(on_milliseconds(segs[i]));
        }
        nothing_short(out, out.len() as int);
    }
}

/// The length of a block less the holes bridged to draw it, in nanoseconds.
pub open spec fn net_length() -> spec_fn(SegmentV) -> int {
    |s: SegmentV| s.end - s.start - s.bridged_ms * 1_000_000
}

/// Whether the hole before block `i` lasts whole milliseconds.
pub open spec fn whole_hole(segs: Seq<SegmentV>, i: int) -> bool {
    (segs[i].start - segs[i - 1].end) % 1_000_000 == 0
}

/// Whether every hole between two blocks lasts whole milliseconds.
pub open spec fn whole_holes(segs: Seq<SegmentV>) -> bool {
    forall|i: int| 0 < i < segs.len() ==> #[trigger] whole_hole(segs, i)
}

/// What bridging a hole leaves of it: less than a millisecond.
proof fn bridging_leaves(hole: int)
    requires
        0 <= hole,
    ensures
        0 <= hole - whole_millis(hole) * 1_000_000 <= 999_999,
        hole % 1_000_000 == 0 ==> whole_millis(hole) * 1_000_000 == hole,
{
}

proof fn rounding_keeps_length(segs: Seq<SegmentV>, sliver: int, noise: int)
    requires
        ready(segs),
    ensures
        ({
            let out = rounded(segs, sliver, noise);
            let grown = list::total(out, net_length()) - list::total(segs, net_length());
            &&& out.len() <= segs.len()
            &&& 0 <= grown <= 999_999 * (segs.len() - out.len())
            &&& whole_holes(segs) ==> whole_holes(out) && grown == 0
        }),
    decreases segs.len(),
{
    next_sliver_sound(segs, sliver, noise, segs.len() as int);
    if let Some(i) = next_sliver(segs, sliver, noise, segs.len() as int) {
        let t = target(segs, i, sliver, noise)->0;
        let j = step_shape(segs, i, t, sliver, noise);
        let next = absorbed(segs, i, t);
        let m = soaked(segs[t], segs[i], t > i);
        bridging_leaves(segs[j + 1].start - segs[j].end);
        fused_total(segs, net_length(), j, m);
        if whole_holes(segs) {
            assert(whole_hole(segs, j + 1));
            assert forall|k: int| 0 < k < next.len() implies #[trigger] whole_hole(next, k) by {
                if k <= j {
                    assert(whole_hole(segs, k));
                    assert(next[k - 1] == segs[k - 1]);
                    if k < j {
                        assert(next[k] == segs[k]);
                    } else {
                        assert(next[k] == m);
                    }
                } else {
                    assert(whole_hole(segs, k + 1));
                    assert(next[k] == segs[k + 1]);
                    if k == j + 1 {
                        assert(next[k - 1] == m);
                    } else {
                        assert(next[k - 1] == segs[k]);
                    }
                }
            }
        }
        rounding_keeps_length(next, sliver, noise);
    }
}

proof fn merging_keeps_length(segs: Seq<SegmentV>, n: int)
    requires
        0 <= n <= segs.len(),
    ensures
        ({
            let out = folded(segs, n);
            let grown = list::total(out, net_length()) - list::sum(segs, net_length(), n);
            &&& out.len() <= n
            &&& n > 0 ==> out.len() > 0 && out.last().end == segs[n - 1].end
            &&& 0 <= grown <= 999_999 * (n - out.len())
            &&& whole_holes(segs) ==> grown == 0
        }),
    decreases n,
{
    let f = net_length();
    if n > 0 {
        merging_keeps_length(segs, n - 1);
        let rest = folded(segs, n - 1);
        let seg = segs[n - 1];
        if rest.len() > 0 && mergeable(rest.last(), seg) {
            let m = merge(rest.last(), seg);
            bridging_leaves(seg.start - rest.last().end);
            if n > 1 && whole_holes(segs) {
                assert(whole_hole(segs, n - 1));
            }
            assert(rest =~= rest.drop_last().push(rest.last()));
            list::total_push(rest.drop_last(), f, rest.last());
            list::total_push(rest.drop_last(), f, m);
        } else {
            list::total_push(rest, f, seg);
        }
    } else {
        assert(folded(segs, n) =~= Seq::empty());
    }
}

/// No second is created or lost: the lengths of the blocks less the holes bridged to draw them add
/// up to the same before and after, but for what is left of a bridged hole when it is rounded to
/// whole milliseconds, less than one for each block that was joined to another. Where every hole
/// lasts whole milliseconds they add up to exactly the same.
pub proof fn smoothing_keeps_every_second(segs: Seq<SegmentV>, sliver: int, noise: int)
    requires
        forall|i: int| 0 <= i < segs.len() ==> attributed(#[trigger] segs[i]),
    ensures
        ({
            let out = smoothed(segs, sliver, noise);
            let grown = list::total(out, net_length()) - list::total(segs, net_length());
            &&& out.len() <= segs.len()
            &&& 0 <= grown <= 999_999 * (segs.len() - out.len())
            &&& whole_holes(segs) ==> grown == 0
        }),
{
    let given = all_seeded(segs);
    let n = segs.len() as int;
    seeded_is_ready(segs);
    assert forall|i: int| 0 <= i < n implies net_length()(#[trigger] given[i]) == net_length()(
        segs[i],
    ) by {}
    list::sum_prefix(given, segs, net_length(), n);
    if whole_holes(segs) {
        assert forall|i: int| 0 < i < given.len() implies #[trigger] whole_hole(given, i) by {
            assert(whole_hole(segs, i));
        }
    }
    rounding_keeps_length(given, sliver, noise);
    rounding_finishes(given, sliver, noise);
    let r = rounded(given, sliver, noise);
    ready_is_seeded(r);
    merging_keeps_length(r, r.len() as int);
}

/// Raising the threshold takes nothing out of reach: in one list, a bracket that holds at a lower
/// threshold holds at a higher one, and a block that may be absorbed at the lower may be absorbed
/// at the higher.
pub proof fn raising_the_threshold_admits_no_less(
    segs: Seq<SegmentV>,
    i: int,
    low: int,
    high: int,
    noise: int,
)
    requires
        0 <= low <= high,
    ensures
        forall|id: (Seq<char>, Seq<char>)| #[trigger]
            brackets(segs, i, id, low) ==> brackets(segs, i, id, high),
        target(segs, i, low, noise) is Some ==> target(segs, i, high, noise) is Some,
{
    assert forall|id: (Seq<char>, Seq<char>)| #[trigger]
        brackets(segs, i, id, low) implies brackets(segs, i, id, high) by {
        let k = choose|k: int| #[trigger] reached_back(segs, i, k, low) && ident(segs[k]) == id;
        assert(reached_back(segs, i, k, high));
        let l = choose|l: int| #[trigger] reached_ahead(segs, i, l, low) && ident(segs[l]) == id;
        assert(reached_ahead(segs, i, l, high));
    }
    if target(segs, i, low, noise) is Some && span(segs[i]) >= noise && !(low != 0
        && segs[i].resolved_by is Some) {
        if linked(segs, i) && brackets(segs, i, ident(segs[i - 1]), low) {
            assert(brackets(segs, i, ident(segs[i - 1]), high));
        }
        if linked(segs, i + 1) && brackets(segs, i, ident(segs[i + 1]), low) {
            assert(brackets(segs, i, ident(segs[i + 1]), high));
        }
        if segs[i].resolved_by is Some {
            assert(longer(segs, i) is Some);
        }
    }
}

} // verus!
