//! Round away the crumbs, in the view only.
//!
//! A stretch of one app is routinely interrupted by a few seconds of another and comes back as
//! three blocks. This step folds such slivers into a neighbour. It is a display transform: it runs
//! after the whole pipeline and writes nothing.
//!
//! The rules, in their precedence:
//!
//! 1. The owner's answer outranks everything: blocks join only where they carry the same answer, or
//!    none. A block still asking neither absorbs nor is absorbed.
//! 2. Below the noise floor nothing is its own block: it joins its longer neighbour.
//! 3. Went and came back: a sliver flanked by the same activity on both sides, with nothing but
//!    slivers in between, joins a neighbour that is that activity. Otherwise it stays as it is.
//! 4. A decided stretch never shatters: blocks under one answer join at any size.
//! 5. The shortest is absorbed first, ties broken by label, device and start, so the result does
//!    not depend on which end the list is read from.
//! 6. A threshold of zero leaves the day literal, but for the noise floor.

use vstd::prelude::*;

use crate::coalesce::{
    adjacent, all_seeded, burden, burden_of, burden_of_grows, coalesce, coalesce_fits, coalesced,
    credit, credited, credited_adds, folded_sound, hole_before, is_adjacent, load,
    load_is_positive, loads, seed_shares, seeded, share_size, size,
};
use crate::list;
use crate::model::{
    activity_label, attributed, foreground_of, label, share_ms, sum_shares, summable, under,
    ForegroundShare, Segment, SegmentV, ShareV,
};
use crate::order::{arranged, sort};
use crate::text;
use crate::time::{countable, whole_millis, whole_seconds, Duration};

verus! {

/// Default sliver threshold in seconds.
pub const DEFAULT_SLIVER_SECS: i64 = 15;

/// Below this a segment is watcher jitter. Not switchable.
pub const NOISE_FLOOR_SECS: i64 = 5;

/// The two numbers smoothing runs on.
#[derive(Clone, Copy, Debug)]
pub struct SmoothOptions {
    /// Slivers are shorter than this. Zero leaves the day literal.
    pub sliver: Duration,
    /// Always applied, whatever `sliver` says.
    pub noise_floor: Duration,
}

impl SmoothOptions {
    pub fn from_sliver_secs(secs: i64) -> (r: SmoothOptions)
        ensures
            r.sliver@ == if secs > 0 {
                secs * 1_000_000_000
            } else {
                0
            },
            r.noise_floor@ == NOISE_FLOOR_SECS * 1_000_000_000,
    {
        SmoothOptions {
            sliver: Duration::seconds(
                if secs > 0 {
                    secs
                } else {
                    0
                },
            ),
            noise_floor: Duration::seconds(NOISE_FLOOR_SECS),
        }
    }
}

impl Default for SmoothOptions {
    fn default() -> (r: SmoothOptions)
        ensures
            r.sliver@ == DEFAULT_SLIVER_SECS * 1_000_000_000,
            r.noise_floor@ == NOISE_FLOOR_SECS * 1_000_000_000,
    {
        SmoothOptions::from_sliver_secs(DEFAULT_SLIVER_SECS)
    }
}

/// The label a block draws under: the owner's words where they gave any.
pub open spec fn drawn_label(seg: SegmentV) -> Seq<char> {
    match seg.label_override {
        Some(l) => l,
        None => label(foreground_of(seg).data),
    }
}

/// Whether two blocks may be joined at all, before any threshold is considered. Time never crosses
/// the line between counting and not counting.
pub open spec fn joinable(a: SegmentV, b: SegmentV) -> bool {
    !a.unresolved && !b.unresolved && a.resolved_by == b.resolved_by && a.ignored == b.ignored
        && a.not_counted == b.not_counted
}

/// Whether block `k` and the one before it touch within jitter and may be joined.
pub open spec fn linked(segs: Seq<SegmentV>, k: int) -> bool {
    0 < k < segs.len() && adjacent(segs[k - 1], segs[k]) && joinable(segs[k - 1], segs[k])
}

pub open spec fn span(seg: SegmentV) -> int {
    seg.end - seg.start
}

/// The linked neighbour of `i` with the most time in it, the one before on a tie.
pub open spec fn longer(segs: Seq<SegmentV>, i: int) -> Option<int> {
    if linked(segs, i) && linked(segs, i + 1) {
        if span(segs[i + 1]) > span(segs[i - 1]) {
            Some(i + 1)
        } else {
            Some(i - 1)
        }
    } else if linked(segs, i) {
        Some(i - 1)
    } else if linked(segs, i + 1) {
        Some(i + 1)
    } else {
        None
    }
}

/// The activity of one block, as brackets compare it: device and label.
pub open spec fn ident(seg: SegmentV) -> (Seq<char>, Seq<char>) {
    (foreground_of(seg).device, drawn_label(seg))
}

/// Whether block `k`, before `i`, is reached from `i` across nothing but linked slivers.
pub open spec fn reached_back(segs: Seq<SegmentV>, i: int, k: int, sliver: int) -> bool {
    &&& 0 <= k < i
    &&& forall|m: int| k < m <= i ==> #[trigger] linked(segs, m)
    &&& forall|m: int| k < m < i ==> span(#[trigger] segs[m]) < sliver
}

/// Whether block `k`, behind `i`, is reached from `i` across nothing but linked slivers.
pub open spec fn reached_ahead(segs: Seq<SegmentV>, i: int, k: int, sliver: int) -> bool {
    &&& i < k < segs.len()
    &&& forall|m: int| i < m <= k ==> #[trigger] linked(segs, m)
    &&& forall|m: int| i < m < k ==> span(#[trigger] segs[m]) < sliver
}

/// Whether an activity flanks block `i` on both sides, with nothing but slivers in between.
pub open spec fn brackets(
    segs: Seq<SegmentV>,
    i: int,
    id: (Seq<char>, Seq<char>),
    sliver: int,
) -> bool {
    &&& exists|k: int| #[trigger] reached_back(segs, i, k, sliver) && ident(segs[k]) == id
    &&& exists|k: int| #[trigger] reached_ahead(segs, i, k, sliver) && ident(segs[k]) == id
}

/// The linked neighbour of `i` that carries the activity of a bracket around `i`: the longer one in
/// whole milliseconds, the one before on a tie.
pub open spec fn bracketed(segs: Seq<SegmentV>, i: int, sliver: int) -> Option<int> {
    let before = linked(segs, i) && brackets(segs, i, ident(segs[i - 1]), sliver);
    let after = linked(segs, i + 1) && brackets(segs, i, ident(segs[i + 1]), sliver);
    if before && after {
        if whole_millis(span(segs[i + 1])) > whole_millis(span(segs[i - 1])) {
            Some(i + 1)
        } else {
            Some(i - 1)
        }
    } else if before {
        Some(i - 1)
    } else if after {
        Some(i + 1)
    } else {
        None
    }
}

/// Where block `i` goes, if anywhere.
pub open spec fn target(segs: Seq<SegmentV>, i: int, sliver: int, noise: int) -> Option<int> {
    if sliver != 0 && segs[i].resolved_by is Some {
        longer(segs, i)
    } else if span(segs[i]) < noise {
        longer(segs, i)
    } else if sliver == 0 || span(segs[i]) >= sliver {
        None
    } else {
        bracketed(segs, i, sliver)
    }
}

/// Whether `a` is absorbed before `b`: the shorter, then the lower label, then the lower device,
/// then the earlier.
pub open spec fn goes_first(a: SegmentV, b: SegmentV) -> bool {
    let (x, y) = (whole_millis(span(a)), whole_millis(span(b)));
    let (l, m) = (drawn_label(a), drawn_label(b));
    let (d, e) = (foreground_of(a).device, foreground_of(b).device);
    x < y || (x == y && (text::before(l, m) || (l == m && (text::before(d, e) || (d == e && a.start
        < b.start)))))
}

/// Among the first `n` blocks, the one to absorb next.
pub open spec fn next_sliver(segs: Seq<SegmentV>, sliver: int, noise: int, n: int) -> Option<int>
    decreases n,
{
    if n <= 0 {
        None
    } else {
        let held = next_sliver(segs, sliver, noise, n - 1);
        if target(segs, n - 1, sliver, noise) is None {
            held
        } else {
            match held {
                Some(h) => if goes_first(segs[n - 1], segs[h]) {
                    Some(n - 1)
                } else {
                    held
                },
                None => Some(n - 1),
            }
        }
    }
}

/// `labels` with those of the first `n` of `more` that it does not hold and that are not `own`.
pub open spec fn noted(
    labels: Seq<Seq<char>>,
    more: Seq<Seq<char>>,
    own: Seq<char>,
    n: int,
) -> Seq<Seq<char>>
    decreases n,
{
    if n <= 0 {
        labels
    } else {
        let rest = noted(labels, more, own, n - 1);
        if more[n - 1] == own || rest.contains(more[n - 1]) {
            rest
        } else {
            rest.push(more[n - 1])
        }
    }
}

/// The milliseconds recorded in a block, counted or not.
pub open spec fn recorded(seg: SegmentV) -> int {
    share_ms(seg.foreground_shares, false) + share_ms(seg.foreground_shares, true)
}

/// The shares of `target` once it has taken in the time of `sliver`. That time goes to the
/// target's own activity and stays counted, or not counted, as it was.
pub open spec fn taken_in(target: SegmentV, sliver: SegmentV) -> Seq<ShareV> {
    let data = foreground_of(target).data;
    let kind = target.ignored || target.not_counted;
    let own = credited(
        target.foreground_shares,
        data,
        share_ms(sliver.foreground_shares, kind),
        kind,
    );
    let other = share_ms(sliver.foreground_shares, !kind);
    if other == 0 {
        own
    } else {
        credited(own, data, other, !kind)
    }
}

/// `target` grown over `sliver`, which lies right behind it, or right before it where `before`.
pub open spec fn soaked(target: SegmentV, sliver: SegmentV, before: bool) -> SegmentV {
    let hole = if before {
        target.start - sliver.end
    } else {
        sliver.start - target.end
    };
    let more = seq![drawn_label(sliver)] + sliver.absorbed_labels;
    SegmentV {
        start: if before {
            sliver.start
        } else {
            target.start
        },
        end: if before {
            target.end
        } else {
            sliver.end
        },
        bridged_ms: target.bridged_ms + whole_millis(hole) + sliver.bridged_ms,
        smoothed_seconds: target.smoothed_seconds + whole_seconds(recorded(sliver) * 1_000_000)
            + sliver.smoothed_seconds,
        foreground_shares: arranged::<ForegroundShare>(taken_in(target, sliver)),
        absorbed_labels: arranged::<String>(
            noted(target.absorbed_labels, more, drawn_label(target), more.len() as int),
        ),
        ..target
    }
}

/// The list with blocks `j` and `j + 1` replaced by `m`.
pub open spec fn fused(segs: Seq<SegmentV>, j: int, m: SegmentV) -> Seq<SegmentV> {
    segs.update(j, m).remove(j + 1)
}

/// The list with block `i` absorbed into its neighbour `t`.
pub open spec fn absorbed(segs: Seq<SegmentV>, i: int, t: int) -> Seq<SegmentV> {
    if t > i {
        fused(segs, i, soaked(segs[t], segs[i], true))
    } else {
        fused(segs, t, soaked(segs[t], segs[i], false))
    }
}

/// The list with slivers absorbed, one after another, until none is left to absorb.
pub open spec fn rounded(segs: Seq<SegmentV>, sliver: int, noise: int) -> Seq<SegmentV>
    decreases segs.len(),
{
    match next_sliver(segs, sliver, noise, segs.len() as int) {
        Some(i) => {
            let next = absorbed(segs, i, target(segs, i, sliver, noise)->0);
            if next.len() < segs.len() {
                rounded(next, sliver, noise)
            } else {
                segs
            }
        },
        None => segs,
    }
}

/// The smoothed list.
pub open spec fn smoothed(segs: Seq<SegmentV>, sliver: int, noise: int) -> Seq<SegmentV> {
    coalesced(rounded(all_seeded(segs), sliver, noise))
}

/// Whether what the blocks keep adds up to no more than `i64` holds, now and after every step of the
/// rounding.
pub open spec fn stays_within(segs: Seq<SegmentV>, sliver: int, noise: int) -> bool
    decreases segs.len(),
{
    &&& burden(segs, segs.len() as int) <= i64::MAX
    &&& match next_sliver(segs, sliver, noise, segs.len() as int) {
        Some(i) => {
            let next = absorbed(segs, i, target(segs, i, sliver, noise)->0);
            next.len() < segs.len() ==> stays_within(next, sliver, noise)
        },
        None => true,
    }
}

/// Every block has its foreground, and `i64` holds what smoothing adds up.
pub open spec fn smooth_fits(segs: Seq<SegmentV>, sliver: int, noise: int) -> bool {
    &&& forall|i: int| 0 <= i < segs.len() ==> attributed(#[trigger] segs[i])
    &&& stays_within(all_seeded(segs), sliver, noise)
}

pub proof fn target_is_linked(segs: Seq<SegmentV>, i: int, sliver: int, noise: int)
    requires
        0 <= i < segs.len(),
    ensures
        target(segs, i, sliver, noise) matches Some(t) ==> 0 <= t < segs.len() && ((t == i - 1
            && linked(segs, i)) || (t == i + 1 && linked(segs, i + 1))),
{
}

pub proof fn next_sliver_sound(segs: Seq<SegmentV>, sliver: int, noise: int, n: int)
    requires
        0 <= n <= segs.len(),
    ensures
        match next_sliver(segs, sliver, noise, n) {
            Some(i) => 0 <= i < n && target(segs, i, sliver, noise) is Some,
            None => forall|j: int| 0 <= j < n ==> #[trigger] target(segs, j, sliver, noise) is None,
        },
    decreases n,
{
    if n > 0 {
        next_sliver_sound(segs, sliver, noise, n - 1);
    }
}

fn label_of(seg: &Segment) -> (r: String)
    requires
        attributed(seg.deep_view()),
    ensures
        r@ == drawn_label(seg.deep_view()),
{
    assert(seg.active.deep_view().len() == seg.active.len());
    match &seg.label_override {
        Some(l) => l.clone(),
        None => activity_label(&seg.foreground_slice().data),
    }
}

fn is_joinable(a: &Segment, b: &Segment) -> (r: bool)
    ensures
        r == joinable(a.deep_view(), b.deep_view()),
{
    !a.unresolved && !b.unresolved && list::same_option(&a.resolved_by, &b.resolved_by)
        && a.ignored == b.ignored && a.not_counted == b.not_counted
}

fn is_linked(segs: &Vec<Segment>, k: usize) -> (r: bool)
    ensures
        r == linked(segs.deep_view(), k as int),
{
    assert(segs.deep_view().len() == segs.len());
    if k == 0 || k >= segs.len() {
        return false;
    }
    assert(segs.deep_view()[k as int] == segs@[k as int].deep_view());
    assert(segs.deep_view()[k - 1] == segs@[k - 1].deep_view());
    is_adjacent(&segs[k - 1], &segs[k]) && is_joinable(&segs[k - 1], &segs[k])
}

fn span_of(seg: &Segment) -> (r: Duration)
    ensures
        r@ == span(seg.deep_view()),
        countable(r@),
{
    let _ = seg.start.nanos();
    let _ = seg.end.nanos();
    seg.end.since(seg.start)
}

fn longer_neighbour(segs: &Vec<Segment>, i: usize) -> (r: Option<usize>)
    requires
        i < segs.len(),
    ensures
        match r {
            Some(t) => t < segs.len() && longer(segs.deep_view(), i as int) == Some(t as int),
            None => longer(segs.deep_view(), i as int) is None,
        },
{
    let before = is_linked(segs, i);
    let after = is_linked(segs, i + 1);
    assert(segs.deep_view().len() == segs.len());
    if before && after {
        assert(segs.deep_view()[i + 1] == segs@[i + 1].deep_view());
        assert(segs.deep_view()[i - 1] == segs@[i - 1].deep_view());
        if span_of(&segs[i + 1]).nanos > span_of(&segs[i - 1]).nanos {
            Some(i + 1)
        } else {
            Some(i - 1)
        }
    } else if before {
        Some(i - 1)
    } else if after {
        Some(i + 1)
    } else {
        None
    }
}

fn is_ident(seg: &Segment, device: &String, drawn: &String) -> (r: bool)
    requires
        attributed(seg.deep_view()),
    ensures
        r == (ident(seg.deep_view()) == (device@, drawn@)),
{
    assert(seg.active.deep_view().len() == seg.active.len());
    seg.foreground_slice().device == *device && label_of(seg) == *drawn
}

/// Whether the activity is met behind `i` across nothing but linked slivers.
fn met_ahead(segs: &Vec<Segment>, i: usize, device: &String, drawn: &String, sliver: Duration) -> (r:
    bool)
    requires
        i < segs.len(),
        forall|k: int| 0 <= k < segs.len() ==> attributed(#[trigger] segs.deep_view()[k]),
    ensures
        r == exists|k: int| #[trigger]
            reached_ahead(segs.deep_view(), i as int, k, sliver@) && ident(segs.deep_view()[k]) == (
            device@,
            drawn@,
        ),
{
    let ghost sv = segs.deep_view();
    assert(sv.len() == segs.len());
    let mut at: usize = i;
    while at + 1 < segs.len()
        invariant
            i <= at < segs.len(),
            sv == segs.deep_view(),
            sv.len() == segs.len(),
            forall|k: int| 0 <= k < segs.len() ==> attributed(#[trigger] segs.deep_view()[k]),
            forall|m: int| i < m <= at ==> #[trigger] linked(sv, m),
            forall|m: int| i < m <= at ==> span(#[trigger] sv[m]) < sliver@,
            forall|m: int| i < m <= at ==> ident(#[trigger] sv[m]) != (device@, drawn@),
        decreases segs.len() - at,
    {
        let step: usize = at + 1;
        assert(sv[step as int] == segs@[step as int].deep_view());
        if !is_linked(segs, step) {
            assert forall|k: int| #[trigger] reached_ahead(sv, i as int, k, sliver@) && ident(sv[k])
                == (device@, drawn@) implies false by {
                if k > at {
                    assert(linked(sv, step as int));
                }
            }
            return false;
        }
        assert(attributed(segs.deep_view()[step as int]));
        if is_ident(&segs[step], device, drawn) {
            assert(reached_ahead(sv, i as int, step as int, sliver@));
            return true;
        }
        if span_of(&segs[step]).nanos >= sliver.nanos {
            assert forall|k: int| #[trigger] reached_ahead(sv, i as int, k, sliver@) && ident(sv[k])
                == (device@, drawn@) implies false by {
                if k > step {
                    assert(span(sv[step as int]) < sliver@);
                }
            }
            return false;
        }
        at = step;
    }
    false
}

/// Whether the activity is met before `i` across nothing but linked slivers.
fn met_back(segs: &Vec<Segment>, i: usize, device: &String, drawn: &String, sliver: Duration) -> (r:
    bool)
    requires
        i < segs.len(),
        forall|k: int| 0 <= k < segs.len() ==> attributed(#[trigger] segs.deep_view()[k]),
    ensures
        r == exists|k: int| #[trigger]
            reached_back(segs.deep_view(), i as int, k, sliver@) && ident(segs.deep_view()[k]) == (
            device@,
            drawn@,
        ),
{
    let ghost sv = segs.deep_view();
    assert(sv.len() == segs.len());
    let mut at: usize = i;
    while at > 0
        invariant
            at <= i < segs.len(),
            sv == segs.deep_view(),
            sv.len() == segs.len(),
            forall|k: int| 0 <= k < segs.len() ==> attributed(#[trigger] segs.deep_view()[k]),
            forall|m: int| at < m <= i ==> #[trigger] linked(sv, m),
            forall|m: int| at <= m < i ==> span(#[trigger] sv[m]) < sliver@,
            forall|m: int| at <= m < i ==> ident(#[trigger] sv[m]) != (device@, drawn@),
        decreases at,
    {
        let step: usize = at - 1;
        assert(sv[step as int] == segs@[step as int].deep_view());
        if !is_linked(segs, at) {
            assert forall|k: int| #[trigger] reached_back(sv, i as int, k, sliver@) && ident(sv[k])
                == (device@, drawn@) implies false by {
                if k < at {
                    assert(linked(sv, at as int));
                }
            }
            return false;
        }
        assert(attributed(segs.deep_view()[step as int]));
        if is_ident(&segs[step], device, drawn) {
            assert(reached_back(sv, i as int, step as int, sliver@));
            return true;
        }
        if span_of(&segs[step]).nanos >= sliver.nanos {
            assert forall|k: int| #[trigger] reached_back(sv, i as int, k, sliver@) && ident(sv[k])
                == (device@, drawn@) implies false by {
                if k < step {
                    assert(span(sv[step as int]) < sliver@);
                }
            }
            return false;
        }
        at = step;
    }
    false
}

fn bracketed_neighbour(segs: &Vec<Segment>, i: usize, sliver: Duration) -> (r: Option<usize>)
    requires
        i < segs.len(),
        forall|k: int| 0 <= k < segs.len() ==> attributed(#[trigger] segs.deep_view()[k]),
    ensures
        match r {
            Some(t) => t < segs.len() && bracketed(segs.deep_view(), i as int, sliver@) == Some(
                t as int,
            ),
            None => bracketed(segs.deep_view(), i as int, sliver@) is None,
        },
{
    let ghost sv = segs.deep_view();
    assert(sv.len() == segs.len());
    let mut before = is_linked(segs, i);
    if before {
        assert(sv[i - 1] == segs@[i - 1].deep_view());
        assert(attributed(segs.deep_view()[i - 1]));
        assert(sv[i - 1].active.len() == segs@[i - 1].active.len());
        let drawn = label_of(&segs[i - 1]);
        before = met_ahead(segs, i, &segs[i - 1].foreground_slice().device, &drawn, sliver);
        assert(reached_back(sv, i as int, i - 1, sliver@));
    }
    let mut after = is_linked(segs, i + 1);
    if after {
        assert(sv[i + 1] == segs@[i + 1].deep_view());
        assert(attributed(segs.deep_view()[i + 1]));
        assert(sv[i + 1].active.len() == segs@[i + 1].active.len());
        let drawn = label_of(&segs[i + 1]);
        after = met_back(segs, i, &segs[i + 1].foreground_slice().device, &drawn, sliver);
        assert(reached_ahead(sv, i as int, i + 1, sliver@));
    }
    if before && after {
        if span_of(&segs[i + 1]).num_milliseconds() > span_of(&segs[i - 1]).num_milliseconds() {
            Some(i + 1)
        } else {
            Some(i - 1)
        }
    } else if before {
        Some(i - 1)
    } else if after {
        Some(i + 1)
    } else {
        None
    }
}

fn target_for(segs: &Vec<Segment>, i: usize, opts: &SmoothOptions) -> (r: Option<usize>)
    requires
        i < segs.len(),
        forall|k: int| 0 <= k < segs.len() ==> attributed(#[trigger] segs.deep_view()[k]),
    ensures
        match r {
            Some(t) => t < segs.len() && target(
                segs.deep_view(),
                i as int,
                opts.sliver@,
                opts.noise_floor@,
            ) == Some(t as int),
            None => target(segs.deep_view(), i as int, opts.sliver@, opts.noise_floor@) is None,
        },
{
    assert(segs.deep_view()[i as int] == segs@[i as int].deep_view());
    if opts.sliver.nanos != 0 && segs[i].resolved_by.is_some() {
        return longer_neighbour(segs, i);
    }
    let lasts: i128 = span_of(&segs[i]).nanos;
    if lasts < opts.noise_floor.nanos {
        return longer_neighbour(segs, i);
    }
    if opts.sliver.nanos == 0 || lasts >= opts.sliver.nanos {
        return None;
    }
    bracketed_neighbour(segs, i, opts.sliver)
}

fn is_first(a: &Segment, b: &Segment) -> (r: bool)
    requires
        attributed(a.deep_view()),
        attributed(b.deep_view()),
    ensures
        r == goes_first(a.deep_view(), b.deep_view()),
{
    assert(a.active.deep_view().len() == a.active.len());
    assert(b.active.deep_view().len() == b.active.len());
    let x = span_of(a).num_milliseconds();
    let y = span_of(b).num_milliseconds();
    if x != y {
        return x < y;
    }
    let l = label_of(a);
    let m = label_of(b);
    let d = &a.foreground_slice().device;
    let e = &b.foreground_slice().device;
    text::is_before(l.as_str(), m.as_str()) || (l == m && (text::is_before(d.as_str(), e.as_str())
        || (*d == *e && a.start.earlier_than(b.start))))
}

fn next_absorption(segs: &Vec<Segment>, opts: &SmoothOptions) -> (r: Option<(usize, usize)>)
    requires
        forall|k: int| 0 <= k < segs.len() ==> attributed(#[trigger] segs.deep_view()[k]),
    ensures
        match r {
            Some(a) => next_sliver(
                segs.deep_view(),
                opts.sliver@,
                opts.noise_floor@,
                segs.len() as int,
            ) == Some(a.0 as int) && a.0 < segs.len() && target(
                segs.deep_view(),
                a.0 as int,
                opts.sliver@,
                opts.noise_floor@,
            ) == Some(a.1 as int) && a.1 < segs.len(),
            None => next_sliver(
                segs.deep_view(),
                opts.sliver@,
                opts.noise_floor@,
                segs.len() as int,
            ) is None,
        },
{
    let ghost sv = segs.deep_view();
    assert(sv.len() == segs.len());
    let mut held: Option<(usize, usize)> = None;
    let mut i: usize = 0;
    while i < segs.len()
        invariant
            i <= segs.len(),
            sv == segs.deep_view(),
            sv.len() == segs.len(),
            forall|k: int| 0 <= k < segs.len() ==> attributed(#[trigger] segs.deep_view()[k]),
            match held {
                Some(h) => h.0 < i && h.1 < segs.len() && next_sliver(
                    sv,
                    opts.sliver@,
                    opts.noise_floor@,
                    i as int,
                ) == Some(h.0 as int) && target(sv, h.0 as int, opts.sliver@, opts.noise_floor@)
                    == Some(h.1 as int),
                None => next_sliver(sv, opts.sliver@, opts.noise_floor@, i as int) is None,
            },
        decreases segs.len() - i,
    {
        match target_for(segs, i, opts) {
            Some(t) => {
                let take: bool = match held {
                    Some(h) => {
                        assert(sv[i as int] == segs@[i as int].deep_view());
                        assert(sv[h.0 as int] == segs@[h.0 as int].deep_view());
                        assert(attributed(segs.deep_view()[i as int]));
                        assert(attributed(segs.deep_view()[h.0 as int]));
                        is_first(&segs[i], &segs[h.0])
                    },
                    None => true,
                };
                if take {
                    held = Some((i, t));
                }
            },
            None => {},
        }
        i = i + 1;
    }
    held
}

/// Partial sums under a flag stay within the sizes of the shares together.
pub proof fn shares_summable(shares: Seq<ShareV>, not_counted: bool, n: int)
    requires
        0 <= n <= shares.len(),
    ensures
        size(list::sum(shares, under(not_counted), n)) <= list::sum(shares, share_size(), n),
        size(list::sum(shares, under(false), n) + list::sum(shares, under(true), n)) <= list::sum(
            shares,
            share_size(),
            n,
        ),
    decreases n,
{
    if n > 0 {
        shares_summable(shares, not_counted, n - 1);
    }
}

proof fn shares_fit(shares: Seq<ShareV>)
    requires
        list::total(shares, share_size()) <= i64::MAX,
    ensures
        summable(shares, false),
        summable(shares, true),
        size(share_ms(shares, false)) <= list::total(shares, share_size()),
        size(share_ms(shares, true)) <= list::total(shares, share_size()),
        size(share_ms(shares, true)) + size(share_ms(shares, false)) <= list::total(
            shares,
            share_size(),
        ),
        size(share_ms(shares, true) + share_ms(shares, false)) <= list::total(
            shares,
            share_size(),
        ),
{
    assert forall|n: int| 0 <= n <= shares.len() implies i64::MIN <= #[trigger] list::sum(
        shares,
        under(false),
        n,
    ) <= i64::MAX by {
        shares_summable(shares, false, n);
        list::sum_bounds(shares, share_size(), n);
    }
    assert forall|n: int| 0 <= n <= shares.len() implies i64::MIN <= #[trigger] list::sum(
        shares,
        under(true),
        n,
    ) <= i64::MAX by {
        shares_summable(shares, true, n);
        list::sum_bounds(shares, share_size(), n);
    }
    shares_summable(shares, false, shares.len() as int);
    shares_summable(shares, true, shares.len() as int);
    both_flags(shares, shares.len() as int);
}

proof fn both_flags(shares: Seq<ShareV>, n: int)
    requires
        0 <= n <= shares.len(),
    ensures
        size(list::sum(shares, under(true), n)) + size(list::sum(shares, under(false), n))
            <= list::sum(shares, share_size(), n),
    decreases n,
{
    if n > 0 {
        both_flags(shares, n - 1);
    }
}

/// Taking in adds the sliver's time, flag by flag.
pub proof fn taken_in_adds(target: SegmentV, sliver: SegmentV)
    ensures
        list::total(taken_in(target, sliver), share_size()) <= list::total(
            target.foreground_shares,
            share_size(),
        ) + size(share_ms(sliver.foreground_shares, false)) + size(
            share_ms(sliver.foreground_shares, true),
        ),
        share_ms(taken_in(target, sliver), false) == share_ms(target.foreground_shares, false)
            + share_ms(sliver.foreground_shares, false),
        share_ms(taken_in(target, sliver), true) == share_ms(target.foreground_shares, true)
            + share_ms(sliver.foreground_shares, true),
        taken_in(target, sliver).len() > 0,
{
    let data = foreground_of(target).data;
    let kind = target.ignored || target.not_counted;
    let ms = share_ms(sliver.foreground_shares, kind);
    let own = credited(target.foreground_shares, data, ms, kind);
    let other = share_ms(sliver.foreground_shares, !kind);
    credited_adds(target.foreground_shares, data, ms, kind);
    credited_adds(own, data, other, !kind);
}

fn note_label(labels: &mut Vec<String>, l: &String, own: &String)
    ensures
        final(labels).deep_view() == if l@ == own@ || old(labels).deep_view().contains(l@) {
            old(labels).deep_view()
        } else {
            old(labels).deep_view().push(l@)
        },
{
    if *l != *own && !list::contains_text(labels, l) {
        list::push(labels, l.clone());
    }
}

/// The seconds a block has taken in once it takes in `sliver` too.
pub open spec fn count_with(target: SegmentV, sliver: SegmentV) -> int {
    target.smoothed_seconds + whole_seconds(recorded(sliver) * 1_000_000) + sliver.smoothed_seconds
}

pub open spec fn count_fits(target: SegmentV, sliver: SegmentV) -> bool {
    i64::MIN <= count_with(target, sliver) <= i64::MAX
}

/// Whether the count of what a block has taken in can take in `sliver` too.
fn has_count(target: &Segment, sliver: &Segment) -> (r: bool)
    requires
        list::total(sliver.deep_view().foreground_shares, share_size()) <= i64::MAX,
    ensures
        r == count_fits(target.deep_view(), sliver.deep_view()),
{
    let ghost sv = sliver.deep_view();
    proof {
        shares_fit(sv.foreground_shares);
    }
    let counted_ms: i64 = sum_shares(&sliver.foreground_shares, false);
    let uncounted_ms: i64 = sum_shares(&sliver.foreground_shares, true);
    let seconds = Duration::milliseconds(counted_ms + uncounted_ms).num_seconds();
    let sum: i128 = target.smoothed_seconds as i128 + seconds as i128
        + sliver.smoothed_seconds as i128;
    i64::MIN as i128 <= sum && sum <= i64::MAX as i128
}

/// Grow `target` over `sliver`, which lies right behind it, or right before it where `before`.
///
/// The target keeps its own slices, so it still resolves as itself. What the sliver contributed is
/// recorded in the count of seconds and in the labels.
fn soak(target: &mut Segment, sliver: Segment, before: bool)
    requires
        attributed(old(target).deep_view()),
        attributed(sliver.deep_view()),
        before ==> adjacent(sliver.deep_view(), old(target).deep_view()),
        !before ==> adjacent(old(target).deep_view(), sliver.deep_view()),
        load(old(target).deep_view()) + load(sliver.deep_view()) + (if before {
            whole_millis(old(target).start@ - sliver.end@)
        } else {
            whole_millis(sliver.start@ - old(target).end@)
        }) <= i64::MAX,
        count_fits(old(target).deep_view(), sliver.deep_view()),
    ensures
        final(target).deep_view() == soaked(old(target).deep_view(), sliver.deep_view(), before),
{
    let ghost tv = target.deep_view();
    let ghost sv = sliver.deep_view();
    let ghost more = seq![drawn_label(sv)] + sv.absorbed_labels;
    assert(tv.active.len() == target.active.len());
    assert(sv.absorbed_labels.len() == sliver.absorbed_labels.len());
    proof {
        load_is_positive(tv);
        load_is_positive(sv);
        shares_fit(sv.foreground_shares);
        taken_in_adds(tv, sv);
        load_is_positive(soaked(tv, sv, before));
    }
    let sliver_label = label_of(&sliver);
    let own_label = label_of(target);
    let own_data = target.foreground_slice().data.clone();
    let kind: bool = target.ignored || target.not_counted;
    let own_ms: i64 = sum_shares(&sliver.foreground_shares, kind);
    let other_ms: i64 = sum_shares(&sliver.foreground_shares, !kind);
    let seconds = Duration::milliseconds(own_ms + other_ms).num_seconds();
    let hole = if before {
        target.start.since(sliver.end).num_milliseconds()
    } else {
        sliver.start.since(target.end).num_milliseconds()
    };
    target.bridged_ms = target.bridged_ms + (hole + sliver.bridged_ms);
    if before {
        target.start = sliver.start;
    } else {
        target.end = sliver.end;
    }
    proof {
        assert(size(whole_seconds(recorded(sv) * 1_000_000)) <= list::total(
            sv.foreground_shares,
            share_size(),
        )) by {
            seconds_within(recorded(sv));
        }
        assert(own_ms + other_ms == recorded(sv));
    }
    target.smoothed_seconds = target.smoothed_seconds + (seconds + sliver.smoothed_seconds);
    proof {
        credited_adds(tv.foreground_shares, foreground_of(tv).data, own_ms as int, kind);
    }
    credit(
        &mut target.foreground_shares,
        ForegroundShare { data: own_data.clone(), ms: own_ms, not_counted: kind },
    );
    if other_ms != 0 {
        credit(
            &mut target.foreground_shares,
            ForegroundShare { data: own_data, ms: other_ms, not_counted: !kind },
        );
    }
    sort(&mut target.foreground_shares);
    note_label(&mut target.absorbed_labels, &sliver_label, &own_label);
    proof {
        assert(more[0] == drawn_label(sv));
        assert(noted(tv.absorbed_labels, more, drawn_label(tv), 0) == tv.absorbed_labels);
        assert(target.absorbed_labels.deep_view() == noted(
            tv.absorbed_labels,
            more,
            drawn_label(tv),
            1,
        ));
    }
    let mut i: usize = 0;
    while i < sliver.absorbed_labels.len()
        invariant
            i <= sliver.absorbed_labels.len(),
            sv == sliver.deep_view(),
            more == seq![drawn_label(sv)] + sv.absorbed_labels,
            own_label@ == drawn_label(tv),
            target.absorbed_labels.deep_view() == noted(
                tv.absorbed_labels,
                more,
                drawn_label(tv),
                i + 1,
            ),
            target.deep_view() == (SegmentV {
                absorbed_labels: target.absorbed_labels.deep_view(),
                ..soaked(tv, sv, before)
            }),
        decreases sliver.absorbed_labels.len() - i,
    {
        assert(more[i + 1] == sliver.absorbed_labels@[i as int]@);
        note_label(&mut target.absorbed_labels, &sliver.absorbed_labels[i], &own_label);
        i = i + 1;
    }
    sort(&mut target.absorbed_labels);
    assert(target.deep_view() =~= soaked(tv, sv, before));
}

proof fn seconds_within(r: int)
    ensures
        size(whole_seconds(r * 1_000_000)) <= size(r),
{
    if r >= 0 {
        assert(r * 1_000_000 / 1_000_000_000 <= r) by (nonlinear_arith)
            requires
                r >= 0,
        ;
    } else {
        let q = -r;
        assert(q * 1_000_000 / 1_000_000_000 <= q) by (nonlinear_arith)
            requires
                q >= 0,
        ;
    }
}

/// Whether every block has its foreground and its shares.
pub open spec fn ready(segs: Seq<SegmentV>) -> bool {
    forall|i: int|
        0 <= i < segs.len() ==> attributed(#[trigger] segs[i]) && segs[i].foreground_shares.len()
            > 0
}

/// A list whose blocks all have shares is its own seeding.
pub proof fn ready_is_seeded(segs: Seq<SegmentV>)
    requires
        ready(segs),
    ensures
        all_seeded(segs) == segs,
{
    assert(all_seeded(segs) =~= segs);
}

/// A seeded list is ready.
pub proof fn seeded_is_ready(segs: Seq<SegmentV>)
    requires
        forall|i: int| 0 <= i < segs.len() ==> attributed(#[trigger] segs[i]),
    ensures
        ready(all_seeded(segs)),
{
    let s = all_seeded(segs);
    assert forall|i: int| 0 <= i < s.len() implies attributed(#[trigger] s[i])
        && s[i].foreground_shares.len() > 0 by {
        assert(attributed(segs[i]));
    }
}

/// One absorption: the list is one block shorter and stays ready, and what the two blocks keep is
/// within what the list keeps.
pub proof fn absorbed_sound(segs: Seq<SegmentV>, i: int, t: int)
    requires
        ready(segs),
        0 <= i < segs.len(),
        (t == i - 1 && linked(segs, i)) || (t == i + 1 && linked(segs, i + 1)),
    ensures
        absorbed(segs, i, t).len() == segs.len() - 1,
        ready(absorbed(segs, i, t)),
        load(segs[i]) + load(segs[t]) + hole_before(
            segs,
            if t > i {
                t
            } else {
                i
            },
        ) <= burden(segs, segs.len() as int),
{
    let n = segs.len() as int;
    let before = t > i;
    let j = if before {
        i
    } else {
        t
    };
    let m = soaked(segs[t], segs[i], before);
    let out = absorbed(segs, i, t);
    assert(out == fused(segs, j, m));
    pair_burden(segs, j, n);
    taken_in_adds(segs[t], segs[i]);
    crate::order::arranged_keeps::<ForegroundShare>(taken_in(segs[t], segs[i]));
    assert forall|k: int| 0 <= k < out.len() implies attributed(#[trigger] out[k])
        && out[k].foreground_shares.len() > 0 by {
        if k < j {
            assert(out[k] == segs[k]);
        } else if k == j {
            assert(out[k] == m);
            assert(attributed(segs[t]));
        } else {
            assert(out[k] == segs[k + 1]);
        }
    }
}

/// What two neighbours keep, and the hole between them, is within what the list keeps.
proof fn pair_burden(segs: Seq<SegmentV>, j: int, n: int)
    requires
        0 <= j,
        j + 2 <= n <= segs.len(),
    ensures
        load(segs[j]) + load(segs[j + 1]) + hole_before(segs, j + 1) <= burden(segs, n),
{
    assert forall|s: SegmentV| #[trigger] loads()(s) >= 0 by {
        load_is_positive(s);
    }
    burden_of_grows(segs, loads(), j, j);
    burden_of_grows(segs, loads(), j + 2, n);
    assert(burden_of(segs, loads(), j + 2) == burden_of(segs, loads(), j + 1) + hole_before(
        segs,
        j + 1,
    ) + loads()(segs[j + 1]));
}

/// Absorb block `i` into its neighbour `t`.
fn absorb(segs: &mut Vec<Segment>, i: usize, t: usize)
    requires
        ready(old(segs).deep_view()),
        i < old(segs).len(),
        t < old(segs).len(),
        (t == i - 1 && linked(old(segs).deep_view(), i as int)) || (t == i + 1 && linked(
            old(segs).deep_view(),
            i + 1,
        )),
        burden(old(segs).deep_view(), old(segs).len() as int) <= i64::MAX,
        count_fits(old(segs).deep_view()[t as int], old(segs).deep_view()[i as int]),
    ensures
        final(segs).deep_view() == absorbed(old(segs).deep_view(), i as int, t as int),
{
    let ghost sv = segs.deep_view();
    assert(sv.len() == segs.len());
    assert(sv[i as int] == segs@[i as int].deep_view());
    assert(sv[t as int] == segs@[t as int].deep_view());
    proof {
        absorbed_sound(sv, i as int, t as int);
        assert(attributed(sv[i as int]) && attributed(sv[t as int]));
    }
    let before: bool = t > i;
    let sliver = segs.remove(i);
    let at: usize = if before {
        t - 1
    } else {
        t
    };
    let ghost rest = segs.deep_view();
    assert(rest =~= sv.remove(i as int));
    assert(segs@[at as int].deep_view() == rest[at as int]);
    assert(rest[at as int] == sv[t as int]);
    soak(&mut segs[at], sliver, before);
    let ghost m = soaked(sv[t as int], sv[i as int], before);
    assert(segs.deep_view() =~= rest.update(at as int, m));
    assert(segs.deep_view() =~= absorbed(sv, i as int, t as int));
}

/// Smooth the blocks where `i64` holds what smoothing adds up; `None` where it does not.
pub fn try_smooth(segments: Vec<Segment>, opts: SmoothOptions) -> (r: Option<Vec<Segment>>)
    requires
        forall|i: int|
            0 <= i < segments.len() ==> attributed(#[trigger] segments.deep_view()[i]),
    ensures
        match r {
            Some(out) => smooth_fits(segments.deep_view(), opts.sliver@, opts.noise_floor@)
                && out.deep_view() == smoothed(
                segments.deep_view(),
                opts.sliver@,
                opts.noise_floor@,
            ) && ready(out.deep_view()) && list::total(out.deep_view(), loads()) <= i64::MAX,
            None => !smooth_fits(segments.deep_view(), opts.sliver@, opts.noise_floor@),
        },
{
    let ghost segs = segments.deep_view();
    let ghost given = all_seeded(segs);
    let ghost sliver = opts.sliver@;
    let ghost noise = opts.noise_floor@;
    let mut blocks = segments;
    assert(segs.len() == blocks.len());
    if !has_room(&blocks) {
        return None;
    }
    proof {
        seeded_is_ready(segs);
    }
    seed_shares(&mut blocks);
    loop
        invariant
            ready(blocks.deep_view()),
            blocks.deep_view().len() == blocks.len(),
            sliver == opts.sliver@,
            noise == opts.noise_floor@,
            segs == segments.deep_view(),
            given == all_seeded(segs),
            forall|i: int| 0 <= i < segs.len() ==> attributed(#[trigger] segs[i]),
            rounded(given, sliver, noise) == rounded(blocks.deep_view(), sliver, noise),
            stays_within(given, sliver, noise) == stays_within(
                blocks.deep_view(),
                sliver,
                noise,
            ),
            burden(blocks.deep_view(), blocks.len() as int) <= i64::MAX,
        ensures
            ready(blocks.deep_view()),
            rounded(given, sliver, noise) == blocks.deep_view(),
            stays_within(given, sliver, noise),
            burden(blocks.deep_view(), blocks.len() as int) <= i64::MAX,
            blocks.deep_view().len() == blocks.len(),
        decreases blocks.len(),
    {
        let ghost now = blocks.deep_view();
        match next_absorption(&blocks, &opts) {
            Some(a) => {
                let ghost next = absorbed(now, a.0 as int, a.1 as int);
                proof {
                    target_is_linked(now, a.0 as int, sliver, noise);
                    absorbed_sound(now, a.0 as int, a.1 as int);
                    load_is_positive(now[a.0 as int]);
                    load_is_positive(now[a.1 as int]);
                    assert(stays_within(now, sliver, noise) == stays_within(next, sliver, noise));
                    assert(now[a.0 as int] == blocks@[a.0 as int].deep_view());
                    assert(now[a.1 as int] == blocks@[a.1 as int].deep_view());
                }
                if !has_count(&blocks[a.1], &blocks[a.0]) {
                    proof {
                        let j = if a.1 > a.0 {
                            a.0 as int
                        } else {
                            a.1 as int
                        };
                        let m = soaked(now[a.1 as int], now[a.0 as int], a.1 > a.0);
                        assert(next[j] == m);
                        one_burden(next, j);
                        load_is_positive(m);
                        assert(m.smoothed_seconds == count_with(now[a.1 as int], now[a.0 as int]));
                    }
                    return None;
                }
                absorb(&mut blocks, a.0, a.1);
                proof {
                    assert(blocks.deep_view().len() == blocks.len());
                    ready_is_seeded(blocks.deep_view());
                }
                if !has_room(&blocks) {
                    return None;
                }
            },
            None => {
                break;
            },
        }
    }
    proof {
        let r = blocks.deep_view();
        ready_is_seeded(r);
        folded_sound(r, r.len() as int);
        crate::coalesce::folded_has_shares(r, r.len() as int);
    }
    Some(coalesce(blocks))
}

/// What one block keeps is within what the list keeps.
proof fn one_burden(segs: Seq<SegmentV>, k: int)
    requires
        0 <= k < segs.len(),
    ensures
        load(segs[k]) <= burden(segs, segs.len() as int),
{
    assert forall|s: SegmentV| #[trigger] loads()(s) >= 0 by {
        load_is_positive(s);
    }
    burden_of_grows(segs, loads(), k, k);
    burden_of_grows(segs, loads(), k + 1, segs.len() as int);
    burden_of_grows(segs, loads(), 0, k);
    assert(burden_of(segs, loads(), k + 1) == burden_of(segs, loads(), k) + hole_before(segs, k)
        + loads()(segs[k]));
}

/// Fold every absorbable sliver into a neighbour and return the shortened list.
///
/// Slivers are absorbed shortest first, by an order that does not depend on which end the list is
/// read from, until none is left. Raising the threshold only ever lets more blocks of one list be
/// absorbed, but it does not always leave fewer of them: what is absorbed first changes what
/// brackets the rest, and on some days a higher threshold ends with more blocks than a lower one.
pub fn smooth(segments: Vec<Segment>, opts: SmoothOptions) -> (r: Vec<Segment>)
    requires
        smooth_fits(segments.deep_view(), opts.sliver@, opts.noise_floor@),
    ensures
        r.deep_view() == smoothed(segments.deep_view(), opts.sliver@, opts.noise_floor@),
        ready(r.deep_view()),
        list::total(r.deep_view(), loads()) <= i64::MAX,
{
    assert(segments.deep_view().len() == segments.len());
    match try_smooth(segments, opts) {
        Some(out) => out,
        None => {
            assert(false);
            Vec::new()
        },
    }
}

/// Whether what the blocks keep adds up to no more than `i64` holds.
pub fn has_room(segments: &Vec<Segment>) -> (r: bool)
    requires
        forall|i: int|
            0 <= i < segments.len() ==> attributed(#[trigger] segments.deep_view()[i]),
    ensures
        r == coalesce_fits(segments.deep_view()),
{
    let ghost segs = segments.deep_view();
    let ghost given = all_seeded(segs);
    let ghost n = segs.len() as int;
    assert(segs.len() == segments.len());
    let mut sum: i128 = 0;
    let mut i: usize = 0;
    while i < segments.len()
        invariant
            i <= segments.len(),
            segs == segments.deep_view(),
            segs.len() == segments.len(),
            n == segs.len(),
            given == all_seeded(segs),
            forall|i: int|
                0 <= i < segments.len() ==> attributed(#[trigger] segments.deep_view()[i]),
            sum == burden(given, i as int),
            0 <= sum <= i64::MAX,
        decreases segments.len() - i,
    {
        assert(segs[i as int] == segments@[i as int].deep_view());
        proof {
            crate::coalesce::burden_grows(given, i + 1, n);
            crate::coalesce::burden_grows(given, i as int, i + 1);
            load_is_positive(given[i as int]);
        }
        if i > 0 {
            assert(segs[i - 1] == segments@[i - 1].deep_view());
            if is_adjacent(&segments[i - 1], &segments[i]) {
                let hole = segments[i].start.since(segments[i - 1].end).num_milliseconds();
                sum = sum + hole as i128;
            }
        }
        assert(sum == burden(given, i as int) + hole_before(given, i as int));
        match seeded_load(&segments[i]) {
            Some(x) => {
                sum = sum + x as i128;
            },
            None => {
                assert(burden(given, i + 1) > i64::MAX);
                return false;
            },
        }
        if sum > i64::MAX as i128 {
            return false;
        }
        i = i + 1;
    }
    true
}

/// What a block keeps once it has its shares; `None` where that is more than `i64` holds.
fn seeded_load(seg: &Segment) -> (r: Option<i64>)
    requires
        attributed(seg.deep_view()),
    ensures
        match r {
            Some(x) => x == load(seeded(seg.deep_view())),
            None => load(seeded(seg.deep_view())) > i64::MAX,
        },
{
    let ghost sv = seg.deep_view();
    let ghost out = seeded(sv);
    assert(sv.foreground_shares.len() == seg.foreground_shares.len());
    proof {
        load_is_positive(out);
    }
    let mut sum: i128 = absolute(seg.bridged_ms) + absolute(seg.smoothed_seconds);
    if seg.foreground_shares.len() == 0 {
        let span = span_of(seg).num_milliseconds();
        let ms: i128 = span as i128 - seg.bridged_ms as i128;
        proof {
            let shares = out.foreground_shares;
            assert(list::sum(shares, share_size(), 0) == 0);
            assert(list::sum(shares, share_size(), 1) == size(shares[0].ms));
        }
        sum = sum + if ms < 0 {
            -ms
        } else {
            ms
        };
        if sum > i64::MAX as i128 {
            return None;
        }
        return Some(sum as i64);
    }
    let mut i: usize = 0;
    while i < seg.foreground_shares.len()
        invariant
            i <= seg.foreground_shares.len(),
            sv == seg.deep_view(),
            out == sv,
            sv.foreground_shares.len() == seg.foreground_shares.len(),
            0 <= sum <= 36_893_488_147_419_103_232,
            sum == size(sv.bridged_ms) + size(sv.smoothed_seconds) + list::sum(
                sv.foreground_shares,
                share_size(),
                i as int,
            ),
        decreases seg.foreground_shares.len() - i,
    {
        assert(sv.foreground_shares[i as int] == seg.foreground_shares@[i as int].deep_view());
        let ghost before = sum;
        sum = sum + absolute(seg.foreground_shares[i].ms);
        if sum > i64::MAX as i128 {
            proof {
                list::sum_bounds(sv.foreground_shares, share_size(), i + 1);
            }
            return None;
        }
        i = i + 1;
    }
    if sum > i64::MAX as i128 {
        return None;
    }
    Some(sum as i64)
}

fn absolute(x: i64) -> (r: i128)
    ensures
        r == size(x as int),
{
    if x < 0 {
        -(x as i128)
    } else {
        x as i128
    }
}

} // verus!
