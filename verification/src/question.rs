//! What the owner is asked, and in what order the answers are offered.
//!
//! Asking is not per block. A question is a run of open blocks that are plainly the same
//! competition: the same foreground throughout, and no longer than a short gap between one block
//! and the next. The blocks stay exactly as they are.
//!
//! Competitors are offered longest first, by each one's own running time, not by the window's.

use vstd::prelude::*;
use vstd::set_lib::{lemma_int_range, lemma_set_disjoint_lens, set_int_range};

use crate::classify::{contested, two_devices};
use crate::list;
use crate::model::{
    activity_label, attributed, counted, foreground_of, label, summable, ActiveSlice, Segment,
    SegmentV, SliceV,
};
use crate::order::{
    arranged, arranged_contains, arranged_in_order, arranged_keeps, in_order, sort, Sortable,
};
use crate::text;
use crate::time::{countable, in_range, whole_seconds, Duration, Instant, Span, SpanV};

verus! {

/// How long one device may hold the day alone, in seconds, before the competition either side of
/// it counts as two.
pub const DEFAULT_QUESTION_GAP_SECS: i64 = 60;

/// The one number questions run on.
#[derive(Clone, Copy, Debug)]
pub struct QuestionOptions {
    /// Settled time longer than this ends a run.
    pub gap: Duration,
}

impl QuestionOptions {
    pub fn from_gap_secs(secs: i64) -> (r: QuestionOptions)
        ensures
            r.gap@ == if secs > 0 {
                secs * 1_000_000_000
            } else {
                0
            },
    {
        QuestionOptions {
            gap: Duration::seconds(
                if secs > 0 {
                    secs
                } else {
                    0
                },
            ),
        }
    }
}

impl Default for QuestionOptions {
    fn default() -> (r: QuestionOptions)
        ensures
            r.gap@ == DEFAULT_QUESTION_GAP_SECS * 1_000_000_000,
    {
        QuestionOptions::from_gap_secs(DEFAULT_QUESTION_GAP_SECS)
    }
}

/// One activity that was running during a question, and for how long.
#[derive(Debug, PartialEq, Eq)]
pub struct Competitor {
    pub device: String,
    pub label: String,
    /// The union of this activity's originating intervals across the run. A union and not a sum: a
    /// stretch that was recorded in pieces is one stretch.
    pub seconds: i64,
    /// The run's provisional winner, which counts unless the owner says otherwise.
    pub is_foreground: bool,
}

#[verifier::ext_equal]
pub struct CompetitorV {
    pub device: Seq<char>,
    pub label: Seq<char>,
    pub seconds: int,
    pub is_foreground: bool,
}

impl DeepView for Competitor {
    type V = CompetitorV;

    open spec fn deep_view(&self) -> CompetitorV {
        CompetitorV {
            device: self.device@,
            label: self.label@,
            seconds: self.seconds as int,
            is_foreground: self.is_foreground,
        }
    }
}

/// Longest first; the winner before an equally long rival; then by label, then by device.
impl Sortable for Competitor {
    open spec fn precedes(a: CompetitorV, b: CompetitorV) -> bool {
        a.seconds > b.seconds || (a.seconds == b.seconds && ((a.is_foreground && !b.is_foreground)
            || (a.is_foreground == b.is_foreground && (text::before(a.label, b.label) || (a.label
            == b.label && text::before(a.device, b.device))))))
    }

    proof fn weak_order(a: CompetitorV, b: CompetitorV, c: CompetitorV) {
        text::before_is_weak_order(a.label, b.label, c.label);
        text::before_is_weak_order(a.device, b.device, c.device);
    }

    fn sorts_before(&self, other: &Self) -> (r: bool) {
        if self.seconds != other.seconds {
            return self.seconds > other.seconds;
        }
        if self.is_foreground != other.is_foreground {
            return self.is_foreground;
        }
        text::is_before(self.label.as_str(), other.label.as_str()) || (self.label == other.label
            && text::is_before(self.device.as_str(), other.device.as_str()))
    }
}

/// One thing the owner is asked about.
#[derive(Debug, PartialEq, Eq)]
pub struct Question {
    pub start: Instant,
    pub end: Instant,
    /// Indices into the segment list this was built from, in order. Never empty.
    pub blocks: Vec<usize>,
    /// Longest first.
    pub competitors: Vec<Competitor>,
}

#[verifier::ext_equal]
pub struct QuestionV {
    pub start: int,
    pub end: int,
    pub blocks: Seq<usize>,
    pub competitors: Seq<CompetitorV>,
}

impl DeepView for Question {
    type V = QuestionV;

    open spec fn deep_view(&self) -> QuestionV {
        QuestionV {
            start: self.start@,
            end: self.end@,
            blocks: self.blocks@,
            competitors: self.competitors.deep_view(),
        }
    }
}

/// The activity a block runs under: the device and the label of its foreground.
pub open spec fn activity(seg: SegmentV) -> (Seq<char>, Seq<char>) {
    (foreground_of(seg).device, label(foreground_of(seg).data))
}

/// Whether open block `i` goes on with the competition of open block `j` before it. With no gap
/// allowed none does: every open block is then a question of its own.
pub open spec fn goes_on(segs: Seq<SegmentV>, j: int, i: int, gap: int) -> bool {
    gap > 0 && activity(segs[j]) == activity(segs[i]) && 0 <= segs[i].start - segs[j].end <= gap
}

/// The open blocks among the first `n`, in runs.
pub open spec fn open_runs(segs: Seq<SegmentV>, gap: int, n: int) -> Seq<Seq<usize>>
    decreases n,
{
    if n <= 0 {
        Seq::empty()
    } else {
        let rest = open_runs(segs, gap, n - 1);
        if !segs[n - 1].unresolved {
            rest
        } else if rest.len() > 0 && goes_on(segs, rest.last().last() as int, n - 1, gap) {
            rest.drop_last().push(rest.last().push((n - 1) as usize))
        } else {
            rest.push(seq![(n - 1) as usize])
        }
    }
}

/// The slices of the first `n` blocks.
pub open spec fn slices_of(segs: Seq<SegmentV>, blocks: Seq<usize>, n: int) -> Seq<SliceV>
    decreases n,
{
    if n <= 0 {
        Seq::empty()
    } else {
        slices_of(segs, blocks, n - 1) + segs[blocks[n - 1] as int].active
    }
}

/// The activity of a slice: its device and its label.
pub open spec fn id_of(s: SliceV) -> (Seq<char>, Seq<char>) {
    (s.device, label(s.data))
}

/// The distinct activities among the first `n` slices, in the order they come up.
pub open spec fn ids_of(slices: Seq<SliceV>, n: int) -> Seq<(Seq<char>, Seq<char>)>
    decreases n,
{
    if n <= 0 {
        Seq::empty()
    } else {
        let rest = ids_of(slices, n - 1);
        if rest.contains(id_of(slices[n - 1])) {
            rest
        } else {
            rest.push(id_of(slices[n - 1]))
        }
    }
}

/// The originating intervals of one activity among the first `n` slices.
pub open spec fn sources(slices: Seq<SliceV>, id: (Seq<char>, Seq<char>), n: int) -> Seq<SpanV>
    decreases n,
{
    if n <= 0 {
        Seq::empty()
    } else if id_of(slices[n - 1]) == id {
        sources(slices, id, n - 1).push(
            SpanV { start: slices[n - 1].source_start, end: slices[n - 1].source_end },
        )
    } else {
        sources(slices, id, n - 1)
    }
}

/// The first `n` of a sorted list of intervals, overlaps joined: how long the joined intervals
/// before the last one are, and the last one.
pub open spec fn joined_up(sorted: Seq<SpanV>, n: int) -> (int, Option<SpanV>)
    decreases n,
{
    if n <= 0 {
        (0, None)
    } else {
        let (done, last) = joined_up(sorted, n - 1);
        let next = sorted[n - 1];
        match last {
            Some(cur) => if next.start <= cur.end {
                (
                    done,
                    Some(
                        SpanV {
                            start: cur.start,
                            end: if next.end > cur.end {
                                next.end
                            } else {
                                cur.end
                            },
                        },
                    ),
                )
            } else {
                (done + (cur.end - cur.start), Some(next))
            },
            None => (done, Some(next)),
        }
    }
}

/// How long a sorted list of intervals is, counting overlap once.
pub open spec fn union_length(sorted: Seq<SpanV>) -> int {
    match joined_up(sorted, sorted.len() as int) {
        (done, Some(cur)) => done + (cur.end - cur.start),
        (done, None) => done,
    }
}

/// The intervals one activity was cut from, in order.
pub open spec fn run_spans(slices: Seq<SliceV>, id: (Seq<char>, Seq<char>)) -> Seq<SpanV> {
    arranged::<Span>(sources(slices, id, slices.len() as int))
}

/// How long one activity ran, over all the intervals it was cut from.
pub open spec fn ran(slices: Seq<SliceV>, id: (Seq<char>, Seq<char>)) -> int {
    union_length(run_spans(slices, id))
}

/// Whether the length of a sorted list of intervals can be counted. It can where none of them ends
/// before it starts; where some do, it must fit at every step on the way.
pub open spec fn measurable(sorted: Seq<SpanV>) -> bool {
    (forall|i: int| 0 <= i < sorted.len() ==> (#[trigger] sorted[i]).start <= sorted[i].end)
        || counted_up(sorted)
}

/// Whether a length fits at every step on the way to it.
pub open spec fn counted_up(sorted: Seq<SpanV>) -> bool {
    &&& forall|n: int| 0 <= n <= sorted.len() ==> countable((#[trigger] joined_up(sorted, n)).0)
    &&& countable(union_length(sorted))
}

/// One activity as a competitor.
pub open spec fn competitor(
    slices: Seq<SliceV>,
    winner: (Seq<char>, Seq<char>),
    id: (Seq<char>, Seq<char>),
) -> CompetitorV {
    CompetitorV {
        device: id.0,
        label: id.1,
        seconds: whole_seconds(ran(slices, id)),
        is_foreground: id == winner,
    }
}

/// Every activity among the slices as a competitor.
pub open spec fn competitors(slices: Seq<SliceV>, winner: (Seq<char>, Seq<char>)) -> Seq<
    CompetitorV,
> {
    let ids = ids_of(slices, slices.len() as int);
    Seq::new(ids.len(), |i: int| competitor(slices, winner, ids[i]))
}

/// The question a run of open blocks asks.
pub open spec fn question_of(segs: Seq<SegmentV>, blocks: Seq<usize>) -> QuestionV {
    QuestionV {
        start: segs[blocks[0] as int].start,
        end: segs[blocks.last() as int].end,
        blocks,
        competitors: arranged::<Competitor>(
            competitors(
                slices_of(segs, blocks, blocks.len() as int),
                activity(segs[blocks[0] as int]),
            ),
        ),
    }
}

/// The questions of a day.
pub open spec fn asked(segs: Seq<SegmentV>, gap: int) -> Seq<QuestionV> {
    let groups = open_runs(segs, gap, segs.len() as int);
    Seq::new(groups.len(), |i: int| question_of(segs, groups[i]))
}

/// What the open blocks of a day have: each a foreground, and every activity in a run of them a
/// running time that can be counted.
pub open spec fn askable(segs: Seq<SegmentV>, gap: int) -> bool {
    &&& forall|i: int| 0 <= i < segs.len() && (#[trigger] segs[i]).unresolved ==> attributed(segs[i])
    &&& forall|g: int, id: (Seq<char>, Seq<char>)|
        0 <= g < open_runs(segs, gap, segs.len() as int).len() ==> measurable(
            #[trigger] run_spans(run_slices(segs, gap, g), id),
        )
}

/// The slices of one run of open blocks.
pub open spec fn run_slices(segs: Seq<SegmentV>, gap: int, g: int) -> Seq<SliceV> {
    let run = open_runs(segs, gap, segs.len() as int)[g];
    slices_of(segs, run, run.len() as int)
}

/// Whether no open block holds a slice whose source ends before it starts.
pub open spec fn forward(segs: Seq<SegmentV>) -> bool {
    forall|i: int, k: int|
        0 <= i < segs.len() && segs[i].unresolved && 0 <= k < segs[i].active.len()
            ==> forward_slice(#[trigger] segs[i].active[k])
}

/// Whether a slice's source does not end before it starts.
pub open spec fn forward_slice(s: SliceV) -> bool {
    s.source_start <= s.source_end
}

/// The runs list the open blocks in order, each once.
pub proof fn open_runs_sound(segs: Seq<SegmentV>, gap: int, n: int)
    requires
        0 <= n <= segs.len(),
        segs.len() <= usize::MAX,
    ensures
        forall|g: int|
            #![trigger open_runs(segs, gap, n)[g]]
            0 <= g < open_runs(segs, gap, n).len() ==> open_runs(segs, gap, n)[g].len() > 0
                && forall|k: int|
                0 <= k < open_runs(segs, gap, n)[g].len() ==> (#[trigger] open_runs(
                    segs,
                    gap,
                    n,
                )[g][k]) < n && segs[open_runs(segs, gap, n)[g][k] as int].unresolved,
    decreases n,
{
    if n > 0 {
        open_runs_sound(segs, gap, n - 1);
        let rest = open_runs(segs, gap, n - 1);
        let all = open_runs(segs, gap, n);
        assert forall|g: int| 0 <= g < all.len() implies (#[trigger] all[g]).len() > 0 && forall|
            k: int,
        |
            0 <= k < all[g].len() ==> (#[trigger] all[g][k]) < n && segs[all[g][k] as int].unresolved by {
            if g < rest.len() && all[g] == rest[g] {
                assert(rest[g].len() > 0);
            } else if segs[n - 1].unresolved && rest.len() > 0 && goes_on(
                segs,
                rest.last().last() as int,
                n - 1,
                gap,
            ) {
                let last = rest[rest.len() - 1];
                assert(last.len() > 0);
                assert forall|k: int| 0 <= k < all[g].len() implies (#[trigger] all[g][k]) < n
                    && segs[all[g][k] as int].unresolved by {
                    if k < last.len() {
                        assert(all[g][k] == last[k]);
                    }
                }
            }
        }
    }
}

/// What joining up keeps, where no interval ends before it starts: the joined intervals fit
/// between the first start and the last end.
proof fn joined_up_bounds(sorted: Seq<SpanV>, n: int)
    requires
        0 <= n <= sorted.len(),
        in_order::<Span>(sorted),
        forall|i: int| 0 <= i < sorted.len() ==> (#[trigger] sorted[i]).start <= sorted[i].end,
        forall|i: int| 0 <= i < sorted.len() ==> in_range((#[trigger] sorted[i]).start) && in_range(sorted[i].end),
    ensures
        match joined_up(sorted, n) {
            (done, Some(cur)) => 0 <= done <= cur.start - sorted[0].start && cur.start <= cur.end
                && in_range(cur.end) && in_range(cur.start) && n > 0 && cur.start <= sorted[n - 1].start,
            (done, None) => done == 0 && n == 0,
        },
    decreases n,
{
    if n > 0 {
        joined_up_bounds(sorted, n - 1);
        assert(in_range(sorted[n - 1].start));
        if n > 1 {
            assert(!<Span as Sortable>::precedes(sorted[n - 1], sorted[n - 2]));
        }
    }
}

/// The length of intervals that do not end before they start fits.
proof fn forward_is_counted(sorted: Seq<SpanV>)
    requires
        in_order::<Span>(sorted),
        forall|i: int| 0 <= i < sorted.len() ==> (#[trigger] sorted[i]).start <= sorted[i].end,
        forall|i: int| 0 <= i < sorted.len() ==> in_range((#[trigger] sorted[i]).start) && in_range(sorted[i].end),
    ensures
        counted_up(sorted),
{
    assert forall|n: int| 0 <= n <= sorted.len() implies countable(
        (#[trigger] joined_up(sorted, n)).0,
    ) by {
        joined_up_bounds(sorted, n);
        if n > 0 {
            assert(in_range(sorted[0].start));
        }
    }
    joined_up_bounds(sorted, sorted.len() as int);
    if sorted.len() > 0 {
        assert(in_range(sorted[0].start));
    }
}

/// Whole seconds covered by a sorted list of intervals, counting overlap once.
fn union_seconds(sorted: &Vec<Span>) -> (r: i64)
    requires
        in_order::<Span>(sorted.deep_view()),
        measurable(sorted.deep_view()),
    ensures
        r == whole_seconds(union_length(sorted.deep_view())),
{
    let ghost iv = sorted.deep_view();
    assert(iv.len() == sorted.len());
    let mut k: usize = 0;
    while k < sorted.len()
        invariant
            k <= sorted.len(),
            iv == sorted.deep_view(),
            iv.len() == sorted.len(),
            forall|i: int| 0 <= i < k ==> in_range((#[trigger] iv[i]).start) && in_range(iv[i].end),
        decreases sorted.len() - k,
    {
        assert(iv[k as int] == sorted@[k as int].deep_view());
        let _ = sorted[k].start.nanos();
        let _ = sorted[k].end.nanos();
        k = k + 1;
    }
    proof {
        if !counted_up(iv) {
            forward_is_counted(iv);
        }
    }
    let mut done: i128 = 0;
    let mut cur: Option<Span> = None;
    let mut i: usize = 0;
    while i < sorted.len()
        invariant
            i <= sorted.len(),
            iv == sorted.deep_view(),
            iv.len() == sorted.len(),
            counted_up(iv),
            joined_up(iv, i as int) == (done as int, cur.deep_view()),
        decreases sorted.len() - i,
    {
        assert(iv[i as int] == sorted@[i as int].deep_view());
        assert(countable(joined_up(iv, i as int).0));
        assert(countable(joined_up(iv, i + 1).0));
        let next = sorted[i];
        match cur {
            Some(c) => {
                if !c.end.earlier_than(next.start) {
                    cur = Some(Span { start: c.start, end: c.end.later_of(next.end) });
                } else {
                    done = done + c.end.since(c.start).nanos;
                    cur = Some(next);
                }
            },
            None => {
                cur = Some(next);
            },
        }
        i = i + 1;
    }
    match cur {
        Some(c) => {
            done = done + c.end.since(c.start).nanos;
        },
        None => {},
    }
    Duration { nanos: done }.num_seconds()
}

/// Cutting out one activity keeps its sources from ending before they start.
proof fn sources_forward(slices: Seq<SliceV>, id: (Seq<char>, Seq<char>), n: int)
    requires
        0 <= n <= slices.len(),
        forall|k: int| 0 <= k < slices.len() ==> forward_slice(#[trigger] slices[k]),
    ensures
        forall|i: int|
            0 <= i < sources(slices, id, n).len() ==> forward_span(
                #[trigger] sources(slices, id, n)[i],
            ),
    decreases n,
{
    if n > 0 {
        sources_forward(slices, id, n - 1);
        let rest = sources(slices, id, n - 1);
        let all = sources(slices, id, n);
        assert(forward_slice(slices[n - 1]));
        assert forall|i: int| 0 <= i < all.len() implies forward_span(#[trigger] all[i]) by {
            if i < rest.len() {
                assert(all[i] == rest[i]);
            }
        }
    }
}

spec fn forward_span(s: SpanV) -> bool {
    s.start <= s.end
}

proof fn slices_of_forward(segs: Seq<SegmentV>, blocks: Seq<usize>, n: int)
    requires
        0 <= n <= blocks.len(),
        forward(segs),
        forall|k: int|
            0 <= k < blocks.len() ==> (#[trigger] blocks[k]) < segs.len()
                && segs[blocks[k] as int].unresolved,
    ensures
        forall|k: int|
            0 <= k < slices_of(segs, blocks, n).len() ==> forward_slice(
                #[trigger] slices_of(segs, blocks, n)[k],
            ),
    decreases n,
{
    if n > 0 {
        slices_of_forward(segs, blocks, n - 1);
        let rest = slices_of(segs, blocks, n - 1);
        let at = blocks[n - 1] as int;
        assert(blocks[n - 1] < segs.len());
        assert forall|k: int| 0 <= k < slices_of(segs, blocks, n).len() implies forward_slice(
            #[trigger] slices_of(segs, blocks, n)[k],
        ) by {
            if k < rest.len() {
                assert(forward_slice(rest[k]));
            } else {
                assert(forward_slice(segs[at].active[k - rest.len()]));
            }
        }
    }
}

/// Where every open block has a foreground and no source ends before it starts, the questions of a
/// day can be asked, whatever the gap.
pub proof fn forward_sources_can_be_asked_about(segs: Seq<SegmentV>, gap: int)
    requires
        segs.len() <= usize::MAX,
        forward(segs),
        forall|i: int|
            0 <= i < segs.len() && (#[trigger] segs[i]).unresolved ==> attributed(segs[i]),
    ensures
        askable(segs, gap),
{
    let runs = open_runs(segs, gap, segs.len() as int);
    open_runs_sound(segs, gap, segs.len() as int);
    assert forall|g: int, id: (Seq<char>, Seq<char>)| 0 <= g < runs.len() implies measurable(
        #[trigger] run_spans(run_slices(segs, gap, g), id),
    ) by {
        let run = runs[g];
        assert(run.len() > 0);
        assert forall|k: int| 0 <= k < run.len() implies (#[trigger] run[k]) < segs.len()
            && segs[run[k] as int].unresolved by {
            assert(runs[g][k] < segs.len());
        }
        slices_of_forward(segs, run, run.len() as int);
        let slices = run_slices(segs, gap, g);
        sources_forward(slices, id, slices.len() as int);
        let given = sources(slices, id, slices.len() as int);
        let out = arranged::<Span>(given);
        assert forall|k: int| 0 <= k < out.len() implies (#[trigger] out[k]).start <= out[k].end by {
            arranged_contains::<Span>(given, out[k]);
            assert(out.contains(out[k]));
            let j = choose|j: int| 0 <= j < given.len() && given[j] == out[k];
            assert(forward_span(given[j]));
        }
    }
}

/// How long one activity ran, in whole seconds.
fn run_seconds(slices: &Vec<&ActiveSlice>, device: &String, name: &String) -> (r: i64)
    requires
        measurable(run_spans(slices.deep_view(), (device@, name@))),
    ensures
        r == whole_seconds(ran(slices.deep_view(), (device@, name@))),
{
    let ghost sv = slices.deep_view();
    let ghost id = (device@, name@);
    let mut spans: Vec<Span> = Vec::new();
    assert(spans.deep_view() =~= Seq::empty());
    let mut i: usize = 0;
    while i < slices.len()
        invariant
            i <= slices.len(),
            sv == slices.deep_view(),
            id == (device@, name@),
            spans.deep_view() == sources(sv, id, i as int),
        decreases slices.len() - i,
    {
        assert(sv[i as int] == slices@[i as int].deep_view());
        if slices[i].device == *device && activity_label(&slices[i].data) == *name {
            list::push(
                &mut spans,
                Span { start: slices[i].source_start, end: slices[i].source_end },
            );
        }
        i = i + 1;
    }
    assert(sv.len() == slices.len());
    proof {
        arranged_in_order::<Span>(spans.deep_view());
    }
    sort(&mut spans);
    assert(spans.deep_view().len() == spans.len());
    union_seconds(&spans)
}

/// Every activity that ran during a question, longest first.
fn competitors_of(segments: &Vec<Segment>, blocks: &Vec<usize>) -> (r: Vec<Competitor>)
    requires
        blocks.len() > 0,
        forall|k: int|
            0 <= k < blocks.len() ==> (#[trigger] blocks[k]) < segments.len(),
        attributed(segments.deep_view()[blocks[0] as int]),
        forall|id: (Seq<char>, Seq<char>)|
            measurable(
                #[trigger] run_spans(
                    slices_of(segments.deep_view(), blocks@, blocks.len() as int),
                    id,
                ),
            ),
    ensures
        r.deep_view() == question_of(segments.deep_view(), blocks@).competitors,
{
    let ghost segs = segments.deep_view();
    let ghost bv = blocks@;
    assert(segs.len() == segments.len());
    let mut slices: Vec<&ActiveSlice> = Vec::new();
    assert(slices.deep_view() =~= Seq::empty());
    let mut b: usize = 0;
    while b < blocks.len()
        invariant
            b <= blocks.len(),
            bv == blocks@,
            segs == segments.deep_view(),
            segs.len() == segments.len(),
            forall|k: int| 0 <= k < blocks.len() ==> (#[trigger] blocks[k]) < segments.len(),
            slices.deep_view() == slices_of(segs, bv, b as int),
        decreases blocks.len() - b,
    {
        let at: usize = blocks[b];
        let seg = &segments[at];
        assert(segs[at as int] == seg.deep_view());
        assert(segs[at as int].active.len() == seg.active.len());
        let ghost done = slices.deep_view();
        assert(done.len() == slices.len());
        assert(done + segs[at as int].active.take(0) =~= done);
        let mut i: usize = 0;
        while i < seg.active.len()
            invariant
                i <= seg.active.len(),
                segs[at as int] == seg.deep_view(),
                segs[at as int].active.len() == seg.active.len(),
                slices.deep_view() == done + segs[at as int].active.take(i as int),
            decreases seg.active.len() - i,
        {
            assert(segs[at as int].active[i as int] == seg.active@[i as int].deep_view());
            list::push(&mut slices, &seg.active[i]);
            i = i + 1;
            assert(slices.deep_view() =~= done + segs[at as int].active.take(i as int));
        }
        assert(segs[at as int].active.take(i as int) =~= segs[at as int].active);
        b = b + 1;
    }
    let ghost sv = slices.deep_view();
    assert(sv.len() == slices.len());
    let first = &segments[blocks[0]];
    assert(segs[blocks[0] as int] == first.deep_view());
    assert(attributed(segs[blocks[0] as int]));
    assert(first.active.deep_view().len() == first.active.len());
    let fg = first.foreground_slice();
    let winner_label = activity_label(&fg.data);
    let ghost winner = activity(segs[blocks[0] as int]);
    let mut out: Vec<Competitor> = Vec::new();
    assert(out.deep_view() =~= Seq::empty());
    let mut i: usize = 0;
    while i < slices.len()
        invariant
            i <= slices.len(),
            sv == slices.deep_view(),
            sv.len() == slices.len(),
            winner == (fg.device@, winner_label@),
            forall|id: (Seq<char>, Seq<char>)| measurable(#[trigger] run_spans(sv, id)),
            out.len() == ids_of(sv, i as int).len(),
            forall|k: int|
                0 <= k < out.len() ==> #[trigger] out.deep_view()[k] == competitor(
                    sv,
                    winner,
                    ids_of(sv, i as int)[k],
                ),
        decreases slices.len() - i,
    {
        assert(sv[i as int] == slices@[i as int].deep_view());
        let device = &slices[i].device;
        let name = activity_label(&slices[i].data);
        let ghost ids = ids_of(sv, i as int);
        let ghost so_far = out.deep_view();
        assert(so_far.len() == out.len());
        let mut known: bool = false;
        let mut k: usize = 0;
        while k < out.len()
            invariant
                k <= out.len(),
                so_far == out.deep_view(),
                out.len() == ids.len(),
                forall|j: int|
                    0 <= j < out.len() ==> #[trigger] so_far[j] == competitor(sv, winner, ids[j]),
                known <==> exists|j: int| 0 <= j < k && #[trigger] ids[j] == (device@, name@),
            decreases out.len() - k,
        {
            assert(so_far[k as int] == out@[k as int].deep_view());
            if out[k].device == *device && out[k].label == name {
                assert(ids[k as int] == (device@, name@));
                known = true;
            }
            k = k + 1;
        }
        assert(known == ids.contains((device@, name@)));
        if !known {
            let is_foreground = *device == fg.device && name == winner_label;
            let seconds = run_seconds(&slices, device, &name);
            list::push(
                &mut out,
                Competitor { device: device.clone(), label: name, seconds, is_foreground },
            );
        }
        i = i + 1;
        proof {
            let now = ids_of(sv, i as int);
            assert forall|k: int| 0 <= k < out.len() implies #[trigger] out.deep_view()[k]
                == competitor(sv, winner, now[k]) by {
                if k < so_far.len() {
                    assert(out.deep_view()[k] == so_far[k]);
                    assert(now[k] == ids[k]);
                }
            }
        }
    }
    assert(out.deep_view() =~= competitors(sv, winner));
    sort(&mut out);
    out
}

/// Group the open blocks of a day into the questions worth asking.
///
/// The indices handed back are indices into exactly the list given. A block that is not open is
/// never in a question.
pub fn questions(segments: &Vec<Segment>, opts: QuestionOptions) -> (r: Vec<Question>)
    requires
        askable(segments.deep_view(), opts.gap@),
    ensures
        r.deep_view() == asked(segments.deep_view(), opts.gap@),
{
    let ghost segs = segments.deep_view();
    let ghost gap = opts.gap@;
    assert(segs.len() == segments.len());
    let mut runs: Vec<Vec<usize>> = Vec::new();
    let mut i: usize = 0;
    while i < segments.len()
        invariant
            i <= segments.len(),
            segs == segments.deep_view(),
            segs.len() == segments.len(),
            gap == opts.gap@,
            askable(segs, gap),
            runs.len() == open_runs(segs, gap, i as int).len(),
            forall|g: int|
                0 <= g < runs.len() ==> (#[trigger] runs@[g])@ == open_runs(segs, gap, i as int)[g],
        decreases segments.len() - i,
    {
        assert(segs[i as int] == segments@[i as int].deep_view());
        let ghost before = open_runs(segs, gap, i as int);
        let ghost held = runs@;
        if segments[i].unresolved {
            assert(attributed(segs[i as int]));
            assert(segs[i as int].active.len() == segments@[i as int].active.len());
            let mut joins: bool = false;
            if runs.len() > 0 {
                proof {
                    open_runs_sound(segs, gap, i as int);
                    assert(before[runs.len() - 1].len() > 0);
                }
                let last: &Vec<usize> = &runs[runs.len() - 1];
                assert(last@ == before.last());
                let j: usize = last[last.len() - 1];
                assert(before[runs.len() - 1][last.len() - 1] == j);
                assert(segs[j as int] == segments@[j as int].deep_view());
                assert(attributed(segs[j as int]));
                assert(segs[j as int].active.len() == segments@[j as int].active.len());
                let a = segments[j].foreground_slice();
                let b = segments[i].foreground_slice();
                let hole: i128 = segments[i].start.since(segments[j].end).nanos;
                joins = opts.gap.nanos > 0 && a.device == b.device && activity_label(&a.data) == activity_label(&b.data)
                    && hole >= 0 && hole <= opts.gap.nanos;
                assert(joins == goes_on(segs, j as int, i as int, gap));
            }
            if joins {
                let at: usize = runs.len() - 1;
                runs[at].push(i);
                assert(runs@[at as int]@ =~= before.last().push(i));
                assert forall|g: int| 0 <= g < runs.len() implies (#[trigger] runs@[g])@
                    == open_runs(segs, gap, i + 1)[g] by {
                    if g < at {
                        assert(runs@[g] == held[g]);
                    }
                }
            } else {
                let mut run: Vec<usize> = Vec::new();
                run.push(i);
                assert(run@ =~= seq![i]);
                runs.push(run);
                assert forall|g: int| 0 <= g < runs.len() implies (#[trigger] runs@[g])@
                    == open_runs(segs, gap, i + 1)[g] by {
                    if g < held.len() {
                        assert(runs@[g] == held[g]);
                    }
                }
            }
        }
        i = i + 1;
    }
    let ghost groups = open_runs(segs, gap, segs.len() as int);
    let mut out: Vec<Question> = Vec::new();
    assert(out.deep_view() =~= Seq::empty());
    let mut g: usize = 0;
    while g < runs.len()
        invariant
            g <= runs.len(),
            segs == segments.deep_view(),
            segs.len() == segments.len(),
            askable(segs, gap),
            groups == open_runs(segs, gap, segs.len() as int),
            runs.len() == groups.len(),
            forall|h: int| 0 <= h < runs.len() ==> (#[trigger] runs@[h])@ == groups[h],
            out.deep_view() =~= asked(segs, gap).take(g as int),
        decreases runs.len() - g,
    {
        proof {
            open_runs_sound(segs, gap, segs.len() as int);
        }
        let blocks: &Vec<usize> = &runs[g];
        assert(blocks@ == groups[g as int]);
        assert(groups[g as int].len() > 0);
        assert forall|k: int| 0 <= k < blocks.len() implies (#[trigger] blocks[k])
            < segments.len() && segs[blocks[k] as int].unresolved by {
            assert(groups[g as int][k] < segs.len());
        }
        let first: usize = blocks[0];
        let last: usize = blocks[blocks.len() - 1];
        assert(segs[first as int] == segments@[first as int].deep_view());
        assert(segs[last as int] == segments@[last as int].deep_view());
        let mut copy: Vec<usize> = Vec::new();
        let mut k: usize = 0;
        while k < blocks.len()
            invariant
                k <= blocks.len(),
                copy@ =~= blocks@.take(k as int),
            decreases blocks.len() - k,
        {
            copy.push(blocks[k]);
            k = k + 1;
        }
        assert(copy@ =~= blocks@);
        assert forall|id: (Seq<char>, Seq<char>)|
            measurable(
                #[trigger] run_spans(slices_of(segs, blocks@, blocks.len() as int), id),
            ) by {
            assert(run_slices(segs, gap, g as int) == slices_of(segs, blocks@, blocks.len() as int));
            assert(measurable(run_spans(run_slices(segs, gap, g as int), id)));
        }
        let competitors = competitors_of(segments, blocks);
        let q = Question {
            start: segments[first].start,
            end: segments[last].end,
            blocks: copy,
            competitors,
        };
        assert(q.deep_view() =~= question_of(segs, groups[g as int]));
        list::push(&mut out, q);
        g = g + 1;
    }
    assert(out.deep_view() =~= asked(segs, gap));
    out
}

/// The counted time of those of the first `n` blocks that are in the list, in nanoseconds.
pub open spec fn open_time(segs: Seq<SegmentV>, blocks: Seq<usize>, n: int) -> int
    decreases n,
{
    if n <= 0 {
        0
    } else {
        open_time(segs, blocks, n - 1) + if blocks[n - 1] < segs.len() {
            counted(segs[blocks[n - 1] as int])
        } else {
            0
        }
    }
}

impl Question {
    /// Seconds of open time this question covers: the sum of its blocks' counted spans, not
    /// `end - start`, which also covers the settled slivers bridged over.
    pub fn unresolved_seconds(&self, segments: &Vec<Segment>) -> (r: i64)
        requires
            forall|k: int|
                0 <= k < self.blocks.len() && (#[trigger] self.blocks[k]) < segments.len()
                    ==> summable(
                    segments.deep_view()[self.blocks[k] as int].foreground_shares,
                    false,
                ),
            forall|n: int|
                0 <= n <= self.blocks.len() ==> countable(
                    #[trigger] open_time(segments.deep_view(), self.blocks@, n),
                ),
        ensures
            r == whole_seconds(
                open_time(segments.deep_view(), self.blocks@, self.blocks.len() as int),
            ),
    {
        let ghost segs = segments.deep_view();
        assert(segs.len() == segments.len());
        let mut sum: i128 = 0;
        let mut i: usize = 0;
        while i < self.blocks.len()
            invariant
                i <= self.blocks.len(),
                segs == segments.deep_view(),
                segs.len() == segments.len(),
                forall|k: int|
                    0 <= k < self.blocks.len() && (#[trigger] self.blocks[k]) < segments.len()
                        ==> summable(segs[self.blocks[k] as int].foreground_shares, false),
                forall|n: int|
                    0 <= n <= self.blocks.len() ==> countable(
                        #[trigger] open_time(segs, self.blocks@, n),
                    ),
                sum == open_time(segs, self.blocks@, i as int),
            decreases self.blocks.len() - i,
        {
            let at: usize = self.blocks[i];
            assert(countable(open_time(segs, self.blocks@, i + 1)));
            if at < segments.len() {
                assert(segs[at as int] == segments@[at as int].deep_view());
                let span = segments[at].counted_span();
                sum = sum + span.nanos;
            }
            i = i + 1;
        }
        assert(countable(open_time(segs, self.blocks@, self.blocks.len() as int)));
        Duration { nanos: sum }.num_seconds()
    }
}

/// The open blocks among the first `n`, in order.
pub open spec fn open_blocks(segs: Seq<SegmentV>, n: int) -> Seq<usize>
    decreases n,
{
    if n <= 0 {
        Seq::empty()
    } else if segs[n - 1].unresolved {
        open_blocks(segs, n - 1).push((n - 1) as usize)
    } else {
        open_blocks(segs, n - 1)
    }
}

/// The blocks of a run.
pub open spec fn blocks_of_run() -> spec_fn(Seq<usize>) -> Seq<usize> {
    |run: Seq<usize>| run
}

/// Every open block is in one question and no other block is in any: the questions, one after
/// another, list exactly the open blocks, in order.
pub proof fn questions_cover_the_open_blocks(segs: Seq<SegmentV>, gap: int, n: int)
    requires
        0 <= n <= segs.len(),
    ensures
        list::flat(
            open_runs(segs, gap, n),
            blocks_of_run(),
            open_runs(segs, gap, n).len() as int,
        ) == open_blocks(segs, n),
    decreases n,
{
    let f = blocks_of_run();
    let all = open_runs(segs, gap, n);
    if n > 0 {
        questions_cover_the_open_blocks(segs, gap, n - 1);
        let rest = open_runs(segs, gap, n - 1);
        let b = (n - 1) as usize;
        if segs[n - 1].unresolved {
            if rest.len() > 0 && goes_on(segs, rest.last().last() as int, n - 1, gap) {
                let last = rest.len() - 1;
                list::flat_prefix(all, rest, f, f, last);
                assert(list::flat(rest, f, last + 1) == list::flat(rest, f, last) + rest[last]);
                assert(list::flat(all, f, last + 1) =~= list::flat(rest, f, last + 1).push(b));
            } else {
                list::flat_prefix(all, rest, f, f, rest.len() as int);
                assert(all[rest.len() as int] =~= seq![b]);
                assert(list::flat(all, f, rest.len() as int + 1) =~= list::flat(
                    rest,
                    f,
                    rest.len() as int,
                ).push(b));
            }
        }
    } else {
        assert(list::flat(all, f, all.len() as int) =~= open_blocks(segs, n));
    }
}

/// Whether each block of a run goes on with the competition of the one before it.
pub open spec fn one_competition(segs: Seq<SegmentV>, run: Seq<usize>, gap: int) -> bool {
    forall|k: int|
        #![trigger run[k]]
        0 < k < run.len() ==> goes_on(segs, run[k - 1] as int, run[k] as int, gap)
}

/// Whether the first block of run `g` does not go on with the run before it.
pub open spec fn breaks_off(segs: Seq<SegmentV>, runs: Seq<Seq<usize>>, g: int, gap: int) -> bool {
    !goes_on(segs, runs[g - 1].last() as int, runs[g][0] as int, gap)
}

/// A question is one competition, and as much of it as there is: inside it each block goes on with
/// the one before, and the next question does not go on with it.
pub proof fn a_question_is_one_whole_competition(segs: Seq<SegmentV>, gap: int, n: int)
    requires
        0 <= n <= segs.len(),
        segs.len() <= usize::MAX,
    ensures
        forall|g: int|
            0 <= g < open_runs(segs, gap, n).len() ==> (#[trigger] open_runs(segs, gap, n)[g]).len()
                > 0 && one_competition(segs, open_runs(segs, gap, n)[g], gap),
        forall|g: int|
            0 < g < open_runs(segs, gap, n).len() ==> #[trigger] breaks_off(
                segs,
                open_runs(segs, gap, n),
                g,
                gap,
            ),
    decreases n,
{
    if n > 0 {
        a_question_is_one_whole_competition(segs, gap, n - 1);
        let rest = open_runs(segs, gap, n - 1);
        let all = open_runs(segs, gap, n);
        let b = (n - 1) as usize;
        if segs[n - 1].unresolved {
            if rest.len() > 0 && goes_on(segs, rest.last().last() as int, n - 1, gap) {
                let last = rest.len() - 1;
                let run = rest[last];
                assert(run.len() > 0);
                assert(one_competition(segs, run.push(b), gap)) by {
                    assert forall|k: int|
                        #![trigger run.push(b)[k]]
                        0 < k < run.push(b).len() implies goes_on(
                        segs,
                        run.push(b)[k - 1] as int,
                        run.push(b)[k] as int,
                        gap,
                    ) by {
                        if k < run.len() {
                            assert(run.push(b)[k] == run[k]);
                            assert(run.push(b)[k - 1] == run[k - 1]);
                        }
                    }
                }
                assert forall|g: int| 0 <= g < all.len() implies (#[trigger] all[g]).len() > 0
                    && one_competition(segs, all[g], gap) by {
                    if g < last {
                        assert(all[g] == rest[g]);
                    }
                }
                assert forall|g: int| 0 < g < all.len() implies #[trigger] breaks_off(
                    segs,
                    all,
                    g,
                    gap,
                ) by {
                    assert(breaks_off(segs, rest, g, gap));
                    assert(all[g - 1] == rest[g - 1]);
                    assert(rest[g].len() > 0);
                    assert(all[g][0] == rest[g][0]);
                }
            } else {
                assert(all == rest.push(seq![b]));
                assert forall|g: int| 0 <= g < all.len() implies (#[trigger] all[g]).len() > 0
                    && one_competition(segs, all[g], gap) by {
                    if g < rest.len() {
                        assert(all[g] == rest[g]);
                    }
                }
                assert forall|g: int| 0 < g < all.len() implies #[trigger] breaks_off(
                    segs,
                    all,
                    g,
                    gap,
                ) by {
                    if g < rest.len() {
                        assert(breaks_off(segs, rest, g, gap));
                        assert(all[g - 1] == rest[g - 1] && all[g] == rest[g]);
                    } else {
                        assert(all[g - 1] == rest.last());
                    }
                }
            }
        }
    }
}

/// The activities are listed once each, and every slice's activity is listed.
pub proof fn ids_of_sound(slices: Seq<SliceV>, n: int)
    requires
        0 <= n <= slices.len(),
    ensures
        ids_of(slices, n).no_duplicates(),
        forall|k: int| 0 <= k < n ==> ids_of(slices, n).contains(id_of(#[trigger] slices[k])),
    decreases n,
{
    if n > 0 {
        ids_of_sound(slices, n - 1);
        let rest = ids_of(slices, n - 1);
        let all = ids_of(slices, n);
        assert forall|k: int| 0 <= k < n implies all.contains(id_of(#[trigger] slices[k])) by {
            if k < n - 1 {
                assert(rest.contains(id_of(slices[k])));
                let j = choose|j: int| 0 <= j < rest.len() && rest[j] == id_of(slices[k]);
                assert(all[j] == rest[j]);
            } else if !rest.contains(id_of(slices[k])) {
                assert(all[rest.len() as int] == id_of(slices[k]));
            }
        }
    }
}

proof fn slices_of_prefix(segs: Seq<SegmentV>, blocks: Seq<usize>, n: int, k: int)
    requires
        1 <= n <= blocks.len(),
        0 <= k < segs[blocks[0] as int].active.len(),
    ensures
        slices_of(segs, blocks, n).len() > k,
        slices_of(segs, blocks, n)[k] == segs[blocks[0] as int].active[k],
    decreases n,
{
    if n > 1 {
        slices_of_prefix(segs, blocks, n - 1, k);
    } else {
        assert(slices_of(segs, blocks, 0) =~= Seq::empty());
        assert(slices_of(segs, blocks, 1) =~= segs[blocks[0] as int].active);
    }
}

/// A question offers each activity once, longest first, and exactly one of them is the provisional
/// winner. Where the first block is contested by two devices there are at least two to choose
/// from.
pub proof fn a_question_offers_its_winner_once(segs: Seq<SegmentV>, blocks: Seq<usize>)
    requires
        blocks.len() > 0,
        attributed(segs[blocks[0] as int]),
    ensures
        ({
            let offered = question_of(segs, blocks).competitors;
            &&& in_order::<Competitor>(offered)
            &&& exists|k: int|
                0 <= k < offered.len() && #[trigger] offered[k].is_foreground && forall|l: int|
                    0 <= l < offered.len() && #[trigger] offered[l].is_foreground ==> l == k
            &&& contested(segs[blocks[0] as int]) ==> offered.len() >= 2
        }),
{
    let first = segs[blocks[0] as int];
    let slices = slices_of(segs, blocks, blocks.len() as int);
    let winner = activity(first);
    let listed = competitors(slices, winner);
    let ids = ids_of(slices, slices.len() as int);
    let offered = arranged::<Competitor>(listed);
    arranged_in_order::<Competitor>(listed);
    arranged_keeps::<Competitor>(listed);
    ids_of_sound(slices, slices.len() as int);
    slices_of_prefix(segs, blocks, blocks.len() as int, first.foreground);
    assert(ids.contains(id_of(slices[first.foreground])));
    let w = choose|w: int| 0 <= w < ids.len() && ids[w] == winner;
    arranged_contains::<Competitor>(listed, listed[w]);
    assert(listed.contains(listed[w]));
    let k = choose|k: int| 0 <= k < offered.len() && offered[k] == listed[w];
    assert(listed.no_duplicates()) by {
        assert forall|a: int, b: int|
            0 <= a < listed.len() && 0 <= b < listed.len() && a != b implies listed[a]
            != listed[b] by {
            assert(ids[a] != ids[b]);
        }
    }
    listed.lemma_multiset_has_no_duplicates();
    offered.lemma_multiset_has_no_duplicates_conv();
    assert(offered[k].is_foreground);
    assert forall|l: int| 0 <= l < offered.len() && #[trigger] offered[l].is_foreground implies l
        == k by {
        arranged_contains::<Competitor>(listed, offered[l]);
        assert(offered.contains(offered[l]));
        let a = choose|a: int| 0 <= a < listed.len() && listed[a] == offered[l];
        assert(ids[a] == winner);
        assert(a == w);
    }
    if contested(first) {
        assert(two_devices(first.active));
        let (i, j) = choose|i: int, j: int|
            0 <= i < first.active.len() && 0 <= j < first.active.len() && (
            #[trigger] first.active[i]).device != (#[trigger] first.active[j]).device;
        slices_of_prefix(segs, blocks, blocks.len() as int, i);
        slices_of_prefix(segs, blocks, blocks.len() as int, j);
        assert(ids.contains(id_of(slices[i])));
        assert(ids.contains(id_of(slices[j])));
        assert(id_of(slices[i]) != id_of(slices[j]));
        assert(ids.len() >= 2);
        assert(listed.len() == ids.len());
        assert(offered.len() == listed.len());
    }
}

/// The provisional winner is offered first wherever no rival ran for more whole seconds than it did.
pub proof fn the_winner_is_offered_first(segs: Seq<SegmentV>, blocks: Seq<usize>)
    requires
        blocks.len() > 0,
        attributed(segs[blocks[0] as int]),
        ({
            let slices = slices_of(segs, blocks, blocks.len() as int);
            forall|k: int|
                0 <= k < slices.len() ==> whole_seconds(ran(slices, id_of(#[trigger] slices[k])))
                    <= whole_seconds(ran(slices, activity(segs[blocks[0] as int])))
        }),
    ensures
        question_of(segs, blocks).competitors.len() > 0,
        question_of(segs, blocks).competitors[0].is_foreground,
{
    let slices = slices_of(segs, blocks, blocks.len() as int);
    let winner = activity(segs[blocks[0] as int]);
    let listed = competitors(slices, winner);
    let ids = ids_of(slices, slices.len() as int);
    let offered = question_of(segs, blocks).competitors;
    a_question_offers_its_winner_once(segs, blocks);
    let w = choose|w: int| 0 <= w < offered.len() && #[trigger] offered[w].is_foreground;
    arranged_contains::<Competitor>(listed, offered[0]);
    assert(offered.contains(offered[0]));
    let a = choose|a: int| 0 <= a < listed.len() && listed[a] == offered[0];
    arranged_contains::<Competitor>(listed, offered[w]);
    assert(offered.contains(offered[w]));
    let b = choose|b: int| 0 <= b < listed.len() && listed[b] == offered[w];
    ids_come_from_slices(slices, slices.len() as int, a);
    if w > 0 {
        assert(!Competitor::precedes(offered[w], offered[0]));
    }
}

/// Every listed activity is one of the slices'.
pub proof fn ids_come_from_slices(slices: Seq<SliceV>, n: int, a: int)
    requires
        0 <= n <= slices.len(),
        0 <= a < ids_of(slices, n).len(),
    ensures
        exists|k: int| 0 <= k < n && ids_of(slices, n)[a] == id_of(#[trigger] slices[k]),
    decreases n,
{
    if n > 0 {
        let rest = ids_of(slices, n - 1);
        if a < rest.len() {
            ids_come_from_slices(slices, n - 1, a);
        } else {
            assert(ids_of(slices, n)[a] == id_of(slices[n - 1]));
        }
    }
}

/// The instants that lie in at least one of the spans.
pub open spec fn instants(spans: Seq<SpanV>) -> Set<int> {
    Set::new(|t: int| covered_by(spans, t))
}

pub open spec fn covered_by(spans: Seq<SpanV>, t: int) -> bool {
    exists|i: int| 0 <= i < spans.len() && holds_instant(#[trigger] spans[i], t)
}

pub open spec fn holds_instant(span: SpanV, t: int) -> bool {
    span.start <= t < span.end
}

/// Those of the first `n` spans' instants that lie before `cut`.
spec fn instants_before(sorted: Seq<SpanV>, n: int, cut: int) -> Set<int> {
    Set::new(|t: int| covered_by(sorted.take(n), t) && t < cut)
}

proof fn covered_by_one_more(sorted: Seq<SpanV>, n: int, t: int)
    requires
        0 < n <= sorted.len(),
    ensures
        covered_by(sorted.take(n), t) <==> covered_by(sorted.take(n - 1), t) || holds_instant(
            sorted[n - 1],
            t,
        ),
{
    let all = sorted.take(n);
    let rest = sorted.take(n - 1);
    if covered_by(all, t) {
        let i = choose|i: int| 0 <= i < all.len() && holds_instant(#[trigger] all[i], t);
        if i < n - 1 {
            assert(rest[i] == all[i]);
        }
    }
    if covered_by(rest, t) {
        let i = choose|i: int| 0 <= i < rest.len() && holds_instant(#[trigger] rest[i], t);
        assert(all[i] == rest[i]);
    }
    if holds_instant(sorted[n - 1], t) {
        assert(all[n - 1] == sorted[n - 1]);
    }
}

proof fn joined_up_measures(sorted: Seq<SpanV>, n: int)
    requires
        0 <= n <= sorted.len(),
        in_order::<Span>(sorted),
        forall|i: int| 0 <= i < sorted.len() ==> (#[trigger] sorted[i]).start <= sorted[i].end,
    ensures
        match joined_up(sorted, n) {
            (done, Some(cur)) => {
                &&& n > 0
                &&& cur.start <= cur.end
                &&& cur.start <= sorted[n - 1].start
                &&& instants_before(sorted, n, cur.start).finite()
                &&& instants_before(sorted, n, cur.start).len() == done
                &&& forall|t: int|
                    cur.start <= t ==> (#[trigger] covered_by(sorted.take(n), t) <==> t < cur.end)
            },
            (done, None) => n == 0 && done == 0,
        },
    decreases n,
{
    if n == 1 {
        let next = sorted[0];
        assert(joined_up(sorted, 0) == (0int, None::<SpanV>));
        assert forall|t: int| #[trigger] covered_by(sorted.take(1), t) <==> holds_instant(next, t) by {
            covered_by_one_more(sorted, 1, t);
        }
        assert(instants_before(sorted, 1, next.start) =~= Set::empty());
    } else if n > 1 {
        joined_up_measures(sorted, n - 1);
        let (done, last) = joined_up(sorted, n - 1);
        let next = sorted[n - 1];
        let cur = last->0;
        assert(!Span::precedes(sorted[n - 1], sorted[n - 2]));
        assert forall|t: int| #[trigger] covered_by(sorted.take(n), t) <==> covered_by(
            sorted.take(n - 1),
            t,
        ) || holds_instant(next, t) by {
            covered_by_one_more(sorted, n, t);
        }
        if next.start <= cur.end {
            assert(instants_before(sorted, n, cur.start) =~= instants_before(
                sorted,
                n - 1,
                cur.start,
            ));
        } else {
            let low = instants_before(sorted, n - 1, cur.start);
            let range = set_int_range(cur.start, cur.end);
            lemma_int_range(cur.start, cur.end);
            lemma_set_disjoint_lens(low, range);
            assert(low.disjoint(range));
            assert(instants_before(sorted, n, next.start) =~= low + range) by {
                assert forall|t: int| #![auto]
                    instants_before(sorted, n, next.start).contains(t) == (low + range).contains(t) by {
                    if t >= cur.start {
                        assert(covered_by(sorted.take(n - 1), t) <==> t < cur.end);
                    }
                }
            }
        }
    }
}

/// A competitor is credited with every instant at which it was running, each once, however many
/// times it was recorded: how long an activity ran is how many nanoseconds its originating
/// intervals cover.
pub proof fn an_activity_is_credited_each_instant_once(
    slices: Seq<SliceV>,
    id: (Seq<char>, Seq<char>),
)
    requires
        forall|k: int|
            0 <= k < slices.len() ==> (#[trigger] slices[k]).source_start <= slices[k].source_end,
    ensures
        instants(sources(slices, id, slices.len() as int)).finite(),
        ran(slices, id) == instants(sources(slices, id, slices.len() as int)).len(),
{
    let spans = sources(slices, id, slices.len() as int);
    let sorted = arranged::<Span>(spans);
    let n = sorted.len() as int;
    sources_go_forward(slices, id, slices.len() as int);
    arranged_in_order::<Span>(spans);
    assert forall|i: int| 0 <= i < n implies (#[trigger] sorted[i]).start <= sorted[i].end by {
        arranged_contains::<Span>(spans, sorted[i]);
        assert(sorted.contains(sorted[i]));
        let k = choose|k: int| 0 <= k < spans.len() && spans[k] == sorted[i];
    }
    assert forall|t: int| #[trigger] covered_by(sorted, t) == covered_by(spans, t) by {
        if covered_by(sorted, t) {
            let i = choose|i: int| 0 <= i < n && holds_instant(#[trigger] sorted[i], t);
            arranged_contains::<Span>(spans, sorted[i]);
            assert(sorted.contains(sorted[i]));
            let k = choose|k: int| 0 <= k < spans.len() && spans[k] == sorted[i];
            assert(holds_instant(spans[k], t));
        }
        if covered_by(spans, t) {
            let k = choose|k: int| 0 <= k < spans.len() && holds_instant(#[trigger] spans[k], t);
            arranged_contains::<Span>(spans, spans[k]);
            assert(spans.contains(spans[k]));
            let i = choose|i: int| 0 <= i < n && sorted[i] == spans[k];
            assert(holds_instant(sorted[i], t));
        }
    }
    assert(instants(sorted) =~= instants(spans));
    joined_up_measures(sorted, n);
    assert(sorted.take(n) =~= sorted);
    match joined_up(sorted, n) {
        (done, Some(cur)) => {
            let low = instants_before(sorted, n, cur.start);
            let range = set_int_range(cur.start, cur.end);
            lemma_int_range(cur.start, cur.end);
            lemma_set_disjoint_lens(low, range);
            assert(low.disjoint(range));
            assert(instants(sorted) =~= low + range);
        },
        (done, None) => {
            assert(instants(sorted) =~= Set::empty());
        },
    }
}

proof fn sources_go_forward(slices: Seq<SliceV>, id: (Seq<char>, Seq<char>), n: int)
    requires
        0 <= n <= slices.len(),
        forall|k: int|
            0 <= k < slices.len() ==> (#[trigger] slices[k]).source_start <= slices[k].source_end,
    ensures
        forall|k: int|
            0 <= k < sources(slices, id, n).len() ==> (#[trigger] sources(slices, id, n)[k]).start
                <= sources(slices, id, n)[k].end,
    decreases n,
{
    if n > 0 {
        sources_go_forward(slices, id, n - 1);
        let rest = sources(slices, id, n - 1);
        let all = sources(slices, id, n);
        assert forall|k: int| 0 <= k < all.len() implies (#[trigger] all[k]).start <= all[k].end by {
            if k < rest.len() {
                assert(all[k] == rest[k]);
            } else {
                assert(slices[n - 1].source_start <= slices[n - 1].source_end);
            }
        }
    }
}

} // verus!
