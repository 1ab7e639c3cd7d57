//! What the owner's decisions do to a day, and what is done where there is none.

use vstd::prelude::*;

use crate::apply::{
    answers, best, best_is_admitted, can_act, cast, cast_key, covers, resolved, role, rule_for,
    rules_for, settled, slot, slot_by_role, slot_by_uuid,
};
use crate::attribute::{winner, winner_is_best, with_foreground};
use crate::classify::{classified, contested, continues, run_end, run_start, short_run, total};
use crate::decision::{beats, key_of, DecisionV, Participant, ParticipantV, PickV};
use crate::decision_laws::{cast_of, casts, the_same_cast_has_the_same_key, CastV};
use crate::list;
use crate::model::{first_name, label, roles_of, InputV, SegmentState, SegmentV, SliceV};
use crate::order::{arranged, arranged_keeps};
use crate::pipeline::{computed, cut_and_excluded, later_steps_keep, something_is_active};
use crate::text;
use crate::time::{stamp_before, stamp_in, stamp_of};

verus! {

/// Whether a slice is the picked app on the device that was picked.
pub open spec fn is_the_pick(s: SliceV, pick: PickV) -> bool {
    s.device == pick.device_uuid && label(s.data) == pick.app
}

/// Whether a slice stands in for a pick on a device that no name is known for: the same app on a
/// device that goes by the name that was recorded.
pub open spec fn stands_in(s: SliceV, pick: PickV, roles: Map<Seq<char>, Seq<char>>) -> bool {
    &&& !roles.contains_key(pick.device_uuid)
    &&& label(s.data) == pick.app
    &&& pick.device_role == if roles.contains_key(s.device) {
        roles[s.device]
    } else {
        s.device
    }
}

/// Whether one of the slices is the pick, or stands in for it.
pub open spec fn pick_runs(
    slices: Seq<SliceV>,
    pick: PickV,
    roles: Map<Seq<char>, Seq<char>>,
) -> bool {
    exists|k: int|
        0 <= k < slices.len() && (is_the_pick(#[trigger] slices[k], pick) || stands_in(
            slices[k],
            pick,
            roles,
        ))
}

/// Whether a decision has an answer for these slices: to ignore or to relabel goes for any, to pick
/// only where the pick runs.
pub open spec fn has_answer(
    slices: Seq<SliceV>,
    d: DecisionV,
    roles: Map<Seq<char>, Seq<char>>,
) -> bool {
    ||| d.resolution.outcome == "ignore"@
    ||| d.resolution.outcome == "relabel"@
    ||| d.resolution.outcome == "foreground"@ && d.resolution.foreground is Some && pick_runs(
        slices,
        d.resolution.foreground->0,
        roles,
    )
}

/// Whether a decision was made for one window and that window covers the segment.
pub open spec fn made_for(d: DecisionV, seg: SegmentV) -> bool {
    &&& d.scope != "always"@
    &&& stamp_in(d.window.start) matches Some(a) && !stamp_before(stamp_of(seg.start), a)
    &&& stamp_in(d.window.end) matches Some(z) && !stamp_before(z, stamp_of(seg.end))
}

/// Whether a decision is a rule that is understood, for the competitors with this key.
pub open spec fn rule_on(d: DecisionV, key: Seq<char>) -> bool {
    &&& d.scope == "always"@
    &&& d.resolution.outcome == "ignore"@ || d.resolution.outcome == "relabel"@
        || d.resolution.outcome == "foreground"@
    &&& key_of(d.signature) == key
}

/// Whether a segment shows what a decision says, and says that the decision did it.
pub open spec fn carried_out(
    seg: SegmentV,
    d: DecisionV,
    roles: Map<Seq<char>, Seq<char>>,
) -> bool {
    let r = d.resolution;
    &&& seg.resolved_by == Some(d.id)
    &&& seg.state == SegmentState::Settled
    &&& seg.auto_resolved == (d.scope == "always"@)
    &&& seg.deliberate_background == r.deliberate_background
    &&& seg.ignored == (seg.not_counted || r.outcome == "ignore"@)
    &&& seg.label_override == if r.outcome == "relabel"@ {
        r.label
    } else {
        None
    }
    &&& r.outcome == "foreground"@ ==> r.foreground is Some && 0 <= seg.foreground
        < seg.active.len() && shows_pick(seg.active, seg.foreground, r.foreground->0, roles)
}

/// Whether slice `f` is the first that is the pick, or, where none is, the first that stands in.
pub open spec fn shows_pick(
    slices: Seq<SliceV>,
    f: int,
    pick: PickV,
    roles: Map<Seq<char>, Seq<char>>,
) -> bool {
    if exists|k: int| 0 <= k < slices.len() && is_the_pick(#[trigger] slices[k], pick) {
        is_the_pick(slices[f], pick) && forall|k: int|
            0 <= k < f ==> !is_the_pick(#[trigger] slices[k], pick)
    } else {
        stands_in(slices[f], pick, roles) && forall|k: int|
            0 <= k < f ==> !stands_in(#[trigger] slices[k], pick, roles)
    }
}

/// Whether nothing was decided about a segment.
pub open spec fn undecided(seg: SegmentV) -> bool {
    &&& seg.resolved_by is None
    &&& !seg.auto_resolved
    &&& seg.label_override is None
    &&& seg.deliberate_background.len() == 0
    &&& seg.ignored == seg.not_counted
}

proof fn first_by_uuid(slices: Seq<SliceV>, pick: PickV, i: int)
    requires
        0 <= i,
    ensures
        match slot_by_uuid(slices, pick, i) {
            Some(k) => i <= k < slices.len() && is_the_pick(slices[k], pick) && forall|j: int|
                i <= j < k ==> !is_the_pick(#[trigger] slices[j], pick),
            None => forall|j: int|
                i <= j < slices.len() ==> !is_the_pick(#[trigger] slices[j], pick),
        },
    decreases slices.len() - i,
{
    if i < slices.len() {
        first_by_uuid(slices, pick, i + 1);
    }
}

proof fn first_by_role(
    slices: Seq<SliceV>,
    pick: PickV,
    roles: Map<Seq<char>, Seq<char>>,
    i: int,
)
    requires
        0 <= i,
        !roles.contains_key(pick.device_uuid),
    ensures
        match slot_by_role(slices, pick, roles, i) {
            Some(k) => i <= k < slices.len() && stands_in(slices[k], pick, roles) && forall|j: int|
                i <= j < k ==> !stands_in(#[trigger] slices[j], pick, roles),
            None => forall|j: int|
                i <= j < slices.len() ==> !stands_in(#[trigger] slices[j], pick, roles),
        },
    decreases slices.len() - i,
{
    if i < slices.len() {
        first_by_role(slices, pick, roles, i + 1);
    }
}

proof fn slot_is_the_pick(slices: Seq<SliceV>, pick: PickV, roles: Map<Seq<char>, Seq<char>>)
    ensures
        match slot(slices, pick, roles) {
            Some(f) => 0 <= f < slices.len() && shows_pick(slices, f, pick, roles) && pick_runs(
                slices,
                pick,
                roles,
            ),
            None => !pick_runs(slices, pick, roles),
        },
{
    first_by_uuid(slices, pick, 0);
    if slot_by_uuid(slices, pick, 0) is None && !roles.contains_key(pick.device_uuid) {
        first_by_role(slices, pick, roles, 0);
    }
}

proof fn outcomes_differ()
    ensures
        "ignore"@ != "relabel"@,
        "ignore"@ != "foreground"@,
        "relabel"@ != "foreground"@,
{
    reveal_strlit("ignore");
    reveal_strlit("relabel");
    reveal_strlit("foreground");
    assert("ignore"@.len() == 6);
    assert("relabel"@.len() == 7);
    assert("foreground"@.len() == 10);
}

proof fn acting_is_answering(slices: Seq<SliceV>, d: DecisionV, roles: Map<Seq<char>, Seq<char>>)
    ensures
        can_act(slices, d, roles) == has_answer(slices, d, roles),
{
    outcomes_differ();
    if let Some(pick) = d.resolution.foreground {
        slot_is_the_pick(slices, pick, roles);
    }
}

proof fn covering_is_made_for(d: DecisionV, seg: SegmentV)
    ensures
        d.scope != "always"@ ==> covers(d, seg.start, seg.end) == made_for(d, seg),
{
}

proof fn resolving_carries_out(
    seg: SegmentV,
    d: DecisionV,
    by_rule: bool,
    roles: Map<Seq<char>, Seq<char>>,
)
    requires
        undecided(seg),
        has_answer(seg.active, d, roles),
        by_rule == (d.scope == "always"@),
    ensures
        carried_out(resolved(seg, d, by_rule, roles), d, roles),
        resolved(seg, d, by_rule, roles).active == seg.active,
        d.resolution.outcome != "foreground"@ ==> resolved(seg, d, by_rule, roles).foreground
            == seg.foreground,
{
    outcomes_differ();
    if let Some(pick) = d.resolution.foreground {
        slot_is_the_pick(seg.active, pick, roles);
    }
}

/// Whether decision `d` is the one that a segment goes by: of those made for its time that have an
/// answer the one that prevails; where there is none, of the rules for its competitors the one that
/// prevails, if that one has an answer. Rules name the competitors by their roles, or, where none
/// does, by their uuids.
pub open spec fn goes_by(
    seg: SegmentV,
    ds: Seq<DecisionV>,
    roles: Map<Seq<char>, Seq<char>>,
    d: DecisionV,
) -> bool {
    &&& ds.contains(d)
    &&& has_answer(seg.active, d, roles)
    &&& if made_for(d, seg) {
        forall|j: int|
            0 <= j < ds.len() && made_for(#[trigger] ds[j], seg) && has_answer(
                seg.active,
                ds[j],
                roles,
            ) ==> !beats(ds[j], d)
    } else {
        prevails_among(seg, ds, roles, d) && forall|j: int|
            0 <= j < ds.len() && made_for(#[trigger] ds[j], seg) ==> !has_answer(
                seg.active,
                ds[j],
                roles,
            )
    }
}

/// Whether decision `d` is the rule that prevails for the competitors of a segment.
pub open spec fn prevails_among(
    seg: SegmentV,
    ds: Seq<DecisionV>,
    roles: Map<Seq<char>, Seq<char>>,
    d: DecisionV,
) -> bool {
    let named = cast_key(seg.active, roles);
    let by_uuid = cast_key(seg.active, Map::empty());
    if exists|j: int| 0 <= j < ds.len() && rule_on(#[trigger] ds[j], named) {
        rule_on(d, named) && forall|j: int|
            0 <= j < ds.len() && rule_on(#[trigger] ds[j], named) ==> !beats(ds[j], d)
    } else {
        rule_on(d, by_uuid) && forall|j: int|
            0 <= j < ds.len() && rule_on(#[trigger] ds[j], by_uuid) ==> !beats(ds[j], d)
    }
}

proof fn rules_are_rules(d: DecisionV, key: Seq<char>)
    ensures
        rules_for(key)(d) == rule_on(d, key),
{
    reveal_strlit("ignore");
    reveal_strlit("relabel");
    reveal_strlit("foreground");
    reveal_strlit("always");
}

proof fn prevailing_rule(seg: SegmentV, ds: Seq<DecisionV>, roles: Map<Seq<char>, Seq<char>>)
    ensures
        match rule_for(ds, seg.active, roles) {
            Some(i) => 0 <= i < ds.len() && prevails_among(seg, ds, roles, ds[i]),
            None => forall|j: int|
                0 <= j < ds.len() ==> !rule_on(#[trigger] ds[j], cast_key(seg.active, roles))
                    && !rule_on(ds[j], cast_key(seg.active, Map::empty())),
        },
{
    let n = ds.len() as int;
    let named = cast_key(seg.active, roles);
    let by_uuid = cast_key(seg.active, Map::empty());
    best_is_admitted(ds, rules_for(named), n);
    best_is_admitted(ds, rules_for(by_uuid), n);
    assert forall|j: int| 0 <= j < n implies rules_for(named)(#[trigger] ds[j]) == rule_on(
        ds[j],
        named,
    ) && rules_for(by_uuid)(ds[j]) == rule_on(ds[j], by_uuid) by {
        rules_are_rules(ds[j], named);
        rules_are_rules(ds[j], by_uuid);
    }
    match rule_for(ds, seg.active, roles) {
        Some(i) => {
            assert(rules_for(named)(ds[i]) == rule_on(ds[i], named));
        },
        None => {},
    }
}

/// Whether no decision settles a segment: none that was made for its time has an answer, and of the
/// rules for its competitors there is none, or the one that prevails has no answer.
pub open spec fn goes_by_none(
    seg: SegmentV,
    ds: Seq<DecisionV>,
    roles: Map<Seq<char>, Seq<char>>,
) -> bool {
    &&& forall|j: int|
        0 <= j < ds.len() && made_for(#[trigger] ds[j], seg) ==> !has_answer(
            seg.active,
            ds[j],
            roles,
        )
    &&& (exists|j: int|
        0 <= j < ds.len() && prevails_among(seg, ds, roles, #[trigger] ds[j]) && !has_answer(
            seg.active,
            ds[j],
            roles,
        )) || forall|j: int|
        0 <= j < ds.len() ==> !rule_on(#[trigger] ds[j], cast_key(seg.active, roles)) && !rule_on(
            ds[j],
            cast_key(seg.active, Map::empty()),
        )
}

/// A segment goes by the decision that prevails for it, which is carried out; where there is none,
/// the segment is left as it was.
pub proof fn a_decision_that_prevails_is_carried_out(
    seg: SegmentV,
    ds: Seq<DecisionV>,
    roles: Map<Seq<char>, Seq<char>>,
)
    requires
        undecided(seg),
    ensures
        ({
            let out = settled(seg, ds, roles);
            &&& out.active == seg.active
            &&& out.resolved_by is Some ==> exists|d: DecisionV| #[trigger]
                goes_by(seg, ds, roles, d) && carried_out(out, d, roles) && (
                d.resolution.outcome != "foreground"@ ==> out.foreground == seg.foreground)
            &&& out.resolved_by is None ==> out == seg && goes_by_none(seg, ds, roles)
        }),
{
    reveal_strlit("always");
    let n = ds.len() as int;
    let out = settled(seg, ds, roles);
    best_is_admitted(ds, answers(seg, roles), n);
    assert forall|j: int| 0 <= j < n implies answers(seg, roles)(#[trigger] ds[j]) == (made_for(
        ds[j],
        seg,
    ) && has_answer(seg.active, ds[j], roles)) by {
        acting_is_answering(seg.active, ds[j], roles);
        covering_is_made_for(ds[j], seg);
    }
    prevailing_rule(seg, ds, roles);
    match best(ds, answers(seg, roles), n) {
        Some(i) => {
            resolving_carries_out(seg, ds[i], false, roles);
            assert(ds.contains(ds[i]));
            assert(goes_by(seg, ds, roles, ds[i]));
        },
        None => match rule_for(ds, seg.active, roles) {
            Some(i) => {
                acting_is_answering(seg.active, ds[i], roles);
                assert(ds[i].scope == "always"@);
                assert(!made_for(ds[i], seg));
                if can_act(seg.active, ds[i], roles) {
                    resolving_carries_out(seg, ds[i], true, roles);
                    assert(ds.contains(ds[i]));
                    assert(goes_by(seg, ds, roles, ds[i]));
                }
            },
            None => {},
        },
    }
}

/// Whether two devices compete for a segment: it counts, and two of its slices are of different
/// devices.
pub open spec fn competed_for(seg: SegmentV) -> bool {
    !seg.not_counted && exists|j: int, k: int|
        0 <= j < seg.active.len() && 0 <= k < seg.active.len() && (
        #[trigger] seg.active[j]).device != (#[trigger] seg.active[k]).device
}

/// Whether segments `a` up to `b` are one competition: each is competed for and begins where the one
/// before it ends.
pub open spec fn one_stretch(segs: Seq<SegmentV>, a: int, b: int) -> bool {
    &&& forall|m: int| a <= m < b ==> #[trigger] competed_for(segs[m])
    &&& forall|m: int| a < m < b ==> #[trigger] begins_at_end(segs, m)
}

/// Whether segment `m` begins where the one before it ends.
pub open spec fn begins_at_end(segs: Seq<SegmentV>, m: int) -> bool {
    segs[m].start == segs[m - 1].end
}

/// Whether segment `i` is part of a competition that lasts `min` or longer.
pub open spec fn long_competition(segs: Seq<SegmentV>, i: int, min: int) -> bool {
    exists|a: int, b: int|
        0 <= a <= i && i < b <= segs.len() && #[trigger] one_stretch(segs, a, b) && segs[b - 1].end
            - segs[a].start >= min
}

proof fn run_starts(segs: Seq<SegmentV>, k: int)
    requires
        0 <= k < segs.len(),
        contested(segs[k]),
    ensures
        0 <= run_start(segs, k) <= k,
        !continues(segs, run_start(segs, k)),
        forall|m: int| run_start(segs, k) < m <= k ==> #[trigger] continues(segs, m),
    decreases k,
{
    if continues(segs, k) {
        run_starts(segs, k - 1);
    }
}

proof fn run_ends(segs: Seq<SegmentV>, k: int)
    requires
        0 <= k < segs.len(),
        contested(segs[k]),
    ensures
        k < run_end(segs, k) <= segs.len(),
        !continues(segs, run_end(segs, k)),
        forall|m: int| k < m < run_end(segs, k) ==> #[trigger] continues(segs, m),
    decreases segs.len() - k,
{
    if continues(segs, k + 1) {
        run_ends(segs, k + 1);
    }
}

proof fn stretch_length(segs: Seq<SegmentV>, a: int, b: int)
    requires
        0 <= a < b <= segs.len(),
        forall|m: int| a < m < b ==> #[trigger] continues(segs, m),
    ensures
        total(segs, a, b) == segs[b - 1].end - segs[a].start,
    decreases b - a,
{
    if a + 1 < b {
        assert(continues(segs, b - 1));
        stretch_length(segs, a, b - 1);
    } else {
        assert(total(segs, a, b - 1) == 0);
    }
}

proof fn stretch_within(segs: Seq<SegmentV>, rs: int, re: int, a: int, b: int)
    requires
        0 <= rs <= a < b <= re <= segs.len(),
        forall|m: int| rs < m < re ==> #[trigger] continues(segs, m),
        forall|m: int| 0 <= m < segs.len() ==> (#[trigger] segs[m]).start <= segs[m].end,
    ensures
        segs[re - 1].end - segs[rs].start >= segs[b - 1].end - segs[a].start,
    decreases (re - b) + (a - rs),
{
    if rs < a {
        assert(continues(segs, rs + 1));
        assert(segs[rs].start <= segs[rs].end);
        stretch_within(segs, rs + 1, re, a, b);
    } else if b < re {
        assert(continues(segs, re - 1));
        assert(segs[re - 1].start <= segs[re - 1].end);
        stretch_within(segs, rs, re - 1, a, b);
    }
}

proof fn competing_is_contested(seg: SegmentV)
    ensures
        competed_for(seg) == contested(seg),
{
}

proof fn short_runs_are_short(segs: Seq<SegmentV>, k: int, min: int)
    requires
        0 <= k < segs.len(),
        forall|m: int| 0 <= m < segs.len() ==> (#[trigger] segs[m]).start <= segs[m].end,
    ensures
        long_competition(segs, k, min) <==> contested(segs[k]) && !short_run(segs, k, min),
{
    let rs = run_start(segs, k);
    let re = run_end(segs, k);
    competing_is_contested(segs[k]);
    if contested(segs[k]) {
        run_starts(segs, k);
        run_ends(segs, k);
        stretch_length(segs, rs, re);
        if !short_run(segs, k, min) {
            run_is_a_stretch(segs, k, rs, re);
        }
    }
    if long_competition(segs, k, min) {
        let (a, b) = choose|a: int, b: int|
            0 <= a <= k && k < b <= segs.len() && #[trigger] one_stretch(segs, a, b) && segs[b
                - 1].end - segs[a].start >= min;
        assert(competed_for(segs[k]));
        if a < rs {
            assert(competed_for(segs[rs]) && competed_for(segs[rs - 1]));
            assert(begins_at_end(segs, rs));
            competing_is_contested(segs[rs]);
            competing_is_contested(segs[rs - 1]);
            assert(continues(segs, rs));
        }
        if b > re {
            assert(competed_for(segs[re]) && competed_for(segs[re - 1]));
            assert(begins_at_end(segs, re));
            competing_is_contested(segs[re]);
            competing_is_contested(segs[re - 1]);
            assert(continues(segs, re));
        }
        stretch_within(segs, rs, re, a, b);
    }
}

proof fn run_is_a_stretch(segs: Seq<SegmentV>, k: int, rs: int, re: int)
    requires
        0 <= rs <= k < re <= segs.len(),
        contested(segs[k]),
        forall|m: int| rs < m < re ==> #[trigger] continues(segs, m),
    ensures
        one_stretch(segs, rs, re),
{
    assert forall|m: int| rs <= m < re implies #[trigger] competed_for(segs[m]) by {
        competing_is_contested(segs[m]);
        if m > rs {
            assert(continues(segs, m));
        } else if m < k {
            assert(continues(segs, m + 1));
        }
    }
    assert forall|m: int| rs < m < re implies #[trigger] begins_at_end(segs, m) by {
        assert(continues(segs, m));
    }
}

/// What a day decides is kept of a segment through the last steps.
proof fn day_after_deciding(input: InputV, i: int)
    requires
        0 <= i < computed(input).len(),
    ensures
        ({
            let cut = cut_and_excluded(input);
            let seg = classified(cut, input.min_contention)[i];
            let roles = roles_of(input.hostname_to_uuid);
            let out = settled(seg, input.decisions, roles);
            &&& computed(input)[i] == with_foreground(out)
            &&& undecided(seg)
            &&& seg.foreground == usize::MAX
            &&& seg.active == cut[i].active
            &&& seg.active.len() > 0
            &&& computed(input).len() == cut.len()
        }),
{
    crate::day_laws::cut_is_blank(input, i);
    something_is_active(input);
    assert(cut_and_excluded(input)[i].active.len() > 0);
}

/// Every segment of a day goes by the decision that prevails for it, and shows what that decision
/// says: whichever it is, an answer or a rule, what it ignores is ignored, what it relabels bears
/// its label, and what it picks is in the foreground. Where no decision prevails, none is said to
/// have.
pub proof fn every_decision_is_carried_out(input: InputV, i: int)
    requires
        0 <= i < computed(input).len(),
        computed(input)[i].active.len() <= usize::MAX,
    ensures
        ({
            let seg = computed(input)[i];
            let roles = roles_of(input.hostname_to_uuid);
            &&& seg.resolved_by is Some ==> exists|d: DecisionV| #[trigger]
                goes_by(seg, input.decisions, roles, d) && carried_out(seg, d, roles)
            &&& seg.resolved_by is None ==> undecided(seg) && goes_by_none(
                seg,
                input.decisions,
                roles,
            )
        }),
{
    let roles = roles_of(input.hostname_to_uuid);
    let ds = input.decisions;
    let seg = classified(cut_and_excluded(input), input.min_contention)[i];
    let out = settled(seg, ds, roles);
    let day = computed(input)[i];
    day_after_deciding(input, i);
    a_decision_that_prevails_is_carried_out(seg, ds, roles);
    later_steps_keep(input, i);
    if out.resolved_by is Some {
        let d = choose|d: DecisionV| #[trigger]
            goes_by(seg, ds, roles, d) && carried_out(out, d, roles);
        same_span_goes_by(seg, day, ds, roles, d);
        assert(carried_out(day, d, roles));
    } else {
        same_span_goes_by_none(seg, day, ds, roles);
    }
}

proof fn same_span_goes_by(
    a: SegmentV,
    b: SegmentV,
    ds: Seq<DecisionV>,
    roles: Map<Seq<char>, Seq<char>>,
    d: DecisionV,
)
    requires
        goes_by(a, ds, roles, d),
        a.start == b.start,
        a.end == b.end,
        a.active == b.active,
    ensures
        goes_by(b, ds, roles, d),
{
    assert forall|j: int| 0 <= j < ds.len() implies made_for(#[trigger] ds[j], a) == made_for(
        ds[j],
        b,
    ) by {}
    assert(made_for(d, a) == made_for(d, b));
    assert(prevails_among(a, ds, roles, d) == prevails_among(b, ds, roles, d));
}

proof fn same_span_goes_by_none(
    a: SegmentV,
    b: SegmentV,
    ds: Seq<DecisionV>,
    roles: Map<Seq<char>, Seq<char>>,
)
    requires
        goes_by_none(a, ds, roles),
        a.start == b.start,
        a.end == b.end,
        a.active == b.active,
    ensures
        goes_by_none(b, ds, roles),
{
    assert forall|j: int| 0 <= j < ds.len() implies made_for(#[trigger] ds[j], a) == made_for(
        ds[j],
        b,
    ) by {}
    assert forall|j: int| 0 <= j < ds.len() implies prevails_among(a, ds, roles, #[trigger] ds[j])
        == prevails_among(b, ds, roles, ds[j]) by {}
}

/// A segment of a day is open exactly where two devices competed, in a stretch of competition that
/// lasted at least as long as is asked about, and no decision settled it. What two devices competed
/// for in a shorter stretch is marked as absorbed.
pub proof fn long_competition_is_asked_about(input: InputV, i: int)
    requires
        0 <= i < computed(input).len(),
    ensures
        ({
            let day = computed(input);
            let long = long_competition(day, i, input.min_contention);
            &&& day[i].unresolved <==> long && day[i].resolved_by is None
            &&& day[i].unresolved <==> day[i].state == SegmentState::Contended
            &&& day[i].absorbed_short_contention <==> competed_for(day[i]) && !long
        }),
{
    let day = computed(input);
    let cut = cut_and_excluded(input);
    let min = input.min_contention;
    let seg = classified(cut, min)[i];
    let roles = roles_of(input.hostname_to_uuid);
    day_after_deciding(input, i);
    a_decision_that_prevails_is_carried_out(seg, input.decisions, roles);
    assert forall|m: int| 0 <= m < cut.len() implies (#[trigger] cut[m]).start <= cut[m].end
        && cut[m].start == day[m].start && cut[m].end == day[m].end && cut[m].active
        == day[m].active && cut[m].not_counted == day[m].not_counted by {
        later_steps_keep(input, m);
        crate::day_laws::segments_last(input, m);
    }
    short_runs_are_short(cut, i, min);
    if long_competition(cut, i, min) {
        same_competition(cut, day, i, min);
    }
    if long_competition(day, i, min) {
        same_competition(day, cut, i, min);
    }
    competing_is_contested(cut[i]);
    competing_is_contested(day[i]);
    crate::day_laws::cut_is_blank(input, i);
}

proof fn same_competition(a: Seq<SegmentV>, b: Seq<SegmentV>, i: int, min: int)
    requires
        a.len() == b.len(),
        forall|m: int|
            0 <= m < a.len() ==> (#[trigger] a[m]).start == b[m].start && a[m].end == b[m].end
                && a[m].active == b[m].active && a[m].not_counted == b[m].not_counted,
        long_competition(a, i, min),
    ensures
        long_competition(b, i, min),
{
    let (x, y) = choose|x: int, y: int|
        0 <= x <= i && i < y <= a.len() && #[trigger] one_stretch(a, x, y) && a[y - 1].end
            - a[x].start >= min;
    assert forall|m: int| x <= m < y implies #[trigger] competed_for(b[m]) by {
        assert(competed_for(a[m]));
        assert(a[m].active == b[m].active);
    }
    assert forall|m: int| x < m < y implies #[trigger] begins_at_end(b, m) by {
        assert(begins_at_end(a, m));
        assert(a[m].start == b[m].start);
        assert(a[m - 1].end == b[m - 1].end);
    }
    assert(one_stretch(b, x, y));
    assert(a[x].start == b[x].start && a[y - 1].end == b[y - 1].end);
}

/// Whether slice `x` counts before `y` where nobody has said otherwise: what was recorded for longer
/// does; of two equally long the lower device, then the lower bucket, then the lower data.
pub open spec fn counts_before(x: SliceV, y: SliceV) -> bool {
    let (p, q) = (x.source_end - x.source_start, y.source_end - y.source_start);
    ||| p > q
    ||| p == q && text::before(x.device, y.device)
    ||| p == q && x.device == y.device && text::before(x.bucket_id, y.bucket_id)
    ||| p == q && x.device == y.device && x.bucket_id == y.bucket_id && text::before(
        x.data.text,
        y.data.text,
    )
}

/// Every segment of a day has one of its slices in the foreground, and unless a decision picked it
/// no other slice counts before it.
pub proof fn what_ran_longest_counts(input: InputV, i: int)
    requires
        0 <= i < computed(input).len(),
        computed(input)[i].active.len() <= usize::MAX,
    ensures
        ({
            let seg = computed(input)[i];
            let roles = roles_of(input.hostname_to_uuid);
            &&& 0 <= seg.foreground < seg.active.len()
            &&& (forall|k: int|
                0 <= k < seg.active.len() ==> !counts_before(
                    #[trigger] seg.active[k],
                    seg.active[seg.foreground],
                )) || exists|d: DecisionV| #[trigger]
                goes_by(seg, input.decisions, roles, d) && carried_out(seg, d, roles)
                    && d.resolution.outcome == "foreground"@
        }),
{
    let roles = roles_of(input.hostname_to_uuid);
    let ds = input.decisions;
    let seg = classified(cut_and_excluded(input), input.min_contention)[i];
    let out = settled(seg, ds, roles);
    let day = computed(input)[i];
    day_after_deciding(input, i);
    a_decision_that_prevails_is_carried_out(seg, ds, roles);
    later_steps_keep(input, i);
    crate::pipeline::one_activity_counts_at_any_instant(input);
    let n = day.active.len() as int;
    winner_is_best(day.active, n);
    if out.foreground == usize::MAX {
        assert(day.foreground == winner(day.active, n));
        assert forall|k: int| 0 <= k < n implies !counts_before(
            #[trigger] day.active[k],
            day.active[day.foreground],
        ) by {
            assert(!crate::attribute::outranks(day.active[k], day.active[winner(day.active, n)]));
        }
    } else {
        let d = choose|d: DecisionV| #[trigger]
            goes_by(seg, ds, roles, d) && carried_out(out, d, roles) && (d.resolution.outcome
                != "foreground"@ ==> out.foreground == seg.foreground);
        same_span_goes_by(seg, day, ds, roles, d);
        assert(carried_out(day, d, roles));
    }
}

/// Whether these participants are the competitors of these slices: every slice's device, by its
/// role, with its app, each once, and no other, without a category.
pub open spec fn are_the_competitors(
    ps: Seq<ParticipantV>,
    slices: Seq<SliceV>,
    roles: Map<Seq<char>, Seq<char>>,
) -> bool {
    &&& forall|k: int| 0 <= k < slices.len() ==> #[trigger] has_competitor(ps, slices[k], roles)
    &&& forall|p: int|
        0 <= p < ps.len() ==> (#[trigger] ps[p]).category.len() == 0 && competes_in(
            slices,
            ps[p],
            roles,
        )
    &&& forall|p: int, q: int|
        0 <= p < q < ps.len() ==> !((#[trigger] ps[p]).device_role == (
        #[trigger] ps[q]).device_role && ps[p].app == ps[q].app)
}

/// Whether one of the participants names a slice.
pub open spec fn has_competitor(
    ps: Seq<ParticipantV>,
    s: SliceV,
    roles: Map<Seq<char>, Seq<char>>,
) -> bool {
    exists|p: int| 0 <= p < ps.len() && competitor_is(#[trigger] ps[p], s, roles)
}

/// Whether a participant names one of the slices.
pub open spec fn competes_in(
    slices: Seq<SliceV>,
    p: ParticipantV,
    roles: Map<Seq<char>, Seq<char>>,
) -> bool {
    exists|k: int| 0 <= k < slices.len() && competitor_is(p, #[trigger] slices[k], roles)
}

/// Whether a participant names a slice: the device by its role, or by its uuid where it has none,
/// and the app.
pub open spec fn competitor_is(
    p: ParticipantV,
    s: SliceV,
    roles: Map<Seq<char>, Seq<char>>,
) -> bool {
    &&& p.app == label(s.data)
    &&& p.device_role == if roles.contains_key(s.device) {
        roles[s.device]
    } else {
        s.device
    }
}

proof fn cast_holds(slices: Seq<SliceV>, roles: Map<Seq<char>, Seq<char>>, n: int)
    requires
        0 <= n <= slices.len(),
    ensures
        are_the_competitors(cast(slices, roles, n), slices.take(n), roles),
    decreases n,
{
    if n > 0 {
        cast_holds(slices, roles, n - 1);
        let rest = cast(slices, roles, n - 1);
        let all = cast(slices, roles, n);
        let before = slices.take(n - 1);
        let now = slices.take(n);
        let s = slices[n - 1];
        assert forall|k: int| 0 <= k < now.len() implies #[trigger] has_competitor(
            all,
            now[k],
            roles,
        ) by {
            if k < n - 1 {
                assert(now[k] == before[k]);
                assert(has_competitor(rest, before[k], roles));
                let p = choose|p: int|
                    0 <= p < rest.len() && competitor_is(
                        #[trigger] rest[p],
                        before[k],
                        roles,
                    );
                assert(all[p] == rest[p]);
            } else if all.len() == rest.len() {
                let p = choose|p: int|
                    0 <= p < rest.len() && (#[trigger] rest[p]).device_role == role(
                        s.device,
                        roles,
                    ) && rest[p].app == label(s.data);
                assert(competitor_is(all[p], now[k], roles));
            } else {
                assert(competitor_is(all[rest.len() as int], now[k], roles));
            }
        }
        assert forall|p: int| 0 <= p < all.len() implies (#[trigger] all[p]).category.len() == 0
            && competes_in(now, all[p], roles) by {
            if p < rest.len() {
                assert(all[p] == rest[p]);
                assert(competes_in(before, rest[p], roles));
                let k = choose|k: int|
                    0 <= k < before.len() && competitor_is(rest[p], #[trigger] before[k], roles);
                assert(now[k] == before[k]);
            } else {
                assert(now[n - 1] == s);
                assert(competitor_is(all[p], now[n - 1], roles));
            }
        }
        assert forall|p: int, q: int| 0 <= p < q < all.len() implies !((
        #[trigger] all[p]).device_role == (#[trigger] all[q]).device_role && all[p].app
            == all[q].app) by {
            assert(all[p] == rest[p]);
            if q < rest.len() {
                assert(all[q] == rest[q]);
            }
        }
    }
}

proof fn competitors_have_no_duplicates(
    ps: Seq<ParticipantV>,
    slices: Seq<SliceV>,
    roles: Map<Seq<char>, Seq<char>>,
)
    requires
        are_the_competitors(ps, slices, roles),
    ensures
        casts(ps).no_duplicates(),
{
    assert forall|p: int, q: int|
        0 <= p < casts(ps).len() && 0 <= q < casts(ps).len() && p != q implies casts(ps)[p]
        != casts(ps)[q] by {
        if p < q {
            assert(!(ps[p].device_role == ps[q].device_role && ps[p].app == ps[q].app));
        } else {
            assert(!(ps[q].device_role == ps[p].device_role && ps[q].app == ps[p].app));
        }
    }
}

proof fn competitors_within(
    a: Seq<ParticipantV>,
    b: Seq<ParticipantV>,
    slices: Seq<SliceV>,
    roles: Map<Seq<char>, Seq<char>>,
    c: CastV,
)
    requires
        are_the_competitors(a, slices, roles),
        are_the_competitors(b, slices, roles),
        casts(a).contains(c),
    ensures
        casts(b).contains(c),
{
    let p = choose|p: int| 0 <= p < casts(a).len() && casts(a)[p] == c;
    assert(competes_in(slices, a[p], roles));
    let k = choose|k: int|
        0 <= k < slices.len() && competitor_is(a[p], #[trigger] slices[k], roles);
    assert(has_competitor(b, slices[k], roles));
    let q = choose|q: int| 0 <= q < b.len() && competitor_is(#[trigger] b[q], slices[k], roles);
    assert(competes_in(slices, b[q], roles));
    assert(b[q].category =~= a[p].category);
    assert(casts(b)[q] == c);
}

/// The key that rules are looked up by is that of the competitors of a segment, however they are
/// listed.
pub proof fn a_cast_key_names_the_competitors(
    slices: Seq<SliceV>,
    roles: Map<Seq<char>, Seq<char>>,
    ps: Seq<ParticipantV>,
)
    requires
        are_the_competitors(ps, slices, roles),
    ensures
        cast_key(slices, roles) == key_of(ps),
{
    let n = slices.len() as int;
    let own = cast(slices, roles, n);
    cast_holds(slices, roles, n);
    assert(slices.take(n) =~= slices);
    competitors_have_no_duplicates(own, slices, roles);
    competitors_have_no_duplicates(ps, slices, roles);
    casts(own).lemma_multiset_has_no_duplicates();
    casts(ps).lemma_multiset_has_no_duplicates();
    broadcast use vstd::seq_lib::group_to_multiset_ensures;

    assert forall|c: CastV| #[trigger] casts(own).to_multiset().count(c) == casts(
        ps,
    ).to_multiset().count(c) by {
        if casts(own).contains(c) {
            competitors_within(own, ps, slices, roles, c);
        }
        if casts(ps).contains(c) {
            competitors_within(ps, own, slices, roles, c);
        }
    }
    assert(casts(own).to_multiset() =~= casts(ps).to_multiset());
    the_same_cast_has_the_same_key(own, ps);
    arranged_keeps::<Participant>(own);
    let sorted = arranged::<Participant>(own);
    sorted_casts(own, sorted);
    the_same_cast_has_the_same_key(sorted, own);
}

spec fn one_cast() -> spec_fn(ParticipantV) -> Seq<CastV> {
    |p: ParticipantV| seq![cast_of(p)]
}

proof fn casts_flat(ps: Seq<ParticipantV>, n: int)
    requires
        0 <= n <= ps.len(),
    ensures
        list::flat(ps, one_cast(), n) == casts(ps).take(n),
    decreases n,
{
    if n > 0 {
        casts_flat(ps, n - 1);
        assert(list::flat(ps, one_cast(), n) =~= casts(ps).take(n));
    } else {
        assert(list::flat(ps, one_cast(), n) =~= casts(ps).take(n));
    }
}

proof fn sorted_casts(a: Seq<ParticipantV>, b: Seq<ParticipantV>)
    requires
        a.to_multiset() == b.to_multiset(),
    ensures
        casts(a).to_multiset() == casts(b).to_multiset(),
{
    list::flat_permutes(a, b, one_cast());
    casts_flat(a, a.len() as int);
    casts_flat(b, b.len() as int);
    assert(casts(a).take(a.len() as int) =~= casts(a));
    assert(casts(b).take(b.len() as int) =~= casts(b));
}

/// The role of a device is the first of the names it is known by, in the order of texts; a device
/// has none just where there is no first.
pub proof fn a_role_is_the_first_name(hosts: Map<Seq<char>, Seq<char>>, uuid: Seq<char>)
    ensures
        roles_of(hosts).contains_key(uuid) ==> hosts.contains_pair(roles_of(hosts)[uuid], uuid)
            && forall|other: Seq<char>| #[trigger]
            hosts.contains_pair(other, uuid) ==> !text::before(other, roles_of(hosts)[uuid]),
        !roles_of(hosts).contains_key(uuid) ==> forall|host: Seq<char>| #[trigger]
            hosts.contains_pair(host, uuid) ==> exists|other: Seq<char>| #[trigger]
                hosts.contains_pair(other, uuid) && text::before(other, host),
{
    if roles_of(hosts).contains_key(uuid) {
        let h = roles_of(hosts)[uuid];
        assert(first_name(hosts, uuid, h));
        assert forall|other: Seq<char>| #[trigger]
            hosts.contains_pair(other, uuid) implies !text::before(other, h) by {
            assert(hosts[other] == uuid);
        }
    } else {
        assert forall|host: Seq<char>| #[trigger] hosts.contains_pair(host, uuid) implies exists|
            other: Seq<char>,
        | #[trigger]
            hosts.contains_pair(other, uuid) && text::before(other, host) by {
            assert(!first_name(hosts, uuid, host));
            let other = choose|other: Seq<char>|
                #![trigger hosts[other]]
                hosts.contains_key(other) && hosts[other] == uuid && text::before(other, host);
            assert(hosts.contains_pair(other, uuid));
        }
    }
}

/// Deciding and attributing leave everything else of a segment as it was cut.
pub proof fn decisions_leave_the_rest(input: InputV, i: int)
    requires
        0 <= i < computed(input).len(),
    ensures
        ({
            let (seg, cut) = (computed(input)[i], cut_and_excluded(input)[i]);
            &&& seg.foreground_shares == cut.foreground_shares
            &&& seg.absorbed_labels == cut.absorbed_labels
            &&& seg.smoothed_seconds == cut.smoothed_seconds
            &&& seg.bridged_ms == cut.bridged_ms
        }),
{
    day_after_deciding(input, i);
}

} // verus!
