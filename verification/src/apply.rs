//! Apply decisions: the step that turns an owner's answer into the timeline everyone sees.
//!
//! It works on the atomic segments, in two passes. First, a decision for one window settles the
//! segments that the window covers, where it can act on them. Second, a rule settles the segments
//! whose competitors are those of its signature, where it can act on them. A one-off answer
//! therefore overrides a standing rule without deleting it, and a decision with an outcome that is
//! not known overrides nothing.
//!
//! A windowed decision answers a stretch of time, not a cast of competitors, so its signature is
//! not compared. But a pick names one competitor, and where that competitor was not running the
//! owner has answered nothing: crediting it with time no watcher recorded would be wrong.

use vstd::prelude::*;

use crate::decision::{
    beats, beats_is_total_order, bounds, key_of, rule, wins, Decision, DecisionV, ForegroundPick,
    Participant, ParticipantV, PickV, Signature, OUTCOME_FOREGROUND, OUTCOME_IGNORE,
    OUTCOME_RELABEL,
};
use crate::list;
use crate::model::{activity_label, label, ActiveSlice, Segment, SegmentState, SegmentV, SliceV};
use crate::order::arranged;
use crate::text;
use crate::textmap::TextMap;
use crate::time::{stamp_before, stamp_of, Timestamp};

verus! {

/// The role name a signature uses for a device: its hostname where one is known, else its uuid.
pub open spec fn role(uuid: Seq<char>, roles: Map<Seq<char>, Seq<char>>) -> Seq<char> {
    if roles.contains_key(uuid) {
        roles[uuid]
    } else {
        uuid
    }
}

/// The first slice from `i` on that is the picked app on the picked device.
pub open spec fn slot_by_uuid(slices: Seq<SliceV>, pick: PickV, i: int) -> Option<int>
    decreases slices.len() - i,
{
    if i < 0 || i >= slices.len() {
        None
    } else if slices[i].device == pick.device_uuid && label(slices[i].data) == pick.app {
        Some(i)
    } else {
        slot_by_uuid(slices, pick, i + 1)
    }
}

/// The first slice from `i` on that is the picked app on a device of the picked role.
pub open spec fn slot_by_role(
    slices: Seq<SliceV>,
    pick: PickV,
    roles: Map<Seq<char>, Seq<char>>,
    i: int,
) -> Option<int>
    decreases slices.len() - i,
{
    if i < 0 || i >= slices.len() {
        None
    } else if role(slices[i].device, roles) == pick.device_role && label(slices[i].data)
        == pick.app {
        Some(i)
    } else {
        slot_by_role(slices, pick, roles, i + 1)
    }
}

/// Where the picked activity stands among the slices: by uuid first, and by role only for a device
/// that is not known at all. A known device that is not there is not there.
pub open spec fn slot(slices: Seq<SliceV>, pick: PickV, roles: Map<Seq<char>, Seq<char>>) -> Option<
    int,
> {
    match slot_by_uuid(slices, pick, 0) {
        Some(i) => Some(i),
        None => if roles.contains_key(pick.device_uuid) {
            None
        } else {
            slot_by_role(slices, pick, roles, 0)
        },
    }
}

/// Whether a decision has anything to say about these slices. An outcome that is not known says
/// nothing.
pub open spec fn can_act(
    slices: Seq<SliceV>,
    d: DecisionV,
    roles: Map<Seq<char>, Seq<char>>,
) -> bool {
    if d.resolution.outcome == OUTCOME_FOREGROUND@ {
        match d.resolution.foreground {
            Some(pick) => slot(slices, pick, roles) is Some,
            None => false,
        }
    } else {
        d.resolution.outcome == OUTCOME_RELABEL@ || d.resolution.outcome == OUTCOME_IGNORE@
    }
}

/// Whether the window of a decision covers the span from `start` to `end`.
pub open spec fn covers(d: DecisionV, start: int, end: int) -> bool {
    match bounds(d) {
        Some(w) => !stamp_before(stamp_of(start), w.0) && !stamp_before(w.1, stamp_of(end)),
        None => false,
    }
}

/// The decisions for one window that answer a segment.
pub open spec fn answers(seg: SegmentV, roles: Map<Seq<char>, Seq<char>>) -> spec_fn(
    DecisionV,
) -> bool {
    |d: DecisionV| !rule(d) && covers(d, seg.start, seg.end) && can_act(seg.active, d, roles)
}

/// Whether a decision's outcome is one that is understood.
pub open spec fn known_outcome(d: DecisionV) -> bool {
    d.resolution.outcome == OUTCOME_FOREGROUND@ || d.resolution.outcome == OUTCOME_RELABEL@
        || d.resolution.outcome == OUTCOME_IGNORE@
}

/// The rules for one cast of competitors. One whose outcome is not understood takes no precedence
/// over one that is.
pub open spec fn rules_for(key: Seq<char>) -> spec_fn(DecisionV) -> bool {
    |d: DecisionV| rule(d) && known_outcome(d) && key_of(d.signature) == key
}

/// Among those of the first `n` decisions that `p` admits, the one that prevails.
pub open spec fn best(ds: Seq<DecisionV>, p: spec_fn(DecisionV) -> bool, n: int) -> Option<int>
    decreases n,
{
    if n <= 0 {
        None
    } else {
        let held = best(ds, p, n - 1);
        if !p(ds[n - 1]) {
            held
        } else {
            match held {
                Some(h) => if beats(ds[n - 1], ds[h]) {
                    Some(n - 1)
                } else {
                    held
                },
                None => Some(n - 1),
            }
        }
    }
}

/// The competitors among the first `n` slices, as a signature names them. What one device shows
/// twice is one competitor.
pub open spec fn cast(slices: Seq<SliceV>, roles: Map<Seq<char>, Seq<char>>, n: int) -> Seq<
    ParticipantV,
>
    decreases n,
{
    if n <= 0 {
        Seq::empty()
    } else {
        let rest = cast(slices, roles, n - 1);
        let p = ParticipantV {
            device_role: role(slices[n - 1].device, roles),
            device_uuid: slices[n - 1].device,
            app: label(slices[n - 1].data),
            category: Seq::empty(),
        };
        if listed(rest, p) {
            rest
        } else {
            rest.push(p)
        }
    }
}

/// Whether a competitor with the same role and app is listed.
pub open spec fn listed(participants: Seq<ParticipantV>, p: ParticipantV) -> bool {
    exists|i: int|
        0 <= i < participants.len() && (#[trigger] participants[i]).device_role == p.device_role
            && participants[i].app == p.app
}

/// The match key of a segment's competitors, each named by its role.
pub open spec fn cast_key(slices: Seq<SliceV>, roles: Map<Seq<char>, Seq<char>>) -> Seq<char> {
    key_of(arranged::<Participant>(cast(slices, roles, slices.len() as int)))
}

/// The rule that prevails for a segment's competitors. Rules recorded before hostnames were known
/// name devices by their uuid, so that form is looked up where none names the roles.
pub open spec fn rule_for(
    ds: Seq<DecisionV>,
    slices: Seq<SliceV>,
    roles: Map<Seq<char>, Seq<char>>,
) -> Option<int> {
    match best(ds, rules_for(cast_key(slices, roles)), ds.len() as int) {
        Some(i) => Some(i),
        None => best(ds, rules_for(cast_key(slices, Map::empty())), ds.len() as int),
    }
}

/// A segment with one decision carried out on it.
pub open spec fn resolved(
    seg: SegmentV,
    d: DecisionV,
    by_rule: bool,
    roles: Map<Seq<char>, Seq<char>>,
) -> SegmentV {
    let settled = SegmentV {
        state: SegmentState::Settled,
        resolved_by: Some(d.id),
        auto_resolved: by_rule,
        deliberate_background: d.resolution.deliberate_background,
        ..seg
    };
    if d.resolution.outcome == OUTCOME_FOREGROUND@ {
        SegmentV { foreground: slot(seg.active, d.resolution.foreground->0, roles)->0, ..settled }
    } else if d.resolution.outcome == OUTCOME_RELABEL@ {
        SegmentV { label_override: d.resolution.label, ..settled }
    } else {
        SegmentV { ignored: true, ..settled }
    }
}

/// A segment with the decision that settles it carried out, if one does. A rule that prevails and
/// cannot act on the segment, for want of its pick, leaves it open: no lesser rule stands in.
pub open spec fn settled(
    seg: SegmentV,
    ds: Seq<DecisionV>,
    roles: Map<Seq<char>, Seq<char>>,
) -> SegmentV {
    match best(ds, answers(seg, roles), ds.len() as int) {
        Some(i) => resolved(seg, ds[i], false, roles),
        None => match rule_for(ds, seg.active, roles) {
            Some(i) => if can_act(seg.active, ds[i], roles) {
                resolved(seg, ds[i], true, roles)
            } else {
                seg
            },
            None => seg,
        },
    }
}

/// The segments with every decision carried out.
pub open spec fn decided(
    segs: Seq<SegmentV>,
    ds: Seq<DecisionV>,
    roles: Map<Seq<char>, Seq<char>>,
) -> Seq<SegmentV> {
    Seq::new(segs.len(), |i: int| settled(segs[i], ds, roles))
}

/// The role name a signature uses for a device.
pub fn role_of(uuid: &str, roles: &TextMap<String>) -> (r: String)
    ensures
        r@ == role(uuid@, roles.deep_view()),
{
    match roles.get(uuid) {
        Some(name) => name.clone(),
        None => uuid.to_owned(),
    }
}

fn pick_index(slices: &Vec<ActiveSlice>, pick: &ForegroundPick, roles: &TextMap<String>) -> (r:
    Option<usize>)
    ensures
        match r {
            Some(i) => i < slices.len() && slot(
                slices.deep_view(),
                pick.deep_view(),
                roles.deep_view(),
            ) == Some(i as int),
            None => slot(slices.deep_view(), pick.deep_view(), roles.deep_view()) is None,
        },
{
    let ghost sv = slices.deep_view();
    let ghost pv = pick.deep_view();
    let mut i: usize = 0;
    while i < slices.len()
        invariant
            i <= slices.len(),
            sv == slices.deep_view(),
            pv == pick.deep_view(),
            slot_by_uuid(sv, pv, 0) == slot_by_uuid(sv, pv, i as int),
        decreases slices.len() - i,
    {
        assert(sv[i as int] == slices@[i as int].deep_view());
        if slices[i].device == pick.device_uuid && activity_label(&slices[i].data) == pick.app {
            return Some(i);
        }
        i = i + 1;
    }
    if roles.contains_key(pick.device_uuid.as_str()) {
        return None;
    }
    let mut i: usize = 0;
    while i < slices.len()
        invariant
            i <= slices.len(),
            sv == slices.deep_view(),
            pv == pick.deep_view(),
            slot_by_uuid(sv, pv, 0) is None,
            !roles.deep_view().contains_key(pv.device_uuid),
            slot_by_role(sv, pv, roles.deep_view(), 0) == slot_by_role(
                sv,
                pv,
                roles.deep_view(),
                i as int,
            ),
        decreases slices.len() - i,
    {
        assert(sv[i as int] == slices@[i as int].deep_view());
        if role_of(slices[i].device.as_str(), roles) == pick.device_role && activity_label(
            &slices[i].data,
        ) == pick.app {
            return Some(i);
        }
        i = i + 1;
    }
    None
}

fn can_act_on(slices: &Vec<ActiveSlice>, d: &Decision, roles: &TextMap<String>) -> (r: bool)
    ensures
        r == can_act(slices.deep_view(), d.deep_view(), roles.deep_view()),
{
    let outcome = d.resolution.outcome.as_str();
    if text::same(outcome, OUTCOME_FOREGROUND) {
        match &d.resolution.foreground {
            Some(pick) => pick_index(slices, pick, roles).is_some(),
            None => false,
        }
    } else {
        text::same(outcome, OUTCOME_RELABEL) || text::same(outcome, OUTCOME_IGNORE)
    }
}

/// Whether a decision for one window answers this segment.
fn is_answer(seg: &Segment, d: &Decision, roles: &TextMap<String>) -> (r: bool)
    ensures
        r == answers(seg.deep_view(), roles.deep_view())(d.deep_view()),
{
    if d.is_rule() {
        return false;
    }
    match d.window_bounds() {
        Some(w) => !Timestamp::of(seg.start).is_before(w.0) && !w.1.is_before(
            Timestamp::of(seg.end),
        ) && can_act_on(&seg.active, d, roles),
        None => false,
    }
}

fn signature_key(slices: &Vec<ActiveSlice>, roles: &TextMap<String>) -> (r: String)
    ensures
        r@ == cast_key(slices.deep_view(), roles.deep_view()),
{
    let ghost sv = slices.deep_view();
    let mut participants: Vec<Participant> = Vec::new();
    assert(participants.deep_view() =~= Seq::empty());
    let mut i: usize = 0;
    while i < slices.len()
        invariant
            i <= slices.len(),
            sv == slices.deep_view(),
            participants.deep_view() == cast(sv, roles.deep_view(), i as int),
        decreases slices.len() - i,
    {
        let slice = &slices[i];
        assert(sv[i as int] == slice.deep_view());
        let p = Participant {
            device_role: role_of(slice.device.as_str(), roles),
            device_uuid: slice.device.clone(),
            app: activity_label(&slice.data),
            category: String::new(),
        };
        assert(p.deep_view() =~= ParticipantV {
            device_role: role(sv[i as int].device, roles.deep_view()),
            device_uuid: sv[i as int].device,
            app: label(sv[i as int].data),
            category: Seq::empty(),
        });
        let ghost rest = participants.deep_view();
        let mut known: bool = false;
        let mut k: usize = 0;
        while k < participants.len()
            invariant
                k <= participants.len(),
                rest == participants.deep_view(),
                known <==> exists|j: int|
                    0 <= j < k && (#[trigger] rest[j]).device_role == p.device_role@ && rest[j].app
                        == p.app@,
            decreases participants.len() - k,
        {
            assert(rest[k as int] == participants@[k as int].deep_view());
            if participants[k].device_role == p.device_role && participants[k].app == p.app {
                known = true;
            }
            k = k + 1;
        }
        assert(rest.len() == participants.len());
        assert(known == listed(rest, p.deep_view()));
        if !known {
            list::push(&mut participants, p);
        }
        i = i + 1;
    }
    assert(sv.len() == slices.len());
    Signature::of(participants).match_key()
}

/// Whether a decision's outcome is one that is understood.
fn is_known(d: &Decision) -> (r: bool)
    ensures
        r == known_outcome(d.deep_view()),
{
    let outcome = d.resolution.outcome.as_str();
    text::same(outcome, OUTCOME_FOREGROUND) || text::same(outcome, OUTCOME_RELABEL) || text::same(
        outcome,
        OUTCOME_IGNORE,
    )
}

/// The match key of every rule among the decisions, computed once for the whole day.
fn rule_keys(decisions: &Vec<Decision>) -> (r: Vec<Option<String>>)
    ensures
        keyed(decisions.deep_view(), r.deep_view()),
{
    let ghost ds = decisions.deep_view();
    assert(ds.len() == decisions.len());
    let mut keys: Vec<Option<String>> = Vec::new();
    let mut i: usize = 0;
    while i < decisions.len()
        invariant
            i <= decisions.len(),
            ds == decisions.deep_view(),
            keys.len() == i,
            keys.deep_view().len() == i,
            forall|k: int| 0 <= k < i ==> #[trigger] keys.deep_view()[k] == rule_key(ds[k]),
        decreases decisions.len() - i,
    {
        let d = &decisions[i];
        assert(ds[i as int] == d.deep_view());
        let key = if d.is_rule() && is_known(d) {
            Some(d.signature.match_key())
        } else {
            None
        };
        list::push(&mut keys, key);
        i = i + 1;
    }
    keys
}

/// The match key of a decision that is a rule with an outcome that is understood.
pub open spec fn rule_key(d: DecisionV) -> Option<Seq<char>> {
    if rule(d) && known_outcome(d) {
        Some(key_of(d.signature))
    } else {
        None
    }
}

/// Whether `keys` lists the match key of every rule.
spec fn keyed(ds: Seq<DecisionV>, keys: Seq<Option<Seq<char>>>) -> bool {
    keys.len() == ds.len() && forall|k: int| 0 <= k < ds.len() ==> #[trigger] keys[k] == rule_key(
        ds[k],
    )
}

/// The rule that prevails under one key.
fn best_rule(key: &String, decisions: &Vec<Decision>, keys: &Vec<Option<String>>) -> (r: Option<
    usize,
>)
    requires
        keyed(decisions.deep_view(), keys.deep_view()),
    ensures
        match r {
            Some(i) => i < decisions.len() && best(
                decisions.deep_view(),
                rules_for(key@),
                decisions.len() as int,
            ) == Some(i as int),
            None => best(
                decisions.deep_view(),
                rules_for(key@),
                decisions.len() as int,
            ) is None,
        },
{
    let ghost ds = decisions.deep_view();
    let ghost kv = keys.deep_view();
    let ghost p = rules_for(key@);
    assert(kv.len() == keys.len());
    let mut held: Option<usize> = None;
    let mut i: usize = 0;
    while i < decisions.len()
        invariant
            i <= decisions.len(),
            ds == decisions.deep_view(),
            kv == keys.deep_view(),
            keyed(ds, kv),
            ds.len() == decisions.len(),
            kv.len() == keys.len(),
            p == rules_for(key@),
            match held {
                Some(h) => h < i && best(ds, p, i as int) == Some(h as int),
                None => best(ds, p, i as int) is None,
            },
        decreases decisions.len() - i,
    {
        let d = &decisions[i];
        assert(ds[i as int] == d.deep_view());
        assert(kv[i as int] == keys@[i as int].deep_view());
        let fits: bool = match &keys[i] {
            Some(k) => *k == *key,
            None => false,
        };
        assert(fits == p(ds[i as int]));
        if fits {
            let take: bool = match held {
                Some(h) => {
                    assert(ds[h as int] == decisions@[h as int].deep_view());
                    wins(d, &decisions[h])
                },
                None => true,
            };
            if take {
                held = Some(i);
            }
        }
        i = i + 1;
    }
    held
}

/// Carry one decision onto one segment it can act on.
fn resolve(seg: &mut Segment, d: &Decision, by_rule: bool, roles: &TextMap<String>)
    requires
        can_act(old(seg).deep_view().active, d.deep_view(), roles.deep_view()),
    ensures
        final(seg).deep_view() == resolved(
            old(seg).deep_view(),
            d.deep_view(),
            by_rule,
            roles.deep_view(),
        ),
{
    let ghost before = seg.deep_view();
    let outcome = d.resolution.outcome.as_str();
    if text::same(outcome, OUTCOME_FOREGROUND) {
        match &d.resolution.foreground {
            Some(pick) => match pick_index(&seg.active, pick, roles) {
                Some(i) => {
                    seg.foreground = i;
                },
                None => {},
            },
            None => {},
        }
    } else if text::same(outcome, OUTCOME_RELABEL) {
        seg.label_override = list::copied_option(&d.resolution.label);
    } else {
        seg.ignored = true;
    }
    seg.state = SegmentState::Settled;
    seg.resolved_by = Some(d.id.clone());
    seg.auto_resolved = by_rule;
    seg.deliberate_background = list::copied(&d.resolution.deliberate_background);
    assert(seg.deep_view() =~= resolved(before, d.deep_view(), by_rule, roles.deep_view()));
}

/// The decision for one window that settles a segment.
fn exact_answer(seg: &Segment, decisions: &Vec<Decision>, roles: &TextMap<String>) -> (r: Option<
    usize,
>)
    ensures
        match r {
            Some(i) => i < decisions.len() && best(
                decisions.deep_view(),
                answers(seg.deep_view(), roles.deep_view()),
                decisions.len() as int,
            ) == Some(i as int),
            None => best(
                decisions.deep_view(),
                answers(seg.deep_view(), roles.deep_view()),
                decisions.len() as int,
            ) is None,
        },
{
    let ghost ds = decisions.deep_view();
    let ghost p = answers(seg.deep_view(), roles.deep_view());
    let mut held: Option<usize> = None;
    let mut i: usize = 0;
    while i < decisions.len()
        invariant
            i <= decisions.len(),
            ds == decisions.deep_view(),
            p == answers(seg.deep_view(), roles.deep_view()),
            match held {
                Some(h) => h < i && best(ds, p, i as int) == Some(h as int),
                None => best(ds, p, i as int) is None,
            },
        decreases decisions.len() - i,
    {
        let d = &decisions[i];
        assert(ds[i as int] == d.deep_view());
        if is_answer(seg, d, roles) {
            let take: bool = match held {
                Some(h) => {
                    assert(ds[h as int] == decisions@[h as int].deep_view());
                    wins(d, &decisions[h])
                },
                None => true,
            };
            if take {
                held = Some(i);
            }
        }
        i = i + 1;
    }
    held
}

/// Apply to every segment the decision that settles it, if one does.
///
/// `roles` maps a device uuid to the role name that signatures use for it.
pub fn apply(segments: &mut Vec<Segment>, decisions: &Vec<Decision>, roles: &TextMap<String>)
    ensures
        final(segments).deep_view() == decided(
            old(segments).deep_view(),
            decisions.deep_view(),
            roles.deep_view(),
        ),
{
    let ghost segs = segments.deep_view();
    let ghost ds = decisions.deep_view();
    let ghost rv = roles.deep_view();
    let ghost goal = decided(segs, ds, rv);
    assert(ds.len() == decisions.len());
    let keys = rule_keys(decisions);
    let by_uuid: TextMap<String> = TextMap::new();
    assert(by_uuid.deep_view() =~= Map::empty());
    let mut i: usize = 0;
    while i < segments.len()
        invariant
            i <= segments.len(),
            segments.len() == segs.len(),
            ds == decisions.deep_view(),
            ds.len() == decisions.len(),
            rv == roles.deep_view(),
            by_uuid.deep_view() == Map::<Seq<char>, Seq<char>>::empty(),
            goal == decided(segs, ds, rv),
            keyed(ds, keys.deep_view()),
            forall|j: int| 0 <= j < i ==> #[trigger] segments.deep_view()[j] == goal[j],
            forall|j: int| i <= j < segs.len() ==> #[trigger] segments.deep_view()[j] == segs[j],
        decreases segments.len() - i,
    {
        let ghost before = segments.deep_view();
        assert(before[i as int] == segments@[i as int].deep_view());
        match exact_answer(&segments[i], decisions, roles) {
            Some(k) => {
                assert(ds[k as int] == decisions@[k as int].deep_view());
                proof {
                    best_is_admitted(ds, answers(segs[i as int], rv), ds.len() as int);
                }
                resolve(&mut segments[i], &decisions[k], false, roles);
            },
            None => {
                let named = signature_key(&segments[i].active, roles);
                let found = match best_rule(&named, decisions, &keys) {
                    Some(k) => Some(k),
                    None => {
                        let plain = signature_key(&segments[i].active, &by_uuid);
                        best_rule(&plain, decisions, &keys)
                    },
                };
                match found {
                    Some(k) => {
                        assert(rule_for(ds, segs[i as int].active, rv) == Some(k as int));
                        assert(ds[k as int] == decisions@[k as int].deep_view());
                        if can_act_on(&segments[i].active, &decisions[k], roles) {
                            resolve(&mut segments[i], &decisions[k], true, roles);
                        }
                    },
                    None => {},
                }
            },
        }
        assert(segments.deep_view() =~= before.update(i as int, goal[i as int]));
        i = i + 1;
    }
    assert(segments.deep_view() =~= goal);
}

/// What prevails is one of the decisions that were admitted, and no admitted decision beats it.
pub proof fn best_is_admitted(ds: Seq<DecisionV>, p: spec_fn(DecisionV) -> bool, n: int)
    requires
        0 <= n <= ds.len(),
    ensures
        match best(ds, p, n) {
            Some(i) => 0 <= i < n && p(ds[i]) && forall|j: int|
                0 <= j < n && p(#[trigger] ds[j]) ==> !beats(ds[j], ds[i]),
            None => forall|j: int| 0 <= j < n ==> !p(#[trigger] ds[j]),
        },
    decreases n,
{
    if n > 0 {
        best_is_admitted(ds, p, n - 1);
        match best(ds, p, n) {
            Some(i) => {
                assert forall|j: int| 0 <= j < n && p(#[trigger] ds[j]) implies !beats(
                    ds[j],
                    ds[i],
                ) by {
                    match best(ds, p, n - 1) {
                        Some(h) => {
                            beats_is_total_order(ds[j], ds[n - 1], ds[h]);
                            beats_is_total_order(ds[n - 1], ds[n - 1], ds[h]);
                        },
                        None => {
                            beats_is_total_order(ds[j], ds[j], ds[j]);
                        },
                    }
                }
            },
            None => {},
        }
    }
}

/// The rule that prevails for a segment is one of the rules.
pub proof fn rule_for_is_a_rule(
    ds: Seq<DecisionV>,
    slices: Seq<SliceV>,
    roles: Map<Seq<char>, Seq<char>>,
)
    ensures
        rule_for(ds, slices, roles) matches Some(i) ==> 0 <= i < ds.len() && rule(ds[i])
            && known_outcome(ds[i]),
{
    let n = ds.len() as int;
    best_is_admitted(ds, rules_for(cast_key(slices, roles)), n);
    best_is_admitted(ds, rules_for(cast_key(slices, Map::empty())), n);
}

/// A rule whose outcome is not understood takes no precedence: where some rule for a segment's
/// competitors is understood, the one that prevails is understood too, and no understood rule for
/// the same competitors beats it. Where no answer covers the segment, that rule settles it if it can
/// act on it, and nothing does if it cannot.
pub proof fn an_unknown_outcome_takes_no_precedence(
    seg: SegmentV,
    ds: Seq<DecisionV>,
    roles: Map<Seq<char>, Seq<char>>,
    i: int,
)
    requires
        0 <= i < ds.len(),
        rules_for(cast_key(seg.active, roles))(ds[i]),
        forall|j: int| 0 <= j < ds.len() ==> !answers(seg, roles)(#[trigger] ds[j]),
    ensures
        exists|k: int|
            0 <= k < ds.len() && rules_for(cast_key(seg.active, roles))(#[trigger] ds[k]) && !beats(
                ds[i],
                ds[k],
            ) && settled(seg, ds, roles) == (if can_act(seg.active, ds[k], roles) {
                resolved(seg, ds[k], true, roles)
            } else {
                seg
            }),
{
    let n = ds.len() as int;
    let p = rules_for(cast_key(seg.active, roles));
    best_is_admitted(ds, answers(seg, roles), n);
    best_is_admitted(ds, p, n);
    let k = best(ds, p, n)->0;
    assert(p(ds[k]));
}

/// No two different decisions share an id.
pub open spec fn distinct_ids(ds: Seq<DecisionV>) -> bool {
    forall|a: DecisionV, b: DecisionV|
        #![trigger ds.contains(a), ds.contains(b)]
        ds.contains(a) && ds.contains(b) && a.id == b.id ==> a == b
}

proof fn best_ignores_order(a: Seq<DecisionV>, b: Seq<DecisionV>, p: spec_fn(DecisionV) -> bool)
    requires
        forall|d: DecisionV| #[trigger] a.contains(d) <==> b.contains(d),
        distinct_ids(a),
    ensures
        match (best(a, p, a.len() as int), best(b, p, b.len() as int)) {
            (Some(i), Some(j)) => 0 <= i < a.len() && 0 <= j < b.len() && a[i] == b[j],
            (None, None) => true,
            _ => false,
        },
{
    best_is_admitted(a, p, a.len() as int);
    best_is_admitted(b, p, b.len() as int);
    match (best(a, p, a.len() as int), best(b, p, b.len() as int)) {
        (Some(i), Some(j)) => {
            assert(a.contains(a[i]));
            assert(b.contains(b[j]));
            assert(b.contains(a[i]));
            assert(a.contains(b[j]));
            let k = choose|k: int| 0 <= k < b.len() && b[k] == a[i];
            let l = choose|l: int| 0 <= l < a.len() && a[l] == b[j];
            assert(!beats(b[k], b[j]));
            assert(!beats(a[l], a[i]));
            beats_is_total_order(a[i], b[j], b[j]);
        },
        (Some(i), None) => {
            assert(a.contains(a[i]));
            let k = choose|k: int| 0 <= k < b.len() && b[k] == a[i];
            assert(!p(b[k]));
        },
        (None, Some(j)) => {
            assert(b.contains(b[j]));
            assert(a.contains(b[j]));
            let l = choose|l: int| 0 <= l < a.len() && a[l] == b[j];
            assert(!p(a[l]));
        },
        (None, None) => {},
    }
}

/// The order of the decisions does not matter, and neither does repeating one: two lists that hold
/// the same decisions settle every segment alike.
pub proof fn decisions_apply_in_any_order(
    segs: Seq<SegmentV>,
    a: Seq<DecisionV>,
    b: Seq<DecisionV>,
    roles: Map<Seq<char>, Seq<char>>,
)
    requires
        forall|d: DecisionV| #[trigger] a.contains(d) <==> b.contains(d),
        distinct_ids(a),
    ensures
        decided(segs, a, roles) == decided(segs, b, roles),
{
    assert forall|i: int| 0 <= i < segs.len() implies settled(segs[i], a, roles) == settled(
        segs[i],
        b,
        roles,
    ) by {
        best_ignores_order(a, b, answers(segs[i], roles));
        let slices = segs[i].active;
        best_ignores_order(a, b, rules_for(cast_key(slices, roles)));
        best_ignores_order(a, b, rules_for(cast_key(slices, Map::empty())));
    }
    assert(decided(segs, a, roles) =~= decided(segs, b, roles));
}

/// A decision for one window that covers a segment and can act on it settles that segment, or one
/// that beats it does: a rule never comes before it.
pub proof fn an_answer_overrides_every_rule(
    seg: SegmentV,
    ds: Seq<DecisionV>,
    roles: Map<Seq<char>, Seq<char>>,
    i: int,
)
    requires
        0 <= i < ds.len(),
        answers(seg, roles)(ds[i]),
    ensures
        exists|k: int|
            0 <= k < ds.len() && answers(seg, roles)(#[trigger] ds[k]) && !beats(ds[i], ds[k])
                && settled(seg, ds, roles) == resolved(seg, ds[k], false, roles),
{
    best_is_admitted(ds, answers(seg, roles), ds.len() as int);
    let k = best(ds, answers(seg, roles), ds.len() as int)->0;
    assert(answers(seg, roles)(ds[k]));
}

/// A pick only ever credits an activity that was running: wherever a decision names the
/// foreground, it is one of the segment's own slices, with the app that was picked.
pub proof fn a_pick_was_running(slices: Seq<SliceV>, pick: PickV, roles: Map<Seq<char>, Seq<char>>)
    ensures
        slot(slices, pick, roles) matches Some(i) ==> 0 <= i < slices.len() && label(
            slices[i].data,
        ) == pick.app && (slices[i].device == pick.device_uuid || role(slices[i].device, roles)
            == pick.device_role),
{
    slot_by_uuid_sound(slices, pick, 0);
    slot_by_role_sound(slices, pick, roles, 0);
}

proof fn slot_by_uuid_sound(slices: Seq<SliceV>, pick: PickV, i: int)
    ensures
        slot_by_uuid(slices, pick, i) matches Some(k) ==> i <= k < slices.len() && label(
            slices[k].data,
        ) == pick.app && slices[k].device == pick.device_uuid,
    decreases slices.len() - i,
{
    if 0 <= i < slices.len() {
        slot_by_uuid_sound(slices, pick, i + 1);
    }
}

proof fn slot_by_role_sound(
    slices: Seq<SliceV>,
    pick: PickV,
    roles: Map<Seq<char>, Seq<char>>,
    i: int,
)
    ensures
        slot_by_role(slices, pick, roles, i) matches Some(k) ==> i <= k < slices.len() && label(
            slices[k].data,
        ) == pick.app && role(slices[k].device, roles) == pick.device_role,
    decreases slices.len() - i,
{
    if 0 <= i < slices.len() {
        slot_by_role_sound(slices, pick, roles, i + 1);
    }
}

} // verus!
