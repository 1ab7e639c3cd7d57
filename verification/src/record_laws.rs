//! What a shared line says, and which decisions are left of many lines.

use vstd::prelude::*;

use crate::decision::{
    beats, beats_is_total_order, decision_in, filled_texts, group_key, key_of, line_record, merged,
    participants_in, prevailing, prevailing_sound, prevails, record_of, revoked, stands, value_in,
    Decision, DecisionV, Participant, ParticipantV, RecordV, ResolutionV,
};
use crate::json::{member, Json};
use crate::order::{arranged_contains, arranged_in_order, arranged_keeps, Sortable};
use crate::text;
use crate::time::{stamp_before, stamp_in};

verus! {

/// The text that a JSON object says under a name; the empty one where it says none.
pub open spec fn says(json: Json, key: Seq<char>) -> Seq<char> {
    match member(json, key) {
        Some(Json::Text(s)) => s@,
        _ => Seq::empty(),
    }
}

/// The items that a JSON object lists under a name; none where it lists none.
pub open spec fn lists_under(json: Option<Json>, key: Seq<char>) -> Seq<Json> {
    match json {
        Some(j) => match member(j, key) {
            Some(Json::List(items)) => items@,
            _ => Seq::empty(),
        },
        None => Seq::empty(),
    }
}

/// One competitor, as a JSON object names it.
pub open spec fn named_by() -> spec_fn(Json) -> ParticipantV {
    |j: Json|
        ParticipantV {
            device_role: says(j, "device_role"@),
            device_uuid: says(j, "device_uuid"@),
            app: says(j, "app"@),
            category: says(j, "category"@),
        }
}

pub open spec fn is_an_object() -> spec_fn(Json) -> bool {
    |j: Json| j is Object
}

pub open spec fn is_filled() -> spec_fn(Json) -> bool {
    |j: Json| j is Text && j->Text_0@.len() > 0
}

pub open spec fn its_text() -> spec_fn(Json) -> Seq<char> {
    |j: Json| j->Text_0@
}

proof fn participants_are_filtered(items: Seq<Json>, n: int)
    requires
        0 <= n <= items.len(),
    ensures
        participants_in(items, n) == items.take(n).filter(is_an_object()).map_values(named_by()),
    decreases n,
{
    reveal(Seq::filter);
    if n > 0 {
        participants_are_filtered(items, n - 1);
        assert(items.take(n).drop_last() =~= items.take(n - 1));
    }
    assert(participants_in(items, n) =~= items.take(n).filter(is_an_object()).map_values(
        named_by(),
    ));
}

proof fn texts_are_filtered(items: Seq<Json>, n: int)
    requires
        0 <= n <= items.len(),
    ensures
        filled_texts(items, n) == items.take(n).filter(is_filled()).map_values(its_text()),
    decreases n,
{
    reveal(Seq::filter);
    if n > 0 {
        texts_are_filtered(items, n - 1);
        assert(items.take(n).drop_last() =~= items.take(n - 1));
    }
    assert(filled_texts(items, n) =~= items.take(n).filter(is_filled()).map_values(its_text()));
}

/// Whether a resolution is what a JSON object says: an outcome, a pick where there is one, a label
/// where it is not empty, and whatever was meant to run beside.
pub open spec fn resolves_as(r: ResolutionV, json: Json) -> bool {
    &&& r.outcome == says(json, "outcome"@)
    &&& match member(json, "foreground"@) {
        Some(f) => if f is Object {
            r.foreground is Some && r.foreground->0.device_role == says(f, "device_role"@)
                && r.foreground->0.device_uuid == says(f, "device_uuid"@) && r.foreground->0.app
                == says(f, "app"@)
        } else {
            r.foreground is None
        },
        None => r.foreground is None,
    }
    &&& r.label == if says(json, "label"@).len() > 0 {
        Some(says(json, "label"@))
    } else {
        None
    }
    &&& r.deliberate_background == lists_under(Some(json), "deliberate_background"@).filter(
        is_filled(),
    ).map_values(its_text())
}

/// Whether a decision is what a JSON object says.
pub open spec fn decides_as(d: DecisionV, json: Json) -> bool {
    &&& d.id == says(json, "id"@)
    &&& d.created_at == says(json, "created_at"@)
    &&& d.created_by == says(json, "created_by"@)
    &&& member(json, "window"@) matches Some(w) && d.window.start == says(w, "start"@)
        && d.window.end == says(w, "end"@)
    &&& d.signature.to_multiset() == lists_under(
        member(json, "signature"@),
        "participants"@,
    ).filter(is_an_object()).map_values(named_by()).to_multiset()
    &&& match member(json, "resolution"@) {
        Some(r) => if r is Object {
            resolves_as(d.resolution, r)
        } else {
            decides_nothing(d.resolution)
        },
        None => decides_nothing(d.resolution),
    }
    &&& d.scope == if says(json, "scope"@).len() > 0 {
        says(json, "scope"@)
    } else {
        "once"@
    }
}

pub open spec fn decides_nothing(r: ResolutionV) -> bool {
    r.outcome.len() == 0 && r.foreground is None && r.label is None && r.deliberate_background.len()
        == 0
}

/// A line is the decision that it says it is, where it says an id and has a window; the tombstone it
/// says it is, where it says an id and what it revokes; and anything else is kept as it came.
pub proof fn a_line_is_what_it_says(json: Option<Json>, line: Seq<char>)
    ensures
        ({
            let r = record_of(json, line);
            let object = json is Some && json->0 is Object;
            let j = json->0;
            let decides = object && says(j, "type"@) == "decision"@ && says(j, "id"@).len() > 0
                && member(j, "window"@) is Some;
            let revokes = object && says(j, "type"@) == "tombstone"@ && says(j, "id"@).len() > 0
                && says(j, "revokes"@).len() > 0;
            &&& decides ==> (r matches RecordV::Decision(d) && decides_as(d, j))
            &&& revokes ==> (r matches RecordV::Tombstone(t) && t.id == says(j, "id"@)
                && t.created_at == says(j, "created_at"@) && t.created_by == says(j, "created_by"@)
                && t.revokes == says(j, "revokes"@))
            &&& !decides && !revokes ==> r == RecordV::Unknown(line)
        }),
{
    reveal_strlit("decision");
    reveal_strlit("tombstone");
    assert("decision"@.len() == 8);
    assert("tombstone"@.len() == 9);
    if json is Some {
        let j = json->0;
        let sig = member(j, "signature"@);
        let items = lists_under(sig, "participants"@);
        participants_are_filtered(items, items.len() as int);
        assert(items.take(items.len() as int) =~= items);
        arranged_keeps::<Participant>(participants_in(items, items.len() as int));
        if let Some(r) = member(j, "resolution"@) {
            let texts = lists_under(Some(r), "deliberate_background"@);
            texts_are_filtered(texts, texts.len() as int);
            assert(texts.take(texts.len() as int) =~= texts);
        }
    }
}

/// A blank line is nothing; any other is a record, of what it says without the space around it.
pub proof fn a_filled_line_is_a_record(line: Seq<char>)
    ensures
        line_record(line) is None <==> text::trimmed(line).len() == 0,
        line_record(line) matches Some(r) ==> r == record_of(
            value_in(text::trimmed(line)),
            text::trimmed(line),
        ),
{
}

/// Whether record `i` is decision `d`, the first with its id, and no tombstone anywhere revokes it.
pub open spec fn stands_as(records: Seq<RecordV>, i: int, d: DecisionV) -> bool {
    &&& 0 <= i < records.len()
    &&& records[i] == RecordV::Decision(d)
    &&& forall|j: int|
        0 <= j < i ==> !((#[trigger] records[j]) is Decision && records[j]->Decision_0.id == d.id)
    &&& forall|j: int|
        0 <= j < records.len() ==> !((#[trigger] records[j]) is Tombstone
            && records[j]->Tombstone_0.revokes == d.id)
}

/// Whether two decisions answer the same question: one window, as it is spelled, and one cast.
pub open spec fn same_subject(d: DecisionV, e: DecisionV) -> bool {
    let sep = "\u{1D}"@;
    d.window.start + sep + d.window.end + sep + key_of(d.signature) == e.window.start + sep
        + e.window.end + sep + key_of(e.signature)
}

proof fn standing_is_standing(records: Seq<RecordV>, i: int, d: DecisionV)
    requires
        0 <= i < records.len(),
        records[i] == RecordV::Decision(d),
    ensures
        stands(records, i) == stands_as(records, i, d),
{
    if stands(records, i) {
        assert forall|j: int| 0 <= j < i implies !((#[trigger] records[j]) is Decision
            && records[j]->Decision_0.id == d.id) by {}
        assert forall|j: int| 0 <= j < records.len() implies !((#[trigger] records[j]) is Tombstone
            && records[j]->Tombstone_0.revokes == d.id) by {
            if records[j] is Tombstone && records[j]->Tombstone_0.revokes == d.id {
                assert(revoked(records, d.id));
            }
        }
    }
    if stands_as(records, i, d) {
        assert(!revoked(records, d.id));
    }
}

/// What is left of many records is exactly the decisions that stand and that no standing answer to
/// the same question beats, by window and then id.
pub proof fn what_prevails_is_left(records: Seq<RecordV>, d: DecisionV)
    ensures
        merged(records).contains(d) <==> exists|i: int| #[trigger]
            stands_as(records, i, d) && forall|j: int, e: DecisionV| #[trigger]
                stands_as(records, j, e) && same_subject(e, d) ==> !beats(e, d),
        forall|i: int, j: int|
            0 <= i < j < merged(records).len() ==> !text::before(
                (#[trigger] merged(records)[j]).window.start,
                (#[trigger] merged(records)[i]).window.start,
            ),
{
    let n = records.len() as int;
    let s = prevailing(records, n);
    prevailing_sound(records, n);
    arranged_contains::<Decision>(s, d);
    arranged_in_order::<Decision>(s);
    if merged(records).contains(d) {
        let i = choose|i: int|
            0 <= i < n && #[trigger] prevails(records, i) && records[i] == RecordV::Decision(d);
        standing_is_standing(records, i, d);
        assert forall|j: int, e: DecisionV| #[trigger]
            stands_as(records, j, e) && same_subject(e, d) implies !beats(e, d) by {
            standing_is_standing(records, j, e);
            assert(decision_in(records[j])->0 == e);
            assert(stands(records, j));
        }
        assert(stands_as(records, i, d));
    }
    if exists|i: int| #[trigger]
        stands_as(records, i, d) && forall|j: int, e: DecisionV| #[trigger]
            stands_as(records, j, e) && same_subject(e, d) ==> !beats(e, d) {
        let i = choose|i: int| #[trigger]
            stands_as(records, i, d) && forall|j: int, e: DecisionV| #[trigger]
                stands_as(records, j, e) && same_subject(e, d) ==> !beats(e, d);
        standing_is_standing(records, i, d);
        assert(prevails(records, i)) by {
            assert forall|j: int| #[trigger]
                stands(records, j) && group_key(decision_in(records[j])->0) == group_key(
                    d,
                ) implies !beats(decision_in(records[j])->0, d) by {
                let e = decision_in(records[j])->0;
                standing_is_standing(records, j, e);
                assert(stands_as(records, j, e));
                assert(same_subject(e, d));
            }
        }
        assert(s.contains(d));
    }
    let m = merged(records);
    assert forall|i: int, j: int| 0 <= i < j < m.len() implies !text::before(
        (#[trigger] m[j]).window.start,
        (#[trigger] m[i]).window.start,
    ) by {
        assert(!<Decision as Sortable>::precedes(m[j], m[i]));
    }
}

/// Of two decisions the one made later wins; one whose time can be read wins over one whose time
/// cannot; at one time the lower author wins, and of one author the lower id.
pub proof fn the_later_decision_wins(a: DecisionV, b: DecisionV)
    ensures
        ({
            let (x, y) = (stamp_in(a.created_at), stamp_in(b.created_at));
            &&& x is Some && y is Some && stamp_before(y->0, x->0) ==> beats(a, b) && !beats(b, a)
            &&& x is Some && y is None ==> beats(a, b) && !beats(b, a)
            &&& x is None && y is None && text::before(b.created_at, a.created_at) ==> beats(a, b)
                && !beats(b, a)
            &&& x is Some && x == y && text::before(a.created_by, b.created_by) ==> beats(a, b)
                && !beats(b, a)
            &&& x is Some && x == y && a.created_by == b.created_by && text::before(a.id, b.id)
                ==> beats(a, b) && !beats(b, a)
        }),
{
    beats_is_total_order(a, b, b);
}

} // verus!
