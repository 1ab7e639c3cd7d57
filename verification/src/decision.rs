//! The decision record, and the deterministic merge across devices.
//!
//! A decision is data about a contention, never an edit to the events underneath it. Every device
//! appends its own decisions to its own file, reads every device's file, and merges them here; the
//! merge is what makes several devices agree without coordinating.

use vstd::prelude::*;

use crate::json::{document, member, read_document, text_at, text_of, Json};
use crate::list;
use crate::order::{
    arranged, arranged_contains, arranged_keeps, arranged_unique, separates, sort, Sortable,
};
use crate::text;
use crate::time::{parse_stamp, stamp_before, stamp_in, Timestamp};

verus! {

/// A decision that applies only to the window it was recorded for.
pub const SCOPE_ONCE: &'static str = "once";

/// A decision that applies to every segment with the same signature.
pub const SCOPE_ALWAYS: &'static str = "always";

/// This device and app is what counted.
pub const OUTCOME_FOREGROUND: &'static str = "foreground";

/// Neither competitor is right; the owner typed a label.
pub const OUTCOME_RELABEL: &'static str = "relabel";

/// The owner was away; this time counts as nothing.
pub const OUTCOME_IGNORE: &'static str = "ignore";

/// One device's side of a contention. The uuid is provenance and no part of the match key:
/// matching on the role is what lets a rule outlive replacing a device.
#[derive(Debug, PartialEq, Eq)]
pub struct Participant {
    pub device_role: String,
    pub device_uuid: String,
    pub app: String,
    pub category: String,
}

#[verifier::ext_equal]
pub struct ParticipantV {
    pub device_role: Seq<char>,
    pub device_uuid: Seq<char>,
    pub app: Seq<char>,
    pub category: Seq<char>,
}

impl DeepView for Participant {
    type V = ParticipantV;

    open spec fn deep_view(&self) -> ParticipantV {
        ParticipantV {
            device_role: self.device_role@,
            device_uuid: self.device_uuid@,
            app: self.app@,
            category: self.category@,
        }
    }
}

impl Clone for Participant {
    fn clone(&self) -> (r: Participant)
        ensures
            r.deep_view() == self.deep_view(),
    {
        Participant {
            device_role: self.device_role.clone(),
            device_uuid: self.device_uuid.clone(),
            app: self.app.clone(),
            category: self.category.clone(),
        }
    }
}

/// By role, then app, then category, then uuid.
impl Sortable for Participant {
    open spec fn precedes(a: ParticipantV, b: ParticipantV) -> bool {
        text::before(a.device_role, b.device_role) || (a.device_role == b.device_role && (
        text::before(a.app, b.app) || (a.app == b.app && (text::before(a.category, b.category) || (
        a.category == b.category && text::before(a.device_uuid, b.device_uuid))))))
    }

    proof fn weak_order(a: ParticipantV, b: ParticipantV, c: ParticipantV) {
        text::before_is_weak_order(a.device_role, b.device_role, c.device_role);
        text::before_is_weak_order(a.app, b.app, c.app);
        text::before_is_weak_order(a.category, b.category, c.category);
        text::before_is_weak_order(a.device_uuid, b.device_uuid, c.device_uuid);
    }

    fn sorts_before(&self, other: &Self) -> (r: bool) {
        proof {
            text::before_is_weak_order(self.device_role@, other.device_role@, other.device_role@);
            text::before_is_weak_order(self.app@, other.app@, other.app@);
            text::before_is_weak_order(self.category@, other.category@, other.category@);
        }
        if self.device_role != other.device_role {
            text::is_before(self.device_role.as_str(), other.device_role.as_str())
        } else if self.app != other.app {
            text::is_before(self.app.as_str(), other.app.as_str())
        } else if self.category != other.category {
            text::is_before(self.category.as_str(), other.category.as_str())
        } else {
            text::is_before(self.device_uuid.as_str(), other.device_uuid.as_str())
        }
    }
}

/// What was competing, canonically ordered.
#[derive(Debug, PartialEq, Eq)]
pub struct Signature {
    pub participants: Vec<Participant>,
}

impl DeepView for Signature {
    type V = Seq<ParticipantV>;

    open spec fn deep_view(&self) -> Seq<ParticipantV> {
        self.participants.deep_view()
    }
}

impl Clone for Signature {
    fn clone(&self) -> (r: Signature)
        ensures
            r.deep_view() == self.deep_view(),
    {
        Signature { participants: list::copied(&self.participants) }
    }
}

/// The chosen device and app when the outcome is `foreground`.
#[derive(Debug, PartialEq, Eq)]
pub struct ForegroundPick {
    pub device_role: String,
    pub device_uuid: String,
    pub app: String,
}

#[verifier::ext_equal]
pub struct PickV {
    pub device_role: Seq<char>,
    pub device_uuid: Seq<char>,
    pub app: Seq<char>,
}

impl DeepView for ForegroundPick {
    type V = PickV;

    open spec fn deep_view(&self) -> PickV {
        PickV {
            device_role: self.device_role@,
            device_uuid: self.device_uuid@,
            app: self.app@,
        }
    }
}

impl Clone for ForegroundPick {
    fn clone(&self) -> (r: ForegroundPick)
        ensures
            r.deep_view() == self.deep_view(),
    {
        ForegroundPick {
            device_role: self.device_role.clone(),
            device_uuid: self.device_uuid.clone(),
            app: self.app.clone(),
        }
    }
}

/// What the owner decided. The outcome stays a plain text: a newer build may record one this build
/// has never heard of, and the rule is to ignore what is not understood.
#[derive(Debug, PartialEq, Eq)]
pub struct Resolution {
    pub outcome: String,
    pub foreground: Option<ForegroundPick>,
    pub label: Option<String>,
    pub deliberate_background: Vec<String>,
}

#[verifier::ext_equal]
pub struct ResolutionV {
    pub outcome: Seq<char>,
    pub foreground: Option<PickV>,
    pub label: Option<Seq<char>>,
    pub deliberate_background: Seq<Seq<char>>,
}

impl DeepView for Resolution {
    type V = ResolutionV;

    open spec fn deep_view(&self) -> ResolutionV {
        ResolutionV {
            outcome: self.outcome@,
            foreground: self.foreground.deep_view(),
            label: self.label.deep_view(),
            deliberate_background: self.deliberate_background.deep_view(),
        }
    }
}

impl Clone for Resolution {
    fn clone(&self) -> (r: Resolution)
        ensures
            r.deep_view() == self.deep_view(),
    {
        Resolution {
            outcome: self.outcome.clone(),
            foreground: match &self.foreground {
                Some(pick) => Some(pick.clone()),
                None => None,
            },
            label: list::copied_option(&self.label),
            deliberate_background: list::copied(&self.deliberate_background),
        }
    }
}

/// The interval a decision applies to, as the texts that were read. Grouping uses the texts, so
/// that two devices group alike even on a timestamp neither can parse.
#[derive(Debug, PartialEq, Eq)]
pub struct TimeWindow {
    pub start: String,
    pub end: String,
}

#[verifier::ext_equal]
pub struct WindowV {
    pub start: Seq<char>,
    pub end: Seq<char>,
}

impl DeepView for TimeWindow {
    type V = WindowV;

    open spec fn deep_view(&self) -> WindowV {
        WindowV { start: self.start@, end: self.end@ }
    }
}

impl Clone for TimeWindow {
    fn clone(&self) -> (r: TimeWindow)
        ensures
            r.deep_view() == self.deep_view(),
    {
        TimeWindow { start: self.start.clone(), end: self.end.clone() }
    }
}

#[derive(Debug, PartialEq, Eq)]
pub struct Decision {
    pub id: String,
    pub created_at: String,
    pub created_by: String,
    pub window: TimeWindow,
    pub signature: Signature,
    pub resolution: Resolution,
    pub scope: String,
}

#[verifier::ext_equal]
pub struct DecisionV {
    pub id: Seq<char>,
    pub created_at: Seq<char>,
    pub created_by: Seq<char>,
    pub window: WindowV,
    pub signature: Seq<ParticipantV>,
    pub resolution: ResolutionV,
    pub scope: Seq<char>,
}

impl DeepView for Decision {
    type V = DecisionV;

    open spec fn deep_view(&self) -> DecisionV {
        DecisionV {
            id: self.id@,
            created_at: self.created_at@,
            created_by: self.created_by@,
            window: self.window.deep_view(),
            signature: self.signature.deep_view(),
            resolution: self.resolution.deep_view(),
            scope: self.scope@,
        }
    }
}

impl Clone for Decision {
    fn clone(&self) -> (r: Decision)
        ensures
            r.deep_view() == self.deep_view(),
    {
        Decision {
            id: self.id.clone(),
            created_at: self.created_at.clone(),
            created_by: self.created_by.clone(),
            window: self.window.clone(),
            signature: self.signature.clone(),
            resolution: self.resolution.clone(),
            scope: self.scope.clone(),
        }
    }
}

#[derive(Debug, PartialEq, Eq)]
pub struct Tombstone {
    pub id: String,
    pub created_at: String,
    pub created_by: String,
    pub revokes: String,
}

#[verifier::ext_equal]
pub struct TombstoneV {
    pub id: Seq<char>,
    pub created_at: Seq<char>,
    pub created_by: Seq<char>,
    pub revokes: Seq<char>,
}

impl DeepView for Tombstone {
    type V = TombstoneV;

    open spec fn deep_view(&self) -> TombstoneV {
        TombstoneV {
            id: self.id@,
            created_at: self.created_at@,
            created_by: self.created_by@,
            revokes: self.revokes@,
        }
    }
}

/// One line of a shared file. A line that is not understood is kept rather than dropped, so that
/// an older build cannot destroy a newer one's data.
#[derive(Debug, PartialEq, Eq)]
pub enum SharedRecord {
    Decision(Decision),
    Tombstone(Tombstone),
    Unknown(String),
}

#[verifier::ext_equal]
pub enum RecordV {
    Decision(DecisionV),
    Tombstone(TombstoneV),
    Unknown(Seq<char>),
}

impl DeepView for SharedRecord {
    type V = RecordV;

    open spec fn deep_view(&self) -> RecordV {
        match self {
            SharedRecord::Decision(d) => RecordV::Decision(d.deep_view()),
            SharedRecord::Tombstone(t) => RecordV::Tombstone(t.deep_view()),
            SharedRecord::Unknown(s) => RecordV::Unknown(s@),
        }
    }
}

/// Whether a decision applies wherever its signature matches.
pub open spec fn rule(d: DecisionV) -> bool {
    d.scope == SCOPE_ALWAYS@
}

/// The window of a decision as timestamps, where both ends are ones.
pub open spec fn bounds(d: DecisionV) -> Option<(Timestamp, Timestamp)> {
    match (stamp_in(d.window.start), stamp_in(d.window.end)) {
        (Some(a), Some(b)) => Some((a, b)),
        _ => None,
    }
}

impl Decision {
    /// The window as timestamps, or `None` if either end cannot be read. Such a decision can still
    /// be a rule; it can never match a window.
    pub fn window_bounds(&self) -> (r: Option<(Timestamp, Timestamp)>)
        ensures
            r == bounds(self.deep_view()),
    {
        match parse_stamp(self.window.start.as_str()) {
            Some(a) => match parse_stamp(self.window.end.as_str()) {
                Some(b) => Some((a, b)),
                None => None,
            },
            None => None,
        }
    }

    pub fn is_rule(&self) -> (r: bool)
        ensures
            r == rule(self.deep_view()),
    {
        text::same(self.scope.as_str(), SCOPE_ALWAYS)
    }
}

/// Whether text `a` as a timestamp is newer than text `b`, given what each reads as: the later
/// instant is, one that can be read is newer than one that cannot, and of two that cannot the
/// greater text is.
pub open spec fn newer(
    a: Seq<char>,
    b: Seq<char>,
    at: Option<Timestamp>,
    bt: Option<Timestamp>,
) -> bool {
    match (at, bt) {
        (Some(x), Some(y)) => stamp_before(y, x),
        (Some(_), None) => true,
        (None, Some(_)) => false,
        (None, None) => text::before(b, a),
    }
}

/// Whether two texts as timestamps tie: one instant, however it is spelled, or the same text where
/// neither can be read.
pub open spec fn ties(
    a: Seq<char>,
    b: Seq<char>,
    at: Option<Timestamp>,
    bt: Option<Timestamp>,
) -> bool {
    match (at, bt) {
        (Some(x), Some(y)) => x == y,
        (None, None) => a == b,
        _ => false,
    }
}

/// Whether `a` beats `b`: the newer `created_at`, then the lower `created_by`, then the lower `id`.
/// Two that share all of these and only spell their instant differently go by the greater spelling.
pub open spec fn beats(a: DecisionV, b: DecisionV) -> bool {
    let at = stamp_in(a.created_at);
    let bt = stamp_in(b.created_at);
    newer(a.created_at, b.created_at, at, bt) || (ties(a.created_at, b.created_at, at, bt) && (
    text::before(a.created_by, b.created_by) || (a.created_by == b.created_by && (text::before(
        a.id,
        b.id,
    ) || (a.id == b.id && text::before(b.created_at, a.created_at))))))
}

/// Whether text `a` as a timestamp is newer than text `b`, given what each reads as.
pub fn is_newer(a: &str, b: &str, at: Option<Timestamp>, bt: Option<Timestamp>) -> (r: bool)
    ensures
        r == newer(a@, b@, at, bt),
{
    match (at, bt) {
        (Some(x), Some(y)) => y.is_before(x),
        (Some(_), None) => true,
        (None, Some(_)) => false,
        (None, None) => text::is_before(b, a),
    }
}

/// Whether two texts as timestamps tie, given what each reads as.
pub fn is_tie(a: &str, b: &str, at: Option<Timestamp>, bt: Option<Timestamp>) -> (r: bool)
    ensures
        r == ties(a@, b@, at, bt),
{
    match (at, bt) {
        (Some(x), Some(y)) => x == y,
        (None, None) => text::same(a, b),
        _ => false,
    }
}

/// Does `challenger` beat `held`? Newest `created_at`, then lowest `created_by`, then lowest `id`.
pub fn wins(challenger: &Decision, held: &Decision) -> (r: bool)
    ensures
        r == beats(challenger.deep_view(), held.deep_view()),
{
    let (c, h) = (challenger.created_at.as_str(), held.created_at.as_str());
    let at = parse_stamp(c);
    let bt = parse_stamp(h);
    if is_newer(c, h, at, bt) {
        return true;
    }
    if !is_tie(c, h, at, bt) {
        return false;
    }
    if challenger.created_by != held.created_by {
        return text::is_before(challenger.created_by.as_str(), held.created_by.as_str());
    }
    proof {
        text::before_is_weak_order(challenger.created_by@, held.created_by@, held.created_by@);
    }
    if challenger.id != held.id {
        return text::is_before(challenger.id.as_str(), held.id.as_str());
    }
    proof {
        text::before_is_weak_order(challenger.id@, held.id@, held.id@);
    }
    text::is_before(h, c)
}

/// Between the fields of one participant in a match key. A control character occurs in no app name
/// and no hostname, so nothing needs escaping.
pub const UNIT_SEP: &'static str = "\u{1F}";

/// Between two participants in a match key.
pub const RECORD_SEP: &'static str = "\u{1E}";

/// Between the parts of a merge key.
pub const GROUP_SEP: &'static str = "\u{1D}";

/// One participant in a match key: role, app and category.
pub open spec fn part_of(p: ParticipantV) -> Seq<char> {
    p.device_role + UNIT_SEP@ + p.app + UNIT_SEP@ + p.category
}

pub open spec fn parts_of(participants: Seq<ParticipantV>) -> Seq<Seq<char>> {
    Seq::new(participants.len(), |i: int| part_of(participants[i]))
}

/// The first `n` texts with `sep` between each two.
pub open spec fn joined(parts: Seq<Seq<char>>, sep: Seq<char>, n: int) -> Seq<char>
    decreases n,
{
    if n <= 0 {
        Seq::empty()
    } else if n == 1 {
        parts[0]
    } else {
        joined(parts, sep, n - 1) + sep + parts[n - 1]
    }
}

/// The key a rule matches on: role, app and category of every participant, sorted.
pub open spec fn key_of(participants: Seq<ParticipantV>) -> Seq<char> {
    let parts = arranged::<String>(parts_of(participants));
    joined(parts, RECORD_SEP@, parts.len() as int)
}

/// Join texts with `sep` between each two.
pub fn join(parts: &Vec<String>, sep: &str) -> (r: String)
    ensures
        r@ == joined(parts.deep_view(), sep@, parts.len() as int),
{
    let mut out = String::new();
    let mut i: usize = 0;
    while i < parts.len()
        invariant
            i <= parts.len(),
            out@ == joined(parts.deep_view(), sep@, i as int),
        decreases parts.len() - i,
    {
        assert(parts.deep_view()[i as int] == parts@[i as int]@);
        if i > 0 {
            out.append(sep);
        }
        out.append(parts[i].as_str());
        i = i + 1;
        assert(out@ =~= joined(parts.deep_view(), sep@, i as int));
    }
    out
}

impl Signature {
    /// A signature lists its participants in order, so that a stored line is canonical too and not
    /// just the key derived from it.
    pub fn of(participants: Vec<Participant>) -> (r: Signature)
        ensures
            r.deep_view() == arranged::<Participant>(participants.deep_view()),
    {
        let mut participants = participants;
        sort(&mut participants);
        Signature { participants }
    }

    /// The rule key: role, app and category only, sorted. No uuids, and no order left to the
    /// writer.
    pub fn match_key(&self) -> (r: String)
        ensures
            r@ == key_of(self.deep_view()),
    {
        let mut parts: Vec<String> = Vec::new();
        let ghost ps = self.participants.deep_view();
        let mut i: usize = 0;
        while i < self.participants.len()
            invariant
                i <= self.participants.len(),
                ps == self.participants.deep_view(),
                parts.deep_view() =~= parts_of(ps).take(i as int),
            decreases self.participants.len() - i,
        {
            let p = &self.participants[i];
            assert(ps[i as int] == p.deep_view());
            let mut part = p.device_role.clone();
            part.append(UNIT_SEP);
            part.append(p.app.as_str());
            part.append(UNIT_SEP);
            part.append(p.category.as_str());
            list::push(&mut parts, part);
            i = i + 1;
        }
        assert(ps.len() == self.participants.len());
        assert(parts.deep_view() =~= parts_of(ps));
        sort(&mut parts);
        assert(parts.deep_view().len() == parts.len());
        join(&parts, RECORD_SEP)
    }
}

/// A rule key depends on neither the order of the participants nor their uuids: only on which
/// role, app and category each has.
pub proof fn match_key_ignores_order_and_uuids(a: Seq<ParticipantV>, b: Seq<ParticipantV>)
    requires
        parts_of(a).to_multiset() == parts_of(b).to_multiset(),
    ensures
        key_of(a) == key_of(b),
{
    assert(separates::<String>(parts_of(a))) by {
        assert forall|x: Seq<char>, y: Seq<char>|
            !text::before(x, y) && !text::before(y, x) implies x == y by {
            text::before_is_total_order(x, y, y);
        }
    }
    arranged_unique::<String>(parts_of(a), parts_of(b));
}

/// A signature lists the same participants whatever order they came in.
pub proof fn signature_ignores_order(a: Seq<ParticipantV>, b: Seq<ParticipantV>)
    requires
        a.to_multiset() == b.to_multiset(),
    ensures
        arranged::<Participant>(a) == arranged::<Participant>(b),
{
    assert(separates::<Participant>(a)) by {
        assert forall|x: ParticipantV, y: ParticipantV|
            !<Participant as Sortable>::precedes(x, y) && !<Participant as Sortable>::precedes(
                y,
                x,
            ) implies x == y by {
            text::before_is_total_order(x.device_role, y.device_role, y.device_role);
            text::before_is_total_order(x.app, y.app, y.app);
            text::before_is_total_order(x.category, y.category, y.category);
            text::before_is_total_order(x.device_uuid, y.device_uuid, y.device_uuid);
        }
    }
    arranged_unique::<Participant>(a, b);
}

/// Being newer is a strict order, tying is its indifference, and nothing else is left.
pub proof fn newer_is_weak_order(a: Seq<char>, b: Seq<char>, c: Seq<char>)
    ensures
        ({
            let at = stamp_in(a);
            let bt = stamp_in(b);
            let ct = stamp_in(c);
            &&& !newer(a, a, at, at)
            &&& ties(a, a, at, at)
            &&& newer(a, b, at, bt) ==> !newer(b, a, bt, at) && !ties(a, b, at, bt)
            &&& newer(a, b, at, bt) && newer(b, c, bt, ct) ==> newer(a, c, at, ct)
            &&& newer(a, b, at, bt) && ties(b, c, bt, ct) ==> newer(a, c, at, ct)
            &&& ties(a, b, at, bt) && newer(b, c, bt, ct) ==> newer(a, c, at, ct)
            &&& ties(a, b, at, bt) && ties(b, c, bt, ct) ==> ties(a, c, at, ct)
            &&& ties(a, b, at, bt) == ties(b, a, bt, at)
            &&& ties(a, b, at, bt) || newer(a, b, at, bt) || newer(b, a, bt, at)
        }),
{
    text::before_is_total_order(a, b, c);
    text::before_is_total_order(c, b, a);
}

/// Precedence between decisions is a strict total order, as far as their ids differ: it never
/// depends on which of them came first.
pub proof fn beats_is_total_order(a: DecisionV, b: DecisionV, c: DecisionV)
    ensures
        !beats(a, a),
        beats(a, b) ==> !beats(b, a),
        beats(a, b) && beats(b, c) ==> beats(a, c),
        a.id == b.id || beats(a, b) || beats(b, a),
{
    newer_is_weak_order(a.created_at, b.created_at, c.created_at);
    newer_is_weak_order(b.created_at, c.created_at, a.created_at);
    newer_is_weak_order(b.created_at, a.created_at, c.created_at);
    text::before_is_total_order(a.created_by, b.created_by, c.created_by);
    text::before_is_total_order(a.id, b.id, c.id);
    text::before_is_total_order(a.created_at, b.created_at, c.created_at);
    text::before_is_total_order(c.created_at, b.created_at, a.created_at);
}

/// One instant spelled two ways is a tie: which of two decisions wins is up to their authors, and
/// the spelling has no say.
pub proof fn a_tie_goes_to_the_lower_author(a: DecisionV, b: DecisionV)
    requires
        stamp_in(a.created_at) is Some,
        stamp_in(a.created_at) == stamp_in(b.created_at),
        text::before(a.created_by, b.created_by),
    ensures
        beats(a, b),
        !beats(b, a),
{
    beats_is_total_order(a, b, b);
}

/// The decision a record is.
pub open spec fn decision_in(r: RecordV) -> Option<DecisionV> {
    match r {
        RecordV::Decision(d) => Some(d),
        _ => None,
    }
}

/// Whether some tombstone revokes `id`, wherever it stands.
pub open spec fn revoked(records: Seq<RecordV>, id: Seq<char>) -> bool {
    exists|i: int|
        0 <= i < records.len() && ((#[trigger] records[i]) matches RecordV::Tombstone(t)
            && t.revokes == id)
}

/// Whether record `i` is a decision, the first with its id. The same id seen twice is one decision.
pub open spec fn first_of_id(records: Seq<RecordV>, i: int) -> bool {
    &&& 0 <= i < records.len()
    &&& decision_in(records[i]) matches Some(d) && forall|j: int|
        0 <= j < i ==> !((#[trigger] records[j]) matches RecordV::Decision(e) && e.id == d.id)
}

/// Whether record `i` is a decision that stands: the first with its id, and not revoked.
pub open spec fn stands(records: Seq<RecordV>, i: int) -> bool {
    first_of_id(records, i) && !revoked(records, decision_in(records[i])->0.id)
}

/// Decisions with the same key answer the same question: same window, same competitors.
pub open spec fn group_key(d: DecisionV) -> Seq<char> {
    d.window.start + GROUP_SEP@ + d.window.end + GROUP_SEP@ + key_of(d.signature)
}

/// Whether record `i` is a decision that stands and that no other standing answer to the same
/// question beats.
pub open spec fn prevails(records: Seq<RecordV>, i: int) -> bool {
    &&& stands(records, i)
    &&& forall|j: int| #[trigger]
        stands(records, j) && group_key(decision_in(records[j])->0) == group_key(
            decision_in(records[i])->0,
        ) ==> !beats(decision_in(records[j])->0, decision_in(records[i])->0)
}

/// The decisions among the first `n` records that prevail.
pub open spec fn prevailing(records: Seq<RecordV>, n: int) -> Seq<DecisionV>
    decreases n,
{
    if n <= 0 {
        Seq::empty()
    } else if prevails(records, n - 1) {
        prevailing(records, n - 1).push(decision_in(records[n - 1])->0)
    } else {
        prevailing(records, n - 1)
    }
}

/// The effective decisions, sorted by window and then id.
pub open spec fn merged(records: Seq<RecordV>) -> Seq<DecisionV> {
    arranged::<Decision>(prevailing(records, records.len() as int))
}

/// By window, then id.
impl Sortable for Decision {
    open spec fn precedes(a: DecisionV, b: DecisionV) -> bool {
        text::before(a.window.start, b.window.start) || (a.window.start == b.window.start && (
        text::before(a.window.end, b.window.end) || (a.window.end == b.window.end && text::before(
            a.id,
            b.id,
        ))))
    }

    proof fn weak_order(a: DecisionV, b: DecisionV, c: DecisionV) {
        text::before_is_weak_order(a.window.start, b.window.start, c.window.start);
        text::before_is_weak_order(a.window.end, b.window.end, c.window.end);
        text::before_is_weak_order(a.id, b.id, c.id);
    }

    fn sorts_before(&self, other: &Self) -> (r: bool) {
        proof {
            text::before_is_weak_order(
                self.window.start@,
                other.window.start@,
                other.window.start@,
            );
            text::before_is_weak_order(self.window.end@, other.window.end@, other.window.end@);
        }
        if self.window.start != other.window.start {
            text::is_before(self.window.start.as_str(), other.window.start.as_str())
        } else if self.window.end != other.window.end {
            text::is_before(self.window.end.as_str(), other.window.end.as_str())
        } else {
            text::is_before(self.id.as_str(), other.id.as_str())
        }
    }
}

/// The prevailing decisions are those of the records that prevail, each once.
pub proof fn prevailing_sound(records: Seq<RecordV>, n: int)
    requires
        0 <= n <= records.len(),
    ensures
        forall|d: DecisionV| #[trigger]
            prevailing(records, n).contains(d) <==> exists|i: int|
                0 <= i < n && #[trigger] prevails(records, i) && records[i] == RecordV::Decision(d),
        prevailing(records, n).no_duplicates(),
    decreases n,
{
    if n > 0 {
        prevailing_sound(records, n - 1);
        let rest = prevailing(records, n - 1);
        let all = prevailing(records, n);
        if prevails(records, n - 1) {
            let x = decision_in(records[n - 1])->0;
            assert(all == rest.push(x));
            assert(!rest.contains(x)) by {
                if rest.contains(x) {
                    let i = choose|i: int|
                        0 <= i < n - 1 && #[trigger] prevails(records, i) && records[i]
                            == RecordV::Decision(x);
                    assert(records[i] matches RecordV::Decision(e) && e.id == x.id);
                }
            }
            assert forall|d: DecisionV| #[trigger] all.contains(d) <==> exists|i: int|
                0 <= i < n && #[trigger] prevails(records, i) && records[i]
                    == RecordV::Decision(d) by {
                assert(all.contains(d) <==> rest.contains(d) || d == x) by {
                    assert(all[rest.len() as int] == x);
                    if rest.contains(d) {
                        let k = choose|k: int| 0 <= k < rest.len() && rest[k] == d;
                        assert(all[k] == d);
                    }
                }
                if d == x {
                    assert(prevails(records, n - 1));
                }
            }
        }
    }
}

/// What two sequences without repeats hold is the same where each holds what the other does.
proof fn same_contents<A>(a: Seq<A>, b: Seq<A>)
    requires
        a.no_duplicates(),
        b.no_duplicates(),
        forall|x: A| a.contains(x) <==> b.contains(x),
    ensures
        a.to_multiset() == b.to_multiset(),
{
    broadcast use vstd::seq_lib::group_to_multiset_ensures;

    a.lemma_multiset_has_no_duplicates();
    b.lemma_multiset_has_no_duplicates();
    assert forall|x: A| a.to_multiset().count(x) == b.to_multiset().count(x) by {
        assert(a.contains(x) == (a.to_multiset().count(x) > 0));
        assert(b.contains(x) == (b.to_multiset().count(x) > 0));
        if a.contains(x) {
            assert(a.to_multiset().contains(x));
            assert(b.to_multiset().contains(x));
        }
    }
    assert(a.to_multiset() =~= b.to_multiset());
}

/// Decisions with different ids are told apart by their order.
proof fn ids_separate(s: Seq<DecisionV>)
    requires
        forall|x: DecisionV, y: DecisionV|
            s.contains(x) && s.contains(y) && x.id == y.id ==> x == y,
    ensures
        separates::<Decision>(s),
{
    assert forall|x: DecisionV, y: DecisionV|
        s.contains(x) && s.contains(y) && !<Decision as Sortable>::precedes(x, y)
            && !<Decision as Sortable>::precedes(y, x) implies x == y by {
        text::before_is_total_order(x.window.start, y.window.start, y.window.start);
        text::before_is_total_order(x.window.end, y.window.end, y.window.end);
        text::before_is_total_order(x.id, y.id, y.id);
    }
}

fn group_key_of(d: &Decision) -> (r: String)
    ensures
        r@ == group_key(d.deep_view()),
{
    let mut key = d.window.start.clone();
    key.append(GROUP_SEP);
    key.append(d.window.end.as_str());
    key.append(GROUP_SEP);
    key.append(d.signature.match_key().as_str());
    key
}

/// Whether record `i`, a decision, stands.
fn is_standing(records: &Vec<SharedRecord>, i: usize, d: &Decision) -> (r: bool)
    requires
        i < records.len(),
        records[i as int] == SharedRecord::Decision(*d),
    ensures
        r == stands(records.deep_view(), i as int),
{
    let ghost rs = records.deep_view();
    assert(rs[i as int] == RecordV::Decision(d.deep_view()));
    let mut j: usize = 0;
    while j < records.len()
        invariant
            i < records.len(),
            j <= records.len(),
            rs == records.deep_view(),
            rs[i as int] == RecordV::Decision(d.deep_view()),
            forall|k: int|
                0 <= k < j && k < i ==> !((#[trigger] rs[k]) matches RecordV::Decision(e) && e.id
                    == d.id@),
            forall|k: int|
                0 <= k < j ==> !((#[trigger] rs[k]) matches RecordV::Tombstone(t) && t.revokes
                    == d.id@),
        decreases records.len() - j,
    {
        assert(rs[j as int] == records@[j as int].deep_view());
        match &records[j] {
            SharedRecord::Decision(e) => {
                if j < i && e.id == d.id {
                    assert(rs[j as int] matches RecordV::Decision(e) && e.id == d.id@);
                    return false;
                }
            },
            SharedRecord::Tombstone(t) => {
                if t.revokes == d.id {
                    assert(revoked(rs, d.id@));
                    return false;
                }
            },
            SharedRecord::Unknown(_) => {},
        }
        j = j + 1;
    }
    true
}

/// The groups found among the first `n` records: each key once, each with a standing decision
/// that nothing seen so far beats, and every standing decision accounted for.
spec fn groups_sound(records: Seq<RecordV>, groups: Seq<(String, usize)>, n: int) -> bool {
    &&& forall|g: int|
        0 <= g < groups.len() ==> (#[trigger] groups[g]).1 < n && stands(
            records,
            groups[g].1 as int,
        ) && groups[g].0@ == group_key(decision_in(records[groups[g].1 as int])->0)
    &&& forall|g: int, h: int|
        0 <= g < h < groups.len() ==> (#[trigger] groups[g]).0@ != (#[trigger] groups[h]).0@
    &&& forall|j: int|
        0 <= j < n && #[trigger] stands(records, j) ==> exists|g: int|
            0 <= g < groups.len() && (#[trigger] groups[g]).0@ == group_key(
                decision_in(records[j])->0,
            ) && (groups[g].1 == j || beats(
                decision_in(records[groups[g].1 as int])->0,
                decision_in(records[j])->0,
            ))
}

/// Two standing decisions with the same id are one record.
proof fn standing_ids_differ(records: Seq<RecordV>, i: int, j: int)
    requires
        stands(records, i),
        stands(records, j),
        decision_in(records[i])->0.id == decision_in(records[j])->0.id,
    ensures
        i == j,
{
    if i < j {
        assert(records[i] matches RecordV::Decision(e) && e.id == decision_in(records[j])->0.id);
    } else if j < i {
        assert(records[j] matches RecordV::Decision(e) && e.id == decision_in(records[i])->0.id);
    }
}

/// Once every record has been seen, what the groups hold is what prevails.
proof fn groups_prevail(records: Seq<RecordV>, groups: Seq<(String, usize)>, i: int)
    requires
        groups_sound(records, groups, records.len() as int),
    ensures
        prevails(records, i) <==> exists|g: int| 0 <= g < groups.len() && (#[trigger] groups[g]).1 == i,
{
    if prevails(records, i) {
        assert(stands(records, i));
        let g = choose|g: int|
            0 <= g < groups.len() && (#[trigger] groups[g]).0@ == group_key(
                decision_in(records[i])->0,
            ) && (groups[g].1 == i || beats(
                decision_in(records[groups[g].1 as int])->0,
                decision_in(records[i])->0,
            ));
        assert(stands(records, groups[g].1 as int));
    }
    if exists|g: int| 0 <= g < groups.len() && (#[trigger] groups[g]).1 == i {
        let g = choose|g: int| 0 <= g < groups.len() && (#[trigger] groups[g]).1 == i;
        let d = decision_in(records[i])->0;
        assert forall|j: int| #[trigger]
            stands(records, j) && group_key(decision_in(records[j])->0) == group_key(
                d,
            ) implies !beats(decision_in(records[j])->0, d) by {
            let e = decision_in(records[j])->0;
            let h = choose|h: int|
                0 <= h < groups.len() && (#[trigger] groups[h]).0@ == group_key(e) && (
                groups[h].1 == j || beats(decision_in(records[groups[h].1 as int])->0, e));
            assert(h == g) by {
                assert(groups[h].0@ == groups[g].0@);
            }
            beats_is_total_order(d, e, e);
        }
    }
}

/// The effective decisions across every device, given every device's lines one after another.
///
/// A decision revoked by a tombstone is dropped, whichever file the tombstone came from. The rest
/// are grouped by window and match key; within a group the newest `created_at` is kept, ties
/// broken by the lowest `created_by` and then the lowest `id`. The same id seen twice is one
/// decision. The result is sorted by window and then id.
pub fn merge_decisions(records: &Vec<SharedRecord>) -> (r: Vec<Decision>)
    ensures
        r.deep_view() == merged(records.deep_view()),
{
    let ghost rs = records.deep_view();
    assert(rs.len() == records.len());
    let mut groups: Vec<(String, usize)> = Vec::new();
    let mut i: usize = 0;
    while i < records.len()
        invariant
            i <= records.len(),
            rs == records.deep_view(),
            rs.len() == records.len(),
            groups_sound(rs, groups@, i as int),
        decreases records.len() - i,
    {
        assert(rs[i as int] == records@[i as int].deep_view());
        match &records[i] {
            SharedRecord::Decision(d) => {
                if is_standing(records, i, d) {
                    let key = group_key_of(d);
                    let ghost before = groups@;
                    let mut g: usize = 0;
                    let mut found: Option<usize> = None;
                    while g < groups.len() && found.is_none()
                        invariant
                            g <= groups.len(),
                            groups@ == before,
                            match found {
                                Some(f) => f < groups.len() && groups@[f as int].0@ == key@,
                                None => forall|h: int|
                                    0 <= h < g ==> (#[trigger] groups@[h]).0@ != key@,
                            },
                        decreases groups.len() - g,
                    {
                        if groups[g].0 == key {
                            found = Some(g);
                        }
                        g = g + 1;
                    }
                    match found {
                        Some(f) => {
                            let at: usize = groups[f].1;
                            assert(rs[at as int] == records@[at as int].deep_view());
                            match &records[at] {
                                SharedRecord::Decision(held) => {
                                    let ghost dv = d.deep_view();
                                    let ghost hv = held.deep_view();
                                    proof {
                                        beats_is_total_order(dv, hv, hv);
                                        if dv.id == hv.id {
                                            standing_ids_differ(rs, i as int, at as int);
                                        }
                                    }
                                    if wins(d, held) {
                                        groups.set(f, (key, i));
                                        proof {
                                            groups_replaced(rs, before, groups@, i as int, f as int);
                                        }
                                    } else {
                                        proof {
                                            groups_kept(rs, before, i as int, f as int);
                                        }
                                    }
                                },
                                _ => {
                                    assert(false);
                                },
                            }
                        },
                        None => {
                            groups.push((key, i));
                            proof {
                                assert(groups@.drop_last() =~= before);
                                groups_added(rs, before, groups@, i as int);
                            }
                        },
                    }
                } else {
                    assert(!stands(rs, i as int));
                }
            },
            _ => {
                assert(!stands(rs, i as int));
            },
        }
        i = i + 1;
    }
    let mut out: Vec<Decision> = Vec::new();
    let mut g: usize = 0;
    while g < groups.len()
        invariant
            g <= groups.len(),
            rs == records.deep_view(),
            rs.len() == records.len(),
            groups_sound(rs, groups@, rs.len() as int),
            out.deep_view() =~= Seq::new(
                g as nat,
                |h: int| decision_in(rs[groups@[h].1 as int])->0,
            ),
        decreases groups.len() - g,
    {
        let at: usize = groups[g].1;
        assert(stands(rs, groups@[g as int].1 as int));
        assert(rs[at as int] == records@[at as int].deep_view());
        match &records[at] {
            SharedRecord::Decision(d) => {
                list::push(&mut out, d.clone());
            },
            _ => {
                assert(false);
            },
        }
        g = g + 1;
    }
    proof {
        let held = out.deep_view();
        let all = prevailing(rs, rs.len() as int);
        prevailing_sound(rs, rs.len() as int);
        assert forall|d: DecisionV| held.contains(d) <==> all.contains(d) by {
            if held.contains(d) {
                let h = choose|h: int| 0 <= h < held.len() && held[h] == d;
                groups_prevail(rs, groups@, groups@[h].1 as int);
                assert(stands(rs, groups@[h].1 as int));
                assert(prevails(rs, groups@[h].1 as int));
            }
            if all.contains(d) {
                let i = choose|i: int|
                    0 <= i < rs.len() && #[trigger] prevails(rs, i) && rs[i] == RecordV::Decision(d);
                groups_prevail(rs, groups@, i);
                let h = choose|h: int| 0 <= h < groups@.len() && (#[trigger] groups@[h]).1 == i;
                assert(held[h] == d);
            }
        }
        assert(held.no_duplicates()) by {
            assert forall|g: int, h: int| 0 <= g < held.len() && 0 <= h < held.len() && g != h implies held[g]
                != held[h] by {
                assert(groups@[g].0@ != groups@[h].0@);
                assert(stands(rs, groups@[g].1 as int));
                assert(stands(rs, groups@[h].1 as int));
            }
        }
        same_contents(held, all);
        assert forall|x: DecisionV, y: DecisionV|
            held.contains(x) && held.contains(y) && x.id == y.id implies x == y by {
            let i = choose|i: int|
                0 <= i < rs.len() && #[trigger] prevails(rs, i) && rs[i] == RecordV::Decision(x);
            let j = choose|j: int|
                0 <= j < rs.len() && #[trigger] prevails(rs, j) && rs[j] == RecordV::Decision(y);
            assert(all.contains(x) && all.contains(y));
            standing_ids_differ(rs, i, j);
        }
        ids_separate(held);
        arranged_unique::<Decision>(held, all);
    }
    sort(&mut out);
    out
}

proof fn groups_added(
    records: Seq<RecordV>,
    before: Seq<(String, usize)>,
    after: Seq<(String, usize)>,
    i: int,
)
    requires
        groups_sound(records, before, i),
        stands(records, i),
        after.len() == before.len() + 1,
        after.drop_last() == before,
        after.last().1 == i,
        after.last().0@ == group_key(decision_in(records[i])->0),
        forall|h: int| 0 <= h < before.len() ==> (#[trigger] before[h]).0@ != after.last().0@,
    ensures
        groups_sound(records, after, i + 1),
{
    let n = before.len() as int;
    assert forall|g: int| 0 <= g < n implies #[trigger] after[g] == before[g] by {
        assert(after.drop_last()[g] == after[g]);
    }
    assert forall|g: int, h: int| 0 <= g < h < after.len() implies (#[trigger] after[g]).0@ != (
    #[trigger] after[h]).0@ by {
        assert(after[g] == before[g]);
        if h < n {
            assert(after[h] == before[h]);
        }
    }
    assert forall|j: int| 0 <= j < i + 1 && #[trigger] stands(records, j) implies exists|g: int|
        0 <= g < after.len() && (#[trigger] after[g]).0@ == group_key(decision_in(records[j])->0)
            && (after[g].1 == j || beats(
            decision_in(records[after[g].1 as int])->0,
            decision_in(records[j])->0,
        )) by {
        if j == i {
            assert(after[n].1 == i);
        } else {
            let g = choose|g: int|
                0 <= g < before.len() && (#[trigger] before[g]).0@ == group_key(
                    decision_in(records[j])->0,
                ) && (before[g].1 == j || beats(
                    decision_in(records[before[g].1 as int])->0,
                    decision_in(records[j])->0,
                ));
            assert(after[g] == before[g]);
        }
    }
}

proof fn groups_kept(records: Seq<RecordV>, groups: Seq<(String, usize)>, i: int, f: int)
    requires
        groups_sound(records, groups, i),
        stands(records, i),
        0 <= f < groups.len(),
        groups[f].0@ == group_key(decision_in(records[i])->0),
        beats(decision_in(records[groups[f].1 as int])->0, decision_in(records[i])->0),
    ensures
        groups_sound(records, groups, i + 1),
{
    assert forall|j: int| 0 <= j < i + 1 && #[trigger] stands(records, j) implies exists|g: int|
        0 <= g < groups.len() && (#[trigger] groups[g]).0@ == group_key(decision_in(records[j])->0)
            && (groups[g].1 == j || beats(
            decision_in(records[groups[g].1 as int])->0,
            decision_in(records[j])->0,
        )) by {
        if j == i {
            assert(groups[f].0@ == group_key(decision_in(records[j])->0));
        }
    }
}

proof fn groups_replaced(
    records: Seq<RecordV>,
    before: Seq<(String, usize)>,
    after: Seq<(String, usize)>,
    i: int,
    f: int,
)
    requires
        groups_sound(records, before, i),
        stands(records, i),
        0 <= f < before.len(),
        after.len() == before.len(),
        forall|g: int| 0 <= g < before.len() && g != f ==> #[trigger] after[g] == before[g],
        after[f].1 == i,
        after[f].0@ == before[f].0@,
        before[f].0@ == group_key(decision_in(records[i])->0),
        beats(decision_in(records[i])->0, decision_in(records[before[f].1 as int])->0),
    ensures
        groups_sound(records, after, i + 1),
{
    assert forall|g: int, h: int| 0 <= g < h < after.len() implies (#[trigger] after[g]).0@ != (
    #[trigger] after[h]).0@ by {
        assert(before[g].0@ != before[h].0@);
    }
    assert forall|j: int| 0 <= j < i + 1 && #[trigger] stands(records, j) implies exists|g: int|
        0 <= g < after.len() && (#[trigger] after[g]).0@ == group_key(decision_in(records[j])->0)
            && (after[g].1 == j || beats(
            decision_in(records[after[g].1 as int])->0,
            decision_in(records[j])->0,
        )) by {
        if j == i {
            assert(after[f].1 == i);
        } else {
            let g = choose|g: int|
                0 <= g < before.len() && (#[trigger] before[g]).0@ == group_key(
                    decision_in(records[j])->0,
                ) && (before[g].1 == j || beats(
                    decision_in(records[before[g].1 as int])->0,
                    decision_in(records[j])->0,
                ));
            if g == f {
                beats_is_total_order(
                    decision_in(records[i])->0,
                    decision_in(records[before[f].1 as int])->0,
                    decision_in(records[j])->0,
                );
                assert(after[f].1 == i);
            } else {
                assert(after[g] == before[g]);
            }
        }
    }
}

/// No two different decisions share an id.
pub open spec fn ids_are_unique(records: Seq<RecordV>) -> bool {
    forall|d: DecisionV, e: DecisionV|
        #![trigger records.contains(RecordV::Decision(d)), records.contains(RecordV::Decision(e))]
        records.contains(RecordV::Decision(d)) && records.contains(RecordV::Decision(e)) && d.id
            == e.id ==> d == e
}

/// Whether a decision is among the records and not revoked.
spec fn is_live(records: Seq<RecordV>, d: DecisionV) -> bool {
    records.contains(RecordV::Decision(d)) && !revoked(records, d.id)
}

/// Where ids are unique, the standing records are the live decisions.
proof fn live_stands(records: Seq<RecordV>, d: DecisionV)
    requires
        ids_are_unique(records),
    ensures
        is_live(records, d) <==> exists|i: int|
            #[trigger] stands(records, i) && records[i] == RecordV::Decision(d),
{
    if is_live(records, d) {
        let k = choose|k: int| 0 <= k < records.len() && records[k] == RecordV::Decision(d);
        let i = first_with(records, d, k);
        assert(stands(records, i));
    }
    if exists|i: int| #[trigger] stands(records, i) && records[i] == RecordV::Decision(d) {
        let i = choose|i: int| #[trigger] stands(records, i) && records[i] == RecordV::Decision(d);
        assert(records.contains(records[i]));
    }
}

proof fn first_with(records: Seq<RecordV>, d: DecisionV, k: int) -> (i: int)
    requires
        ids_are_unique(records),
        0 <= k < records.len(),
        records[k] == RecordV::Decision(d),
    ensures
        first_of_id(records, i),
        records[i] == RecordV::Decision(d),
    decreases k,
{
    if first_of_id(records, k) {
        k
    } else {
        let j = choose|j: int|
            0 <= j < k && ((#[trigger] records[j]) matches RecordV::Decision(e) && e.id == d.id);
        let e = decision_in(records[j])->0;
        assert(records.contains(RecordV::Decision(e))) by {
            assert(records[j] == RecordV::Decision(e));
        }
        assert(records.contains(RecordV::Decision(d)));
        first_with(records, d, j)
    }
}

/// Where ids are unique, what prevails is what is live and beaten by no live answer to the same
/// question.
proof fn prevails_by_value(records: Seq<RecordV>, d: DecisionV)
    requires
        ids_are_unique(records),
    ensures
        prevailing(records, records.len() as int).contains(d) <==> is_live(records, d) && forall|
            e: DecisionV,
        | #[trigger]
            is_live(records, e) && group_key(e) == group_key(d) ==> !beats(e, d),
{
    prevailing_sound(records, records.len() as int);
    live_stands(records, d);
    if prevailing(records, records.len() as int).contains(d) {
        let i = choose|i: int|
            0 <= i < records.len() && #[trigger] prevails(records, i) && records[i]
                == RecordV::Decision(d);
        assert(stands(records, i));
        assert forall|e: DecisionV| #[trigger]
            is_live(records, e) && group_key(e) == group_key(d) implies !beats(e, d) by {
            live_stands(records, e);
            let j = choose|j: int| #[trigger] stands(records, j) && records[j] == RecordV::Decision(e);
            assert(!beats(decision_in(records[j])->0, d));
        }
    }
    if is_live(records, d) && forall|e: DecisionV| #[trigger]
        is_live(records, e) && group_key(e) == group_key(d) ==> !beats(e, d) {
        let i = choose|i: int| #[trigger] stands(records, i) && records[i] == RecordV::Decision(d);
        assert(prevails(records, i)) by {
            assert forall|j: int| #[trigger]
                stands(records, j) && group_key(decision_in(records[j])->0) == group_key(
                    d,
                ) implies !beats(decision_in(records[j])->0, d) by {
                let e = decision_in(records[j])->0;
                assert(records[j] == RecordV::Decision(e));
                live_stands(records, e);
                assert(is_live(records, e));
            }
        }
    }
}

proof fn prevailing_ids(records: Seq<RecordV>)
    ensures
        separates::<Decision>(prevailing(records, records.len() as int)),
        prevailing(records, records.len() as int).no_duplicates(),
{
    let s = prevailing(records, records.len() as int);
    prevailing_sound(records, records.len() as int);
    assert forall|x: DecisionV, y: DecisionV|
        s.contains(x) && s.contains(y) && x.id == y.id implies x == y by {
        let i = choose|i: int|
            0 <= i < records.len() && #[trigger] prevails(records, i) && records[i]
                == RecordV::Decision(x);
        let j = choose|j: int|
            0 <= j < records.len() && #[trigger] prevails(records, j) && records[j]
                == RecordV::Decision(y);
        standing_ids_differ(records, i, j);
    }
    ids_separate(s);
}

/// The merge depends only on which lines there are: neither on the order in which the devices'
/// files are read, nor on how often a line is repeated. Every device that holds the same lines
/// reaches the same decisions, in the same order.
pub proof fn merge_depends_only_on_the_lines(a: Seq<RecordV>, b: Seq<RecordV>)
    requires
        forall|r: RecordV| #[trigger] a.contains(r) <==> b.contains(r),
        ids_are_unique(a),
    ensures
        merged(a) == merged(b),
{
    assert(ids_are_unique(b)) by {
        assert forall|d: DecisionV, e: DecisionV|
            #![trigger b.contains(RecordV::Decision(d)), b.contains(RecordV::Decision(e))]
            b.contains(RecordV::Decision(d)) && b.contains(RecordV::Decision(e)) && d.id
                == e.id implies d == e by {
            assert(a.contains(RecordV::Decision(d)));
            assert(a.contains(RecordV::Decision(e)));
        }
    }
    assert forall|id: Seq<char>| revoked(a, id) == revoked(b, id) by {
        revoked_by_line(a, b, id);
        revoked_by_line(b, a, id);
    }
    assert forall|d: DecisionV| is_live(a, d) == is_live(b, d) by {
        assert(a.contains(RecordV::Decision(d)) == b.contains(RecordV::Decision(d)));
    }
    let x = prevailing(a, a.len() as int);
    let y = prevailing(b, b.len() as int);
    prevailing_ids(a);
    prevailing_ids(b);
    assert forall|d: DecisionV| x.contains(d) <==> y.contains(d) by {
        prevails_by_value(a, d);
        prevails_by_value(b, d);
    }
    same_contents(x, y);
    arranged_unique::<Decision>(x, y);
}

proof fn revoked_by_line(a: Seq<RecordV>, b: Seq<RecordV>, id: Seq<char>)
    requires
        forall|r: RecordV| #[trigger] a.contains(r) ==> b.contains(r),
    ensures
        revoked(a, id) ==> revoked(b, id),
{
    if revoked(a, id) {
        let i = choose|i: int|
            0 <= i < a.len() && ((#[trigger] a[i]) matches RecordV::Tombstone(t) && t.revokes == id);
        assert(a.contains(a[i]));
        let j = choose|j: int| 0 <= j < b.len() && b[j] == a[i];
        assert(b[j] matches RecordV::Tombstone(t) && t.revokes == id);
    }
}

/// Every effective decision is one of the lines, is revoked by none of them, and is beaten by no
/// other standing answer to the same question; every standing decision that nothing beats is
/// effective; and no id occurs twice.
pub proof fn merge_keeps_what_stands(records: Seq<RecordV>)
    ensures
        forall|d: DecisionV| #[trigger]
            merged(records).contains(d) ==> records.contains(RecordV::Decision(d)) && !revoked(
                records,
                d.id,
            ),
        forall|i: int| #[trigger]
            stands(records, i) ==> exists|d: DecisionV| #[trigger]
                merged(records).contains(d) && group_key(d) == group_key(
                    decision_in(records[i])->0,
                ) && !beats(decision_in(records[i])->0, d),
        forall|d: DecisionV, i: int|
            #![trigger merged(records).contains(d), stands(records, i)]
            merged(records).contains(d) && stands(records, i) && group_key(
                decision_in(records[i])->0,
            ) == group_key(d) ==> !beats(decision_in(records[i])->0, d),
        forall|i: int, j: int|
            0 <= i < j < merged(records).len() ==> (#[trigger] merged(records)[i]).id != (
            #[trigger] merged(records)[j]).id,
{
    let s = prevailing(records, records.len() as int);
    prevailing_sound(records, records.len() as int);
    assert forall|d: DecisionV| #[trigger] merged(records).contains(d) implies records.contains(
        RecordV::Decision(d),
    ) && !revoked(records, d.id) by {
        arranged_contains::<Decision>(s, d);
        let i = choose|i: int|
            0 <= i < records.len() && #[trigger] prevails(records, i) && records[i]
                == RecordV::Decision(d);
        assert(records.contains(records[i]));
    }
    assert forall|i: int| #[trigger] stands(records, i) implies exists|d: DecisionV| #[trigger]
        merged(records).contains(d) && group_key(d) == group_key(decision_in(records[i])->0)
            && !beats(decision_in(records[i])->0, d) by {
        let w = best_in_group(records, i, records.len() as int);
        let d = decision_in(records[w])->0;
        assert(prevails(records, w)) by {
            assert forall|j: int| #[trigger]
                stands(records, j) && group_key(decision_in(records[j])->0) == group_key(
                    d,
                ) implies !beats(decision_in(records[j])->0, d) by {}
        }
        assert(records[w] == RecordV::Decision(d));
        assert(s.contains(d));
        arranged_contains::<Decision>(s, d);
    }
    assert forall|d: DecisionV, i: int|
        #![trigger merged(records).contains(d), stands(records, i)]
        merged(records).contains(d) && stands(records, i) && group_key(decision_in(records[i])->0)
            == group_key(d) implies !beats(decision_in(records[i])->0, d) by {
        arranged_contains::<Decision>(s, d);
        let k = choose|k: int|
            0 <= k < records.len() && #[trigger] prevails(records, k) && records[k]
                == RecordV::Decision(d);
        assert(decision_in(records[k])->0 == d);
    }
    let m = merged(records);
    arranged_keeps::<Decision>(s);
    s.lemma_multiset_has_no_duplicates();
    m.lemma_multiset_has_no_duplicates_conv();
    assert forall|i: int, j: int| 0 <= i < j < m.len() implies (#[trigger] m[i]).id != (
    #[trigger] m[j]).id by {
        arranged_contains::<Decision>(s, m[i]);
        arranged_contains::<Decision>(s, m[j]);
        assert(m.contains(m[i]) && m.contains(m[j]));
        if m[i].id == m[j].id {
            let a = choose|a: int|
                0 <= a < records.len() && #[trigger] prevails(records, a) && records[a]
                    == RecordV::Decision(m[i]);
            let b = choose|b: int|
                0 <= b < records.len() && #[trigger] prevails(records, b) && records[b]
                    == RecordV::Decision(m[j]);
            standing_ids_differ(records, a, b);
        }
    }
}

/// A standing answer to the same question as `i` that none of the first `n` beats.
proof fn best_in_group(records: Seq<RecordV>, i: int, n: int) -> (w: int)
    requires
        stands(records, i),
        0 <= n <= records.len(),
    ensures
        stands(records, w),
        group_key(decision_in(records[w])->0) == group_key(decision_in(records[i])->0),
        forall|j: int|
            0 <= j < n && #[trigger] stands(records, j) && group_key(decision_in(records[j])->0)
                == group_key(decision_in(records[i])->0) ==> !beats(
                decision_in(records[j])->0,
                decision_in(records[w])->0,
            ),
        !beats(decision_in(records[i])->0, decision_in(records[w])->0),
    decreases n,
{
    if n == 0 {
        beats_is_total_order(
            decision_in(records[i])->0,
            decision_in(records[i])->0,
            decision_in(records[i])->0,
        );
        i
    } else {
        let w = best_in_group(records, i, n - 1);
        let d = decision_in(records[w])->0;
        let e = decision_in(records[n - 1])->0;
        if stands(records, n - 1) && group_key(e) == group_key(d) && beats(e, d) {
            assert forall|j: int|
                0 <= j < n && #[trigger] stands(records, j) && group_key(
                    decision_in(records[j])->0,
                ) == group_key(decision_in(records[i])->0) implies !beats(
                decision_in(records[j])->0,
                e,
            ) by {
                beats_is_total_order(decision_in(records[j])->0, e, d);
                beats_is_total_order(e, e, e);
            }
            beats_is_total_order(decision_in(records[i])->0, e, d);
            n - 1
        } else {
            w
        }
    }
}

/// The participants among the first `n` items of a list: those that are objects.
pub open spec fn participants_in(items: Seq<Json>, n: int) -> Seq<ParticipantV>
    decreases n,
{
    if n <= 0 {
        Seq::empty()
    } else {
        let rest = participants_in(items, n - 1);
        if items[n - 1] is Object {
            rest.push(
                ParticipantV {
                    device_role: text_at(items[n - 1], "device_role"@),
                    device_uuid: text_at(items[n - 1], "device_uuid"@),
                    app: text_at(items[n - 1], "app"@),
                    category: text_at(items[n - 1], "category"@),
                },
            )
        } else {
            rest
        }
    }
}

/// The items of a JSON list; nothing for any other value.
pub open spec fn items_of(json: Json) -> Option<Seq<Json>> {
    match json {
        Json::List(items) => Some(items@),
        _ => None,
    }
}

/// The items of the list that is member `key` of an optional value.
pub open spec fn items_at(json: Option<Json>, key: Seq<char>) -> Option<Seq<Json>> {
    match json {
        Some(j) => match member(j, key) {
            Some(v) => items_of(v),
            None => None,
        },
        None => None,
    }
}

/// The signature a JSON value writes. What is no signature has no participants.
pub open spec fn signature_in(json: Option<Json>) -> Seq<ParticipantV> {
    arranged::<Participant>(
        match items_at(json, "participants"@) {
            Some(items) => participants_in(items, items.len() as int),
            None => Seq::empty(),
        },
    )
}

/// The texts among the first `n` items that are not empty.
pub open spec fn filled_texts(items: Seq<Json>, n: int) -> Seq<Seq<char>>
    decreases n,
{
    if n <= 0 {
        Seq::empty()
    } else {
        let rest = filled_texts(items, n - 1);
        match text_of(items[n - 1]) {
            Some(t) => if t.len() > 0 {
                rest.push(t)
            } else {
                rest
            },
            None => rest,
        }
    }
}

/// The pick a JSON value writes, where it is an object.
pub open spec fn pick_in(json: Option<Json>) -> Option<PickV> {
    match json {
        Some(f) => if f is Object {
            Some(
                PickV {
                    device_role: text_at(f, "device_role"@),
                    device_uuid: text_at(f, "device_uuid"@),
                    app: text_at(f, "app"@),
                },
            )
        } else {
            None
        },
        None => None,
    }
}

/// The resolution a JSON value writes. What is no object decides nothing.
pub open spec fn resolution_in(json: Option<Json>) -> ResolutionV {
    match json {
        Some(j) => if j is Object {
            ResolutionV {
                outcome: text_at(j, "outcome"@),
                foreground: pick_in(member(j, "foreground"@)),
                label: if text_at(j, "label"@).len() > 0 {
                    Some(text_at(j, "label"@))
                } else {
                    None
                },
                deliberate_background: match items_at(json, "deliberate_background"@) {
                    Some(items) => filled_texts(items, items.len() as int),
                    None => Seq::empty(),
                },
            }
        } else {
            undecided()
        },
        None => undecided(),
    }
}

pub open spec fn undecided() -> ResolutionV {
    ResolutionV {
        outcome: Seq::empty(),
        foreground: None,
        label: None,
        deliberate_background: Seq::empty(),
    }
}

/// The decision a JSON value writes: it needs an id and a window. A scope that is missing is
/// `once`.
pub open spec fn decision_of(json: Json) -> Option<DecisionV> {
    match member(json, "window"@) {
        Some(window) => if text_at(json, "id"@).len() > 0 {
            Some(
                DecisionV {
                    id: text_at(json, "id"@),
                    created_at: text_at(json, "created_at"@),
                    created_by: text_at(json, "created_by"@),
                    window: WindowV {
                        start: text_at(window, "start"@),
                        end: text_at(window, "end"@),
                    },
                    signature: signature_in(member(json, "signature"@)),
                    resolution: resolution_in(member(json, "resolution"@)),
                    scope: if text_at(json, "scope"@).len() > 0 {
                        text_at(json, "scope"@)
                    } else {
                        SCOPE_ONCE@
                    },
                },
            )
        } else {
            None
        },
        None => None,
    }
}

/// The tombstone a JSON value writes. One that revokes nothing is none.
pub open spec fn tombstone_of(json: Json) -> Option<TombstoneV> {
    if text_at(json, "id"@).len() > 0 && text_at(json, "revokes"@).len() > 0 {
        Some(
            TombstoneV {
                id: text_at(json, "id"@),
                created_at: text_at(json, "created_at"@),
                created_by: text_at(json, "created_by"@),
                revokes: text_at(json, "revokes"@),
            },
        )
    } else {
        None
    }
}

/// The record a line is, given the JSON value it writes if it writes one. A line that is not
/// understood is kept verbatim.
pub open spec fn record_of(json: Option<Json>, line: Seq<char>) -> RecordV {
    match json {
        Some(j) => if j is Object && text_at(j, "type"@) == "decision"@ {
            match decision_of(j) {
                Some(d) => RecordV::Decision(d),
                None => RecordV::Unknown(line),
            }
        } else if j is Object && text_at(j, "type"@) == "tombstone"@ {
            match tombstone_of(j) {
                Some(t) => RecordV::Tombstone(t),
                None => RecordV::Unknown(line),
            }
        } else {
            RecordV::Unknown(line)
        },
        None => RecordV::Unknown(line),
    }
}

/// The JSON value a text writes.
pub open spec fn value_in(text: Seq<char>) -> Option<Json> {
    match document(text) {
        Some(d) => Some(d.value),
        None => None,
    }
}

/// The record a line is; nothing for a blank line.
pub open spec fn line_record(line: Seq<char>) -> Option<RecordV> {
    let t = text::trimmed(line);
    if t.len() == 0 {
        None
    } else {
        Some(record_of(value_in(t), t))
    }
}

/// The records of the first `n` lines.
pub open spec fn line_records(lines: Seq<Seq<char>>, n: int) -> Seq<RecordV>
    decreases n,
{
    if n <= 0 {
        Seq::empty()
    } else {
        match line_record(lines[n - 1]) {
            Some(r) => line_records(lines, n - 1).push(r),
            None => line_records(lines, n - 1),
        }
    }
}

/// The list that is member `key`.
fn list_at<'a>(json: &'a Json, key: &str) -> (r: Option<&'a Vec<Json>>)
    ensures
        match r {
            Some(items) => items_at(Some(*json), key@) == Some(items@),
            None => items_at(Some(*json), key@) is None,
        },
{
    match json.get(key) {
        Some(v) => match v {
            Json::List(items) => Some(items),
            _ => None,
        },
        None => None,
    }
}

fn parse_signature(json: Option<&Json>) -> (r: Signature)
    ensures
        r.deep_view() == signature_in(
            match json {
                Some(j) => Some(*j),
                None => None,
            },
        ),
{
    let mut participants: Vec<Participant> = Vec::new();
    assert(participants.deep_view() =~= Seq::empty());
    match json {
        Some(j) => match list_at(j, "participants") {
            Some(items) => {
                let mut i: usize = 0;
                while i < items.len()
                    invariant
                        i <= items.len(),
                        participants.deep_view() == participants_in(items@, i as int),
                    decreases items.len() - i,
                {
                    if items[i].is_object() {
                        list::push(
                            &mut participants,
                            Participant {
                                device_role: items[i].text("device_role"),
                                device_uuid: items[i].text("device_uuid"),
                                app: items[i].text("app"),
                                category: items[i].text("category"),
                            },
                        );
                    }
                    i = i + 1;
                }
            },
            None => {},
        },
        None => {},
    }
    Signature::of(participants)
}

fn parse_pick(json: Option<&Json>) -> (r: Option<ForegroundPick>)
    ensures
        r.deep_view() == pick_in(
            match json {
                Some(j) => Some(*j),
                None => None,
            },
        ),
{
    match json {
        Some(f) => if f.is_object() {
            Some(
                ForegroundPick {
                    device_role: f.text("device_role"),
                    device_uuid: f.text("device_uuid"),
                    app: f.text("app"),
                },
            )
        } else {
            None
        },
        None => None,
    }
}

fn parse_resolution(json: Option<&Json>) -> (r: Resolution)
    ensures
        r.deep_view() == resolution_in(
            match json {
                Some(j) => Some(*j),
                None => None,
            },
        ),
{
    let mut background: Vec<String> = Vec::new();
    assert(background.deep_view() =~= Seq::empty());
    match json {
        Some(j) => if j.is_object() {
            let outcome = j.text("outcome");
            let foreground = parse_pick(j.get("foreground"));
            let label = j.text("label");
            match list_at(j, "deliberate_background") {
                Some(items) => {
                    let mut i: usize = 0;
                    while i < items.len()
                        invariant
                            i <= items.len(),
                            background.deep_view() == filled_texts(items@, i as int),
                        decreases items.len() - i,
                    {
                        match items[i].as_text() {
                            Some(t) => if !t.as_str().is_empty() {
                                list::push(&mut background, t.clone());
                            },
                            None => {},
                        }
                        i = i + 1;
                    }
                },
                None => {},
            }
            Resolution {
                outcome,
                foreground,
                label: if label.as_str().is_empty() {
                    None
                } else {
                    Some(label)
                },
                deliberate_background: background,
            }
        } else {
            Resolution {
                outcome: String::new(),
                foreground: None,
                label: None,
                deliberate_background: background,
            }
        },
        None => Resolution {
            outcome: String::new(),
            foreground: None,
            label: None,
            deliberate_background: background,
        },
    }
}

fn parse_decision(json: &Json) -> (r: Option<Decision>)
    ensures
        r.deep_view() == decision_of(*json),
{
    let id = json.text("id");
    if id.as_str().is_empty() {
        return None;
    }
    let scope = json.text("scope");
    match json.get("window") {
        Some(window) => Some(
            Decision {
                id,
                created_at: json.text("created_at"),
                created_by: json.text("created_by"),
                window: TimeWindow { start: window.text("start"), end: window.text("end") },
                signature: parse_signature(json.get("signature")),
                resolution: parse_resolution(json.get("resolution")),
                scope: if scope.as_str().is_empty() {
                    SCOPE_ONCE.to_owned()
                } else {
                    scope
                },
            },
        ),
        None => None,
    }
}

fn parse_tombstone(json: &Json) -> (r: Option<Tombstone>)
    ensures
        r.deep_view() == tombstone_of(*json),
{
    let id = json.text("id");
    let revokes = json.text("revokes");
    if id.as_str().is_empty() || revokes.as_str().is_empty() {
        return None;
    }
    Some(
        Tombstone {
            id,
            created_at: json.text("created_at"),
            created_by: json.text("created_by"),
            revokes,
        },
    )
}

/// The record a line is, given the JSON value it writes, if it writes one. Anything that is no
/// decision and no tombstone is kept verbatim: a line from a newer build, or a half-written one.
pub fn record_from(json: Option<&Json>, line: &str) -> (r: SharedRecord)
    ensures
        r.deep_view() == record_of(
            match json {
                Some(j) => Some(*j),
                None => None,
            },
            line@,
        ),
{
    match json {
        Some(j) => if j.is_object() {
            let kind = j.text("type");
            if text::same(kind.as_str(), "decision") {
                match parse_decision(j) {
                    Some(d) => {
                        return SharedRecord::Decision(d);
                    },
                    None => {},
                }
            } else if text::same(kind.as_str(), "tombstone") {
                match parse_tombstone(j) {
                    Some(t) => {
                        return SharedRecord::Tombstone(t);
                    },
                    None => {},
                }
            }
        },
        None => {},
    }
    SharedRecord::Unknown(line.to_owned())
}

/// Read one line. `None` only for a blank line.
pub fn parse_line(line: &str) -> (r: Option<SharedRecord>)
    ensures
        r.deep_view() == line_record(line@),
{
    let trimmed = text::trim(line);
    if trimmed.as_str().is_empty() {
        return None;
    }
    match read_document(trimmed.as_str()) {
        Some(d) => Some(record_from(Some(&d.value), trimmed.as_str())),
        None => Some(record_from(None, trimmed.as_str())),
    }
}

/// Read one file. Blank lines carry nothing and are dropped; everything else becomes a record.
pub fn parse_records(text: &str) -> (r: Vec<SharedRecord>)
    ensures
        r.deep_view() == line_records(text::lines_of(text@), text::lines_of(text@).len() as int),
{
    let lines = text::lines(text);
    let ghost ls = lines.deep_view();
    assert(ls.len() == lines.len());
    let mut out: Vec<SharedRecord> = Vec::new();
    assert(out.deep_view() =~= Seq::empty());
    let mut i: usize = 0;
    while i < lines.len()
        invariant
            i <= lines.len(),
            ls == lines.deep_view(),
            out.deep_view() == line_records(ls, i as int),
        decreases lines.len() - i,
    {
        assert(ls[i as int] == lines@[i as int]@);
        match parse_line(lines[i].as_str()) {
            Some(record) => {
                list::push(&mut out, record);
            },
            None => {},
        }
        i = i + 1;
    }
    out
}

} // verus!
