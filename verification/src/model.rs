//! The types of the pipeline, and the mathematical model of each.

use vstd::prelude::*;

use crate::decision::{Decision, DecisionV};
use crate::exclude::{NotCountedRule, RuleV};
use crate::json::{document, read_document, text_of, Json, Member};
use crate::list;
use crate::order::{in_order, Sortable};
use crate::text;
use crate::textmap::TextMap;
use crate::time::{in_range, Duration, Instant, Span, SpanV};

verus! {

/// What an event says of itself: a JSON object, held as the compact text it is written with and
/// the string members among its fields, which are all that any rule here reads.
#[derive(Debug, PartialEq, Eq)]
pub struct Data {
    pub text: String,
    pub strings: Vec<(String, String)>,
}

#[verifier::ext_equal]
pub struct DataV {
    pub text: Seq<char>,
    pub strings: Seq<(Seq<char>, Seq<char>)>,
}

impl DeepView for Data {
    type V = DataV;

    open spec fn deep_view(&self) -> DataV {
        DataV { text: self.text@, strings: self.strings.deep_view() }
    }
}

/// The string members among the first `n` members.
pub open spec fn string_members(members: Seq<Member>, n: int) -> Seq<(Seq<char>, Seq<char>)>
    decreases n,
{
    if n <= 0 {
        Seq::empty()
    } else {
        let rest = string_members(members, n - 1);
        match text_of(members[n - 1].value) {
            Some(s) => rest.push((members[n - 1].key@, s)),
            None => rest,
        }
    }
}

/// The data that a JSON value written as `compact` is: nothing where it is no object.
pub open spec fn data_in(value: Json, compact: Seq<char>) -> Option<DataV> {
    match value {
        Json::Object(members) => Some(
            DataV { text: compact, strings: string_members(members@, members@.len() as int) },
        ),
        _ => None,
    }
}

/// The data that a JSON text writes: nothing where it writes no object.
pub open spec fn data_from(text: Seq<char>) -> Option<DataV> {
    match document(text) {
        Some(d) => data_in(d.value, d.compact@),
        None => None,
    }
}

/// The first value under `key` from position `i` on.
pub open spec fn string_from(
    strings: Seq<(Seq<char>, Seq<char>)>,
    key: Seq<char>,
    i: int,
) -> Option<Seq<char>>
    decreases strings.len() - i,
{
    if i < 0 || i >= strings.len() {
        None
    } else if strings[i].0 == key {
        Some(strings[i].1)
    } else {
        string_from(strings, key, i + 1)
    }
}

/// The string field `key` of an event's data.
pub open spec fn string_at(data: DataV, key: Seq<char>) -> Option<Seq<char>> {
    string_from(data.strings, key, 0)
}

/// The first of the three fields `app`, `title` and `url` that holds a text, or `(unknown)`.
pub open spec fn label(data: DataV) -> Seq<char> {
    match filled(data, "app"@) {
        Some(s) => s,
        None => match filled(data, "title"@) {
            Some(s) => s,
            None => match filled(data, "url"@) {
                Some(s) => s,
                None => "(unknown)"@,
            },
        },
    }
}

/// The string field `key` where it is not empty.
pub open spec fn filled(data: DataV, key: Seq<char>) -> Option<Seq<char>> {
    match string_at(data, key) {
        Some(s) => if s.len() > 0 {
            Some(s)
        } else {
            None
        },
        None => None,
    }
}

impl Clone for Data {
    fn clone(&self) -> (r: Data)
        ensures
            r.deep_view() == self.deep_view(),
    {
        let mut strings: Vec<(String, String)> = Vec::new();
        let mut i: usize = 0;
        while i < self.strings.len()
            invariant
                i <= self.strings.len(),
                strings.deep_view() == self.strings.deep_view().take(i as int),
            decreases self.strings.len() - i,
        {
            assert(self.strings.deep_view()[i as int] == self.strings@[i as int].deep_view());
            list::push(&mut strings, (self.strings[i].0.clone(), self.strings[i].1.clone()));
            i = i + 1;
            assert(strings.deep_view() =~= self.strings.deep_view().take(i as int));
        }
        assert(strings.deep_view() =~= self.strings.deep_view());
        Data { text: self.text.clone(), strings }
    }
}

/// Whether a negative zero is written at `i`: the one number that compares equal to another that is
/// written otherwise.
pub open spec fn negative_zero(s: Seq<char>, i: int) -> bool {
    i + 3 < s.len() && s[i] == '-' && s[i + 1] == '0' && s[i + 2] == '.' && s[i + 3] == '0' && !(i + 4
        < s.len() && (text::digit(s[i + 4]) || s[i + 4] == 'e'))
}

/// A compact JSON text from `i` on, with every negative zero written as zero. Inside a text, that is
/// where `quoted`, nothing is a number.
pub open spec fn unsigned_zeros(s: Seq<char>, i: int, quoted: bool) -> Seq<char>
    decreases s.len() - i,
{
    if i < 0 || i >= s.len() {
        Seq::empty()
    } else if quoted && s[i] == '\\' && i + 1 < s.len() {
        seq![s[i], s[i + 1]] + unsigned_zeros(s, i + 2, true)
    } else if s[i] == '"' {
        seq![s[i]] + unsigned_zeros(s, i + 1, !quoted)
    } else if !quoted && negative_zero(s, i) {
        unsigned_zeros(s, i + 1, false)
    } else {
        seq![s[i]] + unsigned_zeros(s, i + 1, quoted)
    }
}

/// Whether two events say the same of themselves: the same values under the same names, the two
/// zeros being one value.
pub open spec fn same_data(a: DataV, b: DataV) -> bool {
    unsigned_zeros(a.text, 0, false) == unsigned_zeros(b.text, 0, false) && a.strings == b.strings
}

/// A compact JSON text with every negative zero written as zero.
fn without_signs(s: &str) -> (r: Vec<char>)
    ensures
        r@ == unsigned_zeros(s@, 0, false),
{
    let cs = text::characters(s);
    let n: usize = cs.len();
    let mut out: Vec<char> = Vec::new();
    let mut quoted: bool = false;
    let mut i: usize = 0;
    assert(out@ + unsigned_zeros(cs@, 0, false) =~= unsigned_zeros(cs@, 0, false));
    while i < n
        invariant
            n == cs.len(),
            cs@ == s@,
            i <= n,
            out@ + unsigned_zeros(cs@, i as int, quoted) == unsigned_zeros(cs@, 0, false),
        decreases n - i,
    {
        let ghost so_far = out@;
        let c: char = cs[i];
        let ghost rest = unsigned_zeros(cs@, i as int, quoted);
        if quoted && c == '\\' && n - i > 1 {
            out.push(c);
            out.push(cs[i + 1]);
            assert(so_far + rest =~= out@ + unsigned_zeros(cs@, i + 2, true));
            i = i + 2;
        } else if c == '"' {
            out.push(c);
            assert(so_far + rest =~= out@ + unsigned_zeros(cs@, i + 1, !quoted));
            quoted = !quoted;
            i = i + 1;
        } else if !quoted && c == '-' && n - i > 3 && cs[i + 1] == '0' && cs[i + 2] == '.' && cs[i
            + 3] == '0' && !(n - i > 4 && (('0' <= cs[i + 4] && cs[i + 4] <= '9') || cs[i + 4]
            == 'e')) {
            i = i + 1;
        } else {
            out.push(c);
            assert(so_far + rest =~= out@ + unsigned_zeros(cs@, i + 1, quoted));
            i = i + 1;
        }
    }
    assert(out@ + unsigned_zeros(cs@, n as int, quoted) =~= out@);
    out
}

impl Data {
    /// The data a JSON value is, given the compact text it is written with.
    pub fn of(value: &Json, compact: &String) -> (r: Option<Data>)
        ensures
            r.deep_view() == data_in(*value, compact@),
    {
        match value {
            Json::Object(members) => {
                let mut strings: Vec<(String, String)> = Vec::new();
                let mut i: usize = 0;
                assert(strings.deep_view() =~= Seq::empty());
                while i < members.len()
                    invariant
                        i <= members.len(),
                        strings.deep_view() == string_members(members@, i as int),
                    decreases members.len() - i,
                {
                    match members[i].value.as_text() {
                        Some(s) => {
                            list::push(&mut strings, (members[i].key.clone(), s.clone()));
                        },
                        None => {},
                    }
                    i = i + 1;
                }
                Some(Data { text: compact.clone(), strings })
            },
            _ => None,
        }
    }

    /// Read an event's data from JSON text. `None` where the text is no JSON object.
    pub fn parse(text: &str) -> (r: Option<Data>)
        ensures
            r.deep_view() == data_from(text@),
    {
        match read_document(text) {
            Some(d) => Data::of(&d.value, &d.compact),
            None => None,
        }
    }

    /// The string field `key`.
    pub fn get(&self, key: &str) -> (r: Option<&String>)
        ensures
            match r {
                Some(s) => string_at(self.deep_view(), key@) == Some(s@),
                None => string_at(self.deep_view(), key@) is None,
            },
    {
        let mut i: usize = 0;
        while i < self.strings.len()
            invariant
                i <= self.strings.len(),
                string_at(self.deep_view(), key@) == string_from(
                    self.strings.deep_view(),
                    key@,
                    i as int,
                ),
            decreases self.strings.len() - i,
        {
            assert(self.strings.deep_view()[i as int] == self.strings@[i as int].deep_view());
            if text::same(self.strings[i].0.as_str(), key) {
                return Some(&self.strings[i].1);
            }
            i = i + 1;
        }
        None
    }

    /// Whether two events say the same of themselves.
    pub fn same(&self, other: &Data) -> (r: bool)
        ensures
            r == same_data(self.deep_view(), other.deep_view()),
    {
        if self.text != other.text {
            let a = without_signs(self.text.as_str());
            let b = without_signs(other.text.as_str());
            if !list::same_characters(&a, &b) {
                return false;
            }
        }
        if self.strings.len() != other.strings.len() {
            assert(self.strings.deep_view().len() == self.strings.len());
            assert(other.strings.deep_view().len() == other.strings.len());
            return false;
        }
        let mut i: usize = 0;
        while i < self.strings.len()
            invariant
                i <= self.strings.len(),
                self.strings.len() == other.strings.len(),
                forall|j: int|
                    0 <= j < i ==> self.strings.deep_view()[j] == other.strings.deep_view()[j],
            decreases self.strings.len() - i,
        {
            assert(self.strings.deep_view()[i as int] == self.strings@[i as int].deep_view());
            assert(other.strings.deep_view()[i as int] == other.strings@[i as int].deep_view());
            if self.strings[i].0 != other.strings[i].0 || self.strings[i].1 != other.strings[i].1 {
                return false;
            }
            i = i + 1;
        }
        assert(self.strings.deep_view() =~= other.strings.deep_view());
        true
    }
}

/// Whether fields `a` come strictly before fields `b`, both read from position `i` on: at the first
/// position where they differ the lower name comes first, then the lower value, and a list comes
/// before its own extensions.
pub open spec fn fields_before(
    a: Seq<(Seq<char>, Seq<char>)>,
    b: Seq<(Seq<char>, Seq<char>)>,
    i: int,
) -> bool
    decreases b.len() - i,
{
    if i < 0 || i >= b.len() {
        false
    } else if i >= a.len() {
        true
    } else if a[i] == b[i] {
        fields_before(a, b, i + 1)
    } else {
        text::before(a[i].0, b[i].0) || (a[i].0 == b[i].0 && text::before(a[i].1, b[i].1))
    }
}

/// Whether data `a` comes strictly before data `b`: by the text it is written with, then field by
/// field.
pub open spec fn data_before(a: DataV, b: DataV) -> bool {
    text::before(a.text, b.text) || (a.text == b.text && fields_before(a.strings, b.strings, 0))
}

proof fn fields_before_irreflexive(a: Seq<(Seq<char>, Seq<char>)>, i: int)
    ensures
        !fields_before(a, a, i),
    decreases a.len() - i,
{
    if 0 <= i < a.len() {
        fields_before_irreflexive(a, i + 1);
    }
}

proof fn fields_before_transitive(
    a: Seq<(Seq<char>, Seq<char>)>,
    b: Seq<(Seq<char>, Seq<char>)>,
    c: Seq<(Seq<char>, Seq<char>)>,
    i: int,
)
    requires
        fields_before(a, b, i),
        fields_before(b, c, i),
    ensures
        fields_before(a, c, i),
    decreases c.len() - i,
{
    if i < a.len() {
        text::before_is_total_order(a[i].0, b[i].0, c[i].0);
        text::before_is_total_order(a[i].1, b[i].1, c[i].1);
        text::before_is_total_order(c[i].0, b[i].0, b[i].0);
        text::before_is_total_order(c[i].1, b[i].1, b[i].1);
        text::before_is_total_order(a[i].0, a[i].0, a[i].0);
        text::before_is_total_order(a[i].1, a[i].1, a[i].1);
        if a[i] == b[i] && b[i] == c[i] {
            fields_before_transitive(a, b, c, i + 1);
        }
    }
}

proof fn fields_before_total(
    a: Seq<(Seq<char>, Seq<char>)>,
    b: Seq<(Seq<char>, Seq<char>)>,
    i: int,
)
    requires
        0 <= i <= a.len(),
        i <= b.len(),
        a.take(i) == b.take(i),
    ensures
        fields_before(a, b, i) || fields_before(b, a, i) || a == b,
    decreases a.len() - i,
{
    if i < a.len() && i < b.len() {
        text::before_is_total_order(a[i].0, b[i].0, b[i].0);
        text::before_is_total_order(a[i].1, b[i].1, b[i].1);
        if a[i] == b[i] {
            assert(a.take(i + 1) =~= a.take(i).push(a[i]));
            assert(b.take(i + 1) =~= b.take(i).push(b[i]));
            fields_before_total(a, b, i + 1);
        }
    } else if i == a.len() && i == b.len() {
        assert(a =~= a.take(i));
        assert(b =~= b.take(i));
    }
}

/// The order of data is a strict total order.
pub proof fn data_before_is_total_order(a: DataV, b: DataV, c: DataV)
    ensures
        !data_before(a, a),
        data_before(a, b) ==> !data_before(b, a),
        data_before(a, b) && data_before(b, c) ==> data_before(a, c),
        a == b || data_before(a, b) || data_before(b, a),
{
    text::before_is_total_order(a.text, b.text, c.text);
    text::before_is_total_order(b.text, a.text, a.text);
    fields_before_irreflexive(a.strings, 0);
    if fields_before(a.strings, b.strings, 0) && fields_before(b.strings, a.strings, 0) {
        fields_before_transitive(a.strings, b.strings, a.strings, 0);
    }
    if fields_before(a.strings, b.strings, 0) && fields_before(b.strings, c.strings, 0) {
        fields_before_transitive(a.strings, b.strings, c.strings, 0);
    }
    assert(a.strings.take(0) =~= b.strings.take(0));
    fields_before_total(a.strings, b.strings, 0);
    if a.strings == b.strings && a.text == b.text {
        assert(a =~= b);
    }
}

/// Neither coming before nor behind is transitive too, since only equal data does neither.
pub proof fn data_before_is_weak_order(a: DataV, b: DataV, c: DataV)
    ensures
        !data_before(a, a),
        data_before(a, b) && data_before(b, c) ==> data_before(a, c),
        !data_before(a, b) && !data_before(b, c) ==> !data_before(a, c),
{
    data_before_is_total_order(a, b, c);
    data_before_is_total_order(b, c, a);
    data_before_is_total_order(a, c, b);
    data_before_is_total_order(c, b, a);
}

impl Data {
    /// Whether this comes before the other in the order of data.
    pub fn is_before(&self, other: &Data) -> (r: bool)
        ensures
            r == data_before(self.deep_view(), other.deep_view()),
    {
        proof {
            text::before_is_total_order(self.text@, other.text@, other.text@);
        }
        if self.text != other.text {
            return text::is_before(self.text.as_str(), other.text.as_str());
        }
        let ghost a = self.strings.deep_view();
        let ghost b = other.strings.deep_view();
        assert(a.len() == self.strings.len());
        assert(b.len() == other.strings.len());
        let mut i: usize = 0;
        while i < other.strings.len()
            invariant
                i <= other.strings.len(),
                i <= self.strings.len(),
                a == self.strings.deep_view(),
                b == other.strings.deep_view(),
                a.len() == self.strings.len(),
                b.len() == other.strings.len(),
                self.text@ == other.text@,
                !text::before(self.text@, other.text@),
                fields_before(a, b, 0) == fields_before(a, b, i as int),
            decreases other.strings.len() - i,
        {
            if i >= self.strings.len() {
                return true;
            }
            assert(a[i as int] == self.strings@[i as int].deep_view());
            assert(b[i as int] == other.strings@[i as int].deep_view());
            let (x, y) = (&self.strings[i], &other.strings[i]);
            if x.0 != y.0 {
                return text::is_before(x.0.as_str(), y.0.as_str());
            }
            proof {
                text::before_is_total_order(x.0@, y.0@, y.0@);
            }
            if x.1 != y.1 {
                return text::is_before(x.1.as_str(), y.1.as_str());
            }
            i = i + 1;
        }
        false
    }
}

/// A human label for one event's data: what the combined track calls this activity, and what a
/// decision's signature names it. Falls back rather than failing.
pub fn activity_label(data: &Data) -> (r: String)
    ensures
        r@ == label(data.deep_view()),
{
    match data.get("app") {
        Some(s) => if !s.as_str().is_empty() {
            return s.clone();
        },
        None => {},
    }
    match data.get("title") {
        Some(s) => if !s.as_str().is_empty() {
            return s.clone();
        },
        None => {},
    }
    match data.get("url") {
        Some(s) => if !s.as_str().is_empty() {
            return s.clone();
        },
        None => {},
    }
    "(unknown)".to_owned()
}

/// One recorded event.
#[derive(Debug)]
pub struct Event {
    /// Assigned once the event has reached a datastore.
    pub id: Option<i64>,
    pub timestamp: Instant,
    pub duration: Duration,
    pub data: Data,
}

#[verifier::ext_equal]
pub struct EventV {
    pub id: Option<i64>,
    pub timestamp: int,
    pub duration: int,
    pub data: DataV,
}

impl DeepView for Event {
    type V = EventV;

    open spec fn deep_view(&self) -> EventV {
        EventV {
            id: self.id,
            timestamp: self.timestamp@,
            duration: self.duration@,
            data: self.data.deep_view(),
        }
    }
}

impl Event {
    pub fn new(timestamp: Instant, duration: Duration, data: Data) -> (r: Event)
        ensures
            r.id is None,
            r.timestamp == timestamp,
            r.duration == duration,
            r.data == data,
    {
        Event { id: None, timestamp, duration, data }
    }

    /// When the event ends. Its length in nanoseconds must fit `i64`.
    pub fn calculate_endtime(&self) -> (r: Instant)
        requires
            i64::MIN <= self.duration@ <= i64::MAX,
            in_range(self.timestamp@ + self.duration@),
        ensures
            r@ == self.timestamp@ + self.duration@,
    {
        match self.timestamp.plus(self.duration) {
            Some(end) => end,
            None => {
                assert(false);
                self.timestamp
            },
        }
    }

    /// The time the event covers.
    pub fn interval(&self) -> (r: Span)
        requires
            i64::MIN <= self.duration@ <= i64::MAX,
            in_range(self.timestamp@ + self.duration@),
        ensures
            r.deep_view() == (SpanV {
                start: self.timestamp@,
                end: self.timestamp@ + self.duration@,
            }),
    {
        Span { start: self.timestamp, end: self.calculate_endtime() }
    }

    /// Whether two events say the same, whatever id each was given.
    pub fn same(&self, other: &Event) -> (r: bool)
        ensures
            r == (self.timestamp@ == other.timestamp@ && self.duration@ == other.duration@
                && same_data(self.data.deep_view(), other.data.deep_view())),
    {
        self.timestamp == other.timestamp && self.duration == other.duration && self.data.same(
            &other.data,
        )
    }
}

impl Clone for Event {
    fn clone(&self) -> (r: Event)
        ensures
            r.deep_view() == self.deep_view(),
    {
        Event {
            id: self.id,
            timestamp: self.timestamp,
            duration: self.duration,
            data: self.data.clone(),
        }
    }
}

/// Event data key holding the UUID of the device an imported event was collected on. Written only
/// on import, and only onto the copy in this device's datastore.
pub const EVENT_ORIGIN_KEY: &'static str = "$aw.origin.device";

/// One bucket's events, local or imported. The id is kept because it is the fallback route to the
/// origin device.
#[derive(Debug)]
pub struct BucketEvents {
    pub bucket_id: String,
    pub events: Vec<Event>,
}

#[verifier::ext_equal]
pub struct BucketV {
    pub bucket_id: Seq<char>,
    pub events: Seq<EventV>,
}

impl DeepView for BucketEvents {
    type V = BucketV;

    open spec fn deep_view(&self) -> BucketV {
        BucketV { bucket_id: self.bucket_id@, events: self.events.deep_view() }
    }
}

impl Clone for BucketEvents {
    fn clone(&self) -> (r: BucketEvents)
        ensures
            r.deep_view() == self.deep_view(),
    {
        BucketEvents { bucket_id: self.bucket_id.clone(), events: list::copied(&self.events) }
    }
}

/// Everything the pipeline needs, handed in by the caller.
#[derive(Debug)]
pub struct PipelineInput {
    /// This device's UUID. Its own events carry no origin tag and are attributed to it.
    pub own_device: String,
    /// Hostname to device UUID.
    pub hostname_to_uuid: TextMap<String>,
    /// Activity buckets, local and imported alike.
    pub activity: Vec<BucketEvents>,
    /// Idle buckets: every event here is an idle period.
    pub idle: Vec<BucketEvents>,
    /// Contention shorter than this is absorbed.
    pub min_contention: Duration,
    /// Activity the owner has said never counts.
    pub not_counted: Vec<NotCountedRule>,
    /// The owner's decisions, already merged across every device. Their order does not matter.
    pub decisions: Vec<Decision>,
}

#[verifier::ext_equal]
pub struct InputV {
    pub own_device: Seq<char>,
    pub hostname_to_uuid: Map<Seq<char>, Seq<char>>,
    pub activity: Seq<BucketV>,
    pub idle: Seq<BucketV>,
    pub min_contention: int,
    pub not_counted: Seq<RuleV>,
    pub decisions: Seq<DecisionV>,
}

impl DeepView for PipelineInput {
    type V = InputV;

    open spec fn deep_view(&self) -> InputV {
        InputV {
            own_device: self.own_device@,
            hostname_to_uuid: self.hostname_to_uuid.deep_view(),
            activity: self.activity.deep_view(),
            idle: self.idle.deep_view(),
            min_contention: self.min_contention@,
            not_counted: self.not_counted.deep_view(),
            decisions: self.decisions.deep_view(),
        }
    }
}

/// Every event of these buckets ends at an instant that exists.
pub open spec fn events_end(buckets: Seq<BucketV>) -> bool {
    forall|b: int, e: int|
        0 <= b < buckets.len() && 0 <= e < buckets[b].events.len() ==> in_range(
            (#[trigger] buckets[b].events[e]).timestamp + buckets[b].events[e].duration,
        )
}

/// Whether `host` is the first name, in the order of strings, that stands for `uuid`.
pub open spec fn first_name(
    hosts: Map<Seq<char>, Seq<char>>,
    uuid: Seq<char>,
    host: Seq<char>,
) -> bool {
    &&& hosts.contains_key(host)
    &&& hosts[host] == uuid
    &&& forall|other: Seq<char>|
        #![trigger hosts[other]]
        hosts.contains_key(other) && hosts[other] == uuid ==> !text::before(other, host)
}

/// Device UUID to the role name a decision's signature uses for it: the device's hostname, the
/// first in the order of strings where it goes by several.
pub open spec fn roles_of(hosts: Map<Seq<char>, Seq<char>>) -> Map<Seq<char>, Seq<char>> {
    Map::new(
        |uuid: Seq<char>| exists|host: Seq<char>| first_name(hosts, uuid, host),
        |uuid: Seq<char>| choose|host: Seq<char>| first_name(hosts, uuid, host),
    )
}

proof fn first_name_unique(
    hosts: Map<Seq<char>, Seq<char>>,
    uuid: Seq<char>,
    a: Seq<char>,
    b: Seq<char>,
)
    requires
        first_name(hosts, uuid, a),
        first_name(hosts, uuid, b),
    ensures
        a == b,
{
    text::before_is_total_order(a, b, b);
    assert(hosts[a] == uuid && hosts[b] == uuid);
}

impl PipelineInput {
    /// Device UUID to the role name a decision's signature uses for it.
    ///
    /// That is the device's hostname, the strongest identity that every device reads alike. A rule
    /// therefore does not survive renaming a device.
    pub fn roles_by_uuid(&self) -> (r: TextMap<String>)
        ensures
            r.deep_view() == roles_of(self.deep_view().hostname_to_uuid),
    {
        let hosts = self.hostname_to_uuid.keys();
        let ghost names = hosts.deep_view();
        let ghost map = self.hostname_to_uuid.deep_view();
        let mut roles: TextMap<String> = TextMap::new();
        let mut i: usize = hosts.len();
        assert(names.len() == hosts.len());
        assert(roles.deep_view() =~= Map::empty());
        while i > 0
            invariant
                i <= hosts.len(),
                names == hosts.deep_view(),
                names.len() == hosts.len(),
                map == self.hostname_to_uuid.deep_view(),
                in_order::<String>(names),
                names.no_duplicates(),
                forall|k: Seq<char>| names.contains(k) <==> map.contains_key(k),
                forall|u: Seq<char>|
                    roles.deep_view().contains_key(u) <==> exists|j: int|
                        i <= j < names.len() && map[#[trigger] names[j]] == u,
                forall|u: Seq<char>| #[trigger]
                    roles.deep_view().contains_key(u) ==> exists|j: int|
                        i <= j < names.len() && roles.deep_view()[u] == names[j]
                            && map[#[trigger] names[j]] == u && (forall|l: int|
                            i <= l < names.len() && map[#[trigger] names[l]] == u ==> j <= l),
            decreases i,
        {
            let ghost before = roles.deep_view();
            i = i - 1;
            assert(names[i as int] == hosts@[i as int]@);
            assert(names.contains(names[i as int]));
            match self.hostname_to_uuid.get(hosts[i].as_str()) {
                Some(uuid) => {
                    roles.insert(uuid.clone(), hosts[i].clone());
                    proof {
                        let after = roles.deep_view();
                        assert(after =~= before.insert(uuid@, names[i as int]));
                        assert(map[names[i as int]] == uuid@);
                        assert forall|u: Seq<char>|
                            after.contains_key(u) <==> exists|j: int|
                                i <= j < names.len() && map[#[trigger] names[j]] == u by {
                            if before.contains_key(u) {
                                let j = choose|j: int|
                                    i + 1 <= j < names.len() && map[#[trigger] names[j]] == u;
                                assert(map[names[j]] == u);
                            }
                        }
                        assert forall|u: Seq<char>| #[trigger] after.contains_key(u) implies exists|
                            j: int,
                        |
                            i <= j < names.len() && after[u] == names[j] && map[#[trigger] names[j]]
                                == u && (forall|l: int|
                                i <= l < names.len() && map[#[trigger] names[l]] == u ==> j <= l) by {
                            if u == uuid@ {
                                assert(after[u] == names[i as int]);
                            } else {
                                assert(before.contains_key(u));
                            }
                        }
                    }
                },
                None => {
                    assert(false);
                },
            }
        }
        proof {
            let after = roles.deep_view();
            let goal = roles_of(map);
            assert forall|u: Seq<char>| after.contains_key(u) <==> goal.contains_key(u) by {
                if after.contains_key(u) {
                    let j = choose|j: int|
                        0 <= j < names.len() && after[u] == names[j] && map[#[trigger] names[j]]
                            == u && (forall|l: int|
                            0 <= l < names.len() && map[#[trigger] names[l]] == u ==> j <= l);
                    roles_entry(map, names, u, j);
                }
                if goal.contains_key(u) {
                    let host = choose|host: Seq<char>| first_name(map, u, host);
                    assert(names.contains(host));
                    let l = choose|l: int| 0 <= l < names.len() && names[l] == host;
                    assert(map[names[l]] == u);
                }
            }
            assert forall|u: Seq<char>| after.contains_key(u) implies after[u] == goal[u] by {
                let j = choose|j: int|
                    0 <= j < names.len() && after[u] == names[j] && map[#[trigger] names[j]] == u
                        && (forall|l: int|
                        0 <= l < names.len() && map[#[trigger] names[l]] == u ==> j <= l);
                roles_entry(map, names, u, j);
                let host = choose|host: Seq<char>| first_name(map, u, host);
                first_name_unique(map, u, names[j], host);
            }
            assert(after =~= goal);
        }
        roles
    }
}

/// In a sorted list of the names, the first that stands for `uuid` is its first name.
proof fn roles_entry(
    hosts: Map<Seq<char>, Seq<char>>,
    names: Seq<Seq<char>>,
    uuid: Seq<char>,
    j: int,
)
    requires
        in_order::<String>(names),
        forall|k: Seq<char>| names.contains(k) <==> hosts.contains_key(k),
        0 <= j < names.len(),
        hosts[names[j]] == uuid,
        forall|l: int| 0 <= l < names.len() && hosts[#[trigger] names[l]] == uuid ==> j <= l,
    ensures
        first_name(hosts, uuid, names[j]),
{
    assert(names.contains(names[j]));
    assert forall|other: Seq<char>|
        #![trigger hosts[other]]
        hosts.contains_key(other) && hosts[other] == uuid implies !text::before(
        other,
        names[j],
    ) by {
        assert(names.contains(other));
        let l = choose|l: int| 0 <= l < names.len() && names[l] == other;
        assert(hosts[names[l]] == uuid);
        text::before_is_total_order(other, other, other);
        if j < l {
            assert(!<String as Sortable>::precedes(names[l], names[j]));
        }
    }
}

#[derive(Clone, Copy, Debug, PartialEq, Eq, Structural)]
pub enum SegmentState {
    Settled,
    Contended,
}

/// One device's activity covering a segment. Classification counts distinct devices, so a device
/// with two overlapping activity buckets contributes two slices but one device.
#[derive(Debug, PartialEq, Eq)]
pub struct ActiveSlice {
    pub device: String,
    pub bucket_id: String,
    pub data: Data,
    /// Start of the originating activity interval this slice was cut from, after idle time has
    /// been taken out. Not the segment's own start.
    pub source_start: Instant,
    /// End of that interval. Provisional attribution compares `source_end - source_start`.
    pub source_end: Instant,
}

#[verifier::ext_equal]
pub struct SliceV {
    pub device: Seq<char>,
    pub bucket_id: Seq<char>,
    pub data: DataV,
    pub source_start: int,
    pub source_end: int,
}

impl DeepView for ActiveSlice {
    type V = SliceV;

    open spec fn deep_view(&self) -> SliceV {
        SliceV {
            device: self.device@,
            bucket_id: self.bucket_id@,
            data: self.data.deep_view(),
            source_start: self.source_start@,
            source_end: self.source_end@,
        }
    }
}

impl Clone for ActiveSlice {
    fn clone(&self) -> (r: ActiveSlice)
        ensures
            r.deep_view() == self.deep_view(),
    {
        ActiveSlice {
            device: self.device.clone(),
            bucket_id: self.bucket_id.clone(),
            data: self.data.clone(),
            source_start: self.source_start,
            source_end: self.source_end,
        }
    }
}

/// Slices are listed by device, then by bucket, then by data, so that two devices holding the same
/// events list the same order.
impl Sortable for ActiveSlice {
    open spec fn precedes(a: SliceV, b: SliceV) -> bool {
        text::before(a.device, b.device) || (a.device == b.device && (text::before(
            a.bucket_id,
            b.bucket_id,
        ) || (a.bucket_id == b.bucket_id && data_before(a.data, b.data))))
    }

    proof fn weak_order(a: SliceV, b: SliceV, c: SliceV) {
        text::before_is_weak_order(a.device, b.device, c.device);
        text::before_is_weak_order(a.bucket_id, b.bucket_id, c.bucket_id);
        data_before_is_weak_order(a.data, b.data, c.data);
    }

    fn sorts_before(&self, other: &Self) -> (r: bool) {
        text::is_before(self.device.as_str(), other.device.as_str()) || (self.device
            == other.device && (text::is_before(self.bucket_id.as_str(), other.bucket_id.as_str())
            || (self.bucket_id == other.bucket_id && self.data.is_before(&other.data))))
    }
}

/// How long one distinct foreground activity held part of a block.
///
/// A segment straight out of the sweep has one share: its own data, for its whole span. Merging
/// neighbouring blocks of the same app keeps the finer detail here, with the time each one held.
#[derive(Debug, PartialEq, Eq)]
pub struct ForegroundShare {
    /// The winning activity's own fields.
    pub data: Data,
    pub ms: i64,
    /// Whether these milliseconds are left out of every total. The flag travels with the time and
    /// not with the block.
    pub not_counted: bool,
}

#[verifier::ext_equal]
pub struct ShareV {
    pub data: DataV,
    pub ms: int,
    pub not_counted: bool,
}

impl DeepView for ForegroundShare {
    type V = ShareV;

    open spec fn deep_view(&self) -> ShareV {
        ShareV { data: self.data.deep_view(), ms: self.ms as int, not_counted: self.not_counted }
    }
}

impl Clone for ForegroundShare {
    fn clone(&self) -> (r: ForegroundShare)
        ensures
            r.deep_view() == self.deep_view(),
    {
        ForegroundShare { data: self.data.clone(), ms: self.ms, not_counted: self.not_counted }
    }
}

/// An atomic segment: a span of time over which the set of covering slices does not change.
///
/// A settled segment may still hold more than one device: a short contention is demoted to
/// settled, marked by `absorbed_short_contention`, and keeps every slice.
#[derive(Debug, PartialEq, Eq)]
pub struct Segment {
    pub start: Instant,
    pub end: Instant,
    pub state: SegmentState,
    /// Every device activity covering this segment, by device, then bucket, then data.
    pub active: Vec<ActiveSlice>,
    /// Two devices or more held this segment, but only for a run shorter than the minimum.
    pub absorbed_short_contention: bool,
    /// Index into `active` of the slice that counts. `usize::MAX` until it has been chosen.
    pub foreground: usize,
    /// Contended, and no decision has settled it.
    pub unresolved: bool,
    /// Id of the decision that settled this segment.
    pub resolved_by: Option<String>,
    /// The decision matched by its signature rather than by its window.
    pub auto_resolved: bool,
    /// The owner's own words for this stretch.
    pub label_override: Option<String>,
    /// The segment draws, but its time counts toward no total.
    pub ignored: bool,
    /// It is a rule that stopped this block counting, not an answer. Comes with `ignored`.
    pub not_counted: bool,
    /// The labels a rule took out of this segment, sorted, each once.
    pub excluded_labels: Vec<String>,
    /// Apps the owner ticked as deliberately running alongside the winner.
    pub deliberate_background: Vec<String>,
    /// Seconds folded into this block from slivers that were rounded away.
    pub smoothed_seconds: i64,
    /// The distinct labels of those slivers, sorted, without this block's own.
    pub absorbed_labels: Vec<String>,
    /// Every distinct foreground activity inside this block and how long it held, longest first.
    pub foreground_shares: Vec<ForegroundShare>,
    /// Milliseconds inside this block's span that no source segment covered.
    pub bridged_ms: i64,
}

#[verifier::ext_equal]
pub struct SegmentV {
    pub start: int,
    pub end: int,
    pub state: SegmentState,
    pub active: Seq<SliceV>,
    pub absorbed_short_contention: bool,
    pub foreground: int,
    pub unresolved: bool,
    pub resolved_by: Option<Seq<char>>,
    pub auto_resolved: bool,
    pub label_override: Option<Seq<char>>,
    pub ignored: bool,
    pub not_counted: bool,
    pub excluded_labels: Seq<Seq<char>>,
    pub deliberate_background: Seq<Seq<char>>,
    pub smoothed_seconds: int,
    pub absorbed_labels: Seq<Seq<char>>,
    pub foreground_shares: Seq<ShareV>,
    pub bridged_ms: int,
}

impl DeepView for Segment {
    type V = SegmentV;

    open spec fn deep_view(&self) -> SegmentV {
        SegmentV {
            start: self.start@,
            end: self.end@,
            state: self.state,
            active: self.active.deep_view(),
            absorbed_short_contention: self.absorbed_short_contention,
            foreground: self.foreground as int,
            unresolved: self.unresolved,
            resolved_by: self.resolved_by.deep_view(),
            auto_resolved: self.auto_resolved,
            label_override: self.label_override.deep_view(),
            ignored: self.ignored,
            not_counted: self.not_counted,
            excluded_labels: self.excluded_labels.deep_view(),
            deliberate_background: self.deliberate_background.deep_view(),
            smoothed_seconds: self.smoothed_seconds as int,
            absorbed_labels: self.absorbed_labels.deep_view(),
            foreground_shares: self.foreground_shares.deep_view(),
            bridged_ms: self.bridged_ms as int,
        }
    }
}

impl Clone for Segment {
    fn clone(&self) -> (r: Segment)
        ensures
            r.deep_view() == self.deep_view(),
    {
        Segment {
            start: self.start,
            end: self.end,
            state: self.state,
            active: list::copied(&self.active),
            absorbed_short_contention: self.absorbed_short_contention,
            foreground: self.foreground,
            unresolved: self.unresolved,
            resolved_by: list::copied_option(&self.resolved_by),
            auto_resolved: self.auto_resolved,
            label_override: list::copied_option(&self.label_override),
            ignored: self.ignored,
            not_counted: self.not_counted,
            excluded_labels: list::copied(&self.excluded_labels),
            deliberate_background: list::copied(&self.deliberate_background),
            smoothed_seconds: self.smoothed_seconds,
            absorbed_labels: list::copied(&self.absorbed_labels),
            foreground_shares: list::copied(&self.foreground_shares),
            bridged_ms: self.bridged_ms,
        }
    }
}

/// The slice that counts.
pub open spec fn foreground_of(seg: SegmentV) -> SliceV {
    seg.active[seg.foreground]
}

/// A slice has been chosen, and it is one of the segment's own.
pub open spec fn attributed(seg: SegmentV) -> bool {
    0 <= seg.foreground < seg.active.len()
}

/// The slices other than number `fg`, among the first `n`.
pub open spec fn others(slices: Seq<SliceV>, fg: int, n: int) -> Seq<SliceV>
    decreases n,
{
    if n <= 0 {
        Seq::empty()
    } else if n - 1 == fg {
        others(slices, fg, n - 1)
    } else {
        others(slices, fg, n - 1).push(slices[n - 1])
    }
}

/// The milliseconds of a share where its flag is `not_counted`.
pub open spec fn under(not_counted: bool) -> spec_fn(ShareV) -> int {
    |s: ShareV|
        if s.not_counted == not_counted {
            s.ms
        } else {
            0
        }
}

/// The milliseconds of the shares whose flag is `not_counted`.
pub open spec fn share_ms(shares: Seq<ShareV>, not_counted: bool) -> int {
    list::total(shares, under(not_counted))
}

/// Every partial sum of the milliseconds under a flag fits `i64`.
pub open spec fn summable(shares: Seq<ShareV>, not_counted: bool) -> bool {
    forall|n: int|
        0 <= n <= shares.len() ==> i64::MIN <= #[trigger] list::sum(
            shares,
            under(not_counted),
            n,
        ) <= i64::MAX
}

/// How much of a block may be counted, in nanoseconds.
pub open spec fn counted(seg: SegmentV) -> int {
    if seg.foreground_shares.len() == 0 {
        seg.end - seg.start - seg.bridged_ms * 1_000_000
    } else {
        share_ms(seg.foreground_shares, false) * 1_000_000
    }
}

/// The part of a block that counts toward nothing, in nanoseconds.
pub open spec fn uncounted(seg: SegmentV) -> int {
    share_ms(seg.foreground_shares, true) * 1_000_000
}

pub fn sum_shares(shares: &Vec<ForegroundShare>, not_counted: bool) -> (r: i64)
    requires
        summable(shares.deep_view(), not_counted),
    ensures
        r == share_ms(shares.deep_view(), not_counted),
{
    assert(shares.deep_view().len() == shares.len());
    let mut sum: i64 = 0;
    let mut i: usize = 0;
    while i < shares.len()
        invariant
            i <= shares.len(),
            summable(shares.deep_view(), not_counted),
            sum == list::sum(shares.deep_view(), under(not_counted), i as int),
        decreases shares.len() - i,
    {
        assert(shares.deep_view()[i as int] == shares@[i as int].deep_view());
        assert(i64::MIN <= list::sum(shares.deep_view(), under(not_counted), i + 1) <= i64::MAX);
        if shares[i].not_counted == not_counted {
            sum = sum + shares[i].ms;
        }
        i = i + 1;
    }
    sum
}

impl Segment {
    /// The slice that counts. Only once it has been chosen.
    pub fn foreground_slice(&self) -> (r: &ActiveSlice)
        requires
            self.foreground < self.active.len(),
        ensures
            r.deep_view() == foreground_of(self.deep_view()),
            *r == self.active[self.foreground as int],
    {
        &self.active[self.foreground]
    }

    /// Every slice other than the foreground one, in order.
    pub fn background_slices(&self) -> (r: Vec<&ActiveSlice>)
        ensures
            r.deep_view() == others(
                self.deep_view().active,
                self.foreground as int,
                self.active.len() as int,
            ),
    {
        let mut out: Vec<&ActiveSlice> = Vec::new();
        let mut i: usize = 0;
        assert(out.deep_view() =~= Seq::empty());
        while i < self.active.len()
            invariant
                i <= self.active.len(),
                out.deep_view() == others(
                    self.active.deep_view(),
                    self.foreground as int,
                    i as int,
                ),
            decreases self.active.len() - i,
        {
            assert(self.active.deep_view()[i as int] == self.active@[i as int].deep_view());
            if i != self.foreground {
                list::push(&mut out, &self.active[i]);
            }
            i = i + 1;
        }
        out
    }

    /// How much of this block may be counted: the time a watcher recorded, without the holes that
    /// were bridged to draw it as one block and without any share that counts toward nothing.
    /// This, never `end - start`, is what may be added to a total.
    pub fn counted_span(&self) -> (r: Duration)
        requires
            summable(self.deep_view().foreground_shares, false),
        ensures
            r@ == counted(self.deep_view()),
    {
        if self.foreground_shares.len() == 0 {
            let _ = self.start.nanos();
            let _ = self.end.nanos();
            let span: i128 = self.end.since(self.start).nanos;
            return Duration { nanos: span - (self.bridged_ms as i128) * 1_000_000 };
        }
        Duration::milliseconds(sum_shares(&self.foreground_shares, false))
    }

    /// The part of this block that counts toward nothing.
    pub fn uncounted_span(&self) -> (r: Duration)
        requires
            summable(self.deep_view().foreground_shares, true),
        ensures
            r@ == uncounted(self.deep_view()),
    {
        Duration::milliseconds(sum_shares(&self.foreground_shares, true))
    }

    /// The activity that held this block longest. `None` only before the shares have been seeded.
    pub fn dominant_share(&self) -> (r: Option<&ForegroundShare>)
        ensures
            match r {
                Some(s) => self.foreground_shares.len() > 0 && *s == self.foreground_shares[0],
                None => self.foreground_shares.len() == 0,
            },
    {
        if self.foreground_shares.len() > 0 {
            Some(&self.foreground_shares[0])
        } else {
            None
        }
    }
}

} // verus!
