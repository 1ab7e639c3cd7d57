//! Decision records as a datastore keeps them: one line per id, in one canonical spelling.

use vstd::prelude::*;

use crate::decision::{line_record, line_records, parse_line, Decision, RecordV, SharedRecord};
use crate::json::{document, fault_in, json_fault, read_document};
use crate::list;
use crate::order::{arranged, sort, Sortable};
use crate::text;

verus! {

/// What stands before a record's id in its datastore key.
pub const DECISION_KEY_PREFIX: &'static str = "combined.decision.";

/// One stored value.
#[derive(Debug)]
pub struct StoredValue {
    pub key: String,
    pub value: String,
}

#[verifier::ext_equal]
pub struct StoredValueV {
    pub key: Seq<char>,
    pub value: Seq<char>,
}

impl DeepView for StoredValue {
    type V = StoredValueV;

    open spec fn deep_view(&self) -> StoredValueV {
        StoredValueV { key: self.key@, value: self.value@ }
    }
}

impl Clone for StoredValue {
    fn clone(&self) -> (r: StoredValue)
        ensures
            r.deep_view() == self.deep_view(),
    {
        StoredValue { key: self.key.clone(), value: self.value.clone() }
    }
}

/// By key.
impl Sortable for StoredValue {
    open spec fn precedes(a: StoredValueV, b: StoredValueV) -> bool {
        text::before(a.key, b.key)
    }

    proof fn weak_order(a: StoredValueV, b: StoredValueV, c: StoredValueV) {
        text::before_is_weak_order(a.key, b.key, c.key);
    }

    fn sorts_before(&self, other: &Self) -> (r: bool) {
        text::is_before(self.key.as_str(), other.key.as_str())
    }
}

/// The values, in order.
pub open spec fn values_of(stored: Seq<StoredValueV>) -> Seq<Seq<char>> {
    Seq::new(stored.len(), |i: int| stored[i].value)
}

/// The stored lines, by key.
pub fn stored_lines(stored: Vec<StoredValue>) -> (r: Vec<String>)
    ensures
        r.deep_view() == values_of(arranged::<StoredValue>(stored.deep_view())),
{
    let mut stored = stored;
    sort(&mut stored);
    let ghost sv = stored.deep_view();
    assert(sv.len() == stored.len());
    let mut out: Vec<String> = Vec::new();
    assert(out.deep_view() =~= Seq::empty());
    let mut i: usize = 0;
    while i < stored.len()
        invariant
            i <= stored.len(),
            sv == stored.deep_view(),
            sv.len() == stored.len(),
            out.deep_view() =~= values_of(sv).take(i as int),
        decreases stored.len() - i,
    {
        assert(sv[i as int] == stored@[i as int].deep_view());
        list::push(&mut out, stored[i].value.clone());
        i = i + 1;
    }
    assert(out.deep_view() =~= values_of(sv));
    out
}

/// Every decision and tombstone among the stored values, read in the order of their keys.
pub fn stored_records(stored: Vec<StoredValue>) -> (r: Vec<SharedRecord>)
    ensures
        ({
            let lines = values_of(arranged::<StoredValue>(stored.deep_view()));
            r.deep_view() == line_records(lines, lines.len() as int)
        }),
{
    let lines = stored_lines(stored);
    let ghost lv = lines.deep_view();
    assert(lv.len() == lines.len());
    let mut out: Vec<SharedRecord> = Vec::new();
    assert(out.deep_view() =~= Seq::empty());
    let mut i: usize = 0;
    while i < lines.len()
        invariant
            i <= lines.len(),
            lv == lines.deep_view(),
            out.deep_view() == line_records(lv, i as int),
        decreases lines.len() - i,
    {
        assert(lv[i as int] == lines@[i as int]@);
        match parse_line(lines[i].as_str()) {
            Some(r) => {
                list::push(&mut out, r);
            },
            None => {},
        }
        i = i + 1;
    }
    out
}

/// The id and the author of a record, where it is a decision or a tombstone.
pub open spec fn id_and_author(r: RecordV) -> Option<(Seq<char>, Seq<char>)> {
    match r {
        RecordV::Decision(d) => Some((d.id, d.created_by)),
        RecordV::Tombstone(t) => Some((t.id, t.created_by)),
        RecordV::Unknown(_) => None,
    }
}

/// The id and the author of a line, where it is a decision or a tombstone.
pub open spec fn line_id(line: Seq<char>) -> Option<(Seq<char>, Seq<char>)> {
    match line_record(line) {
        Some(r) => id_and_author(r),
        None => None,
    }
}

/// The id and the author of a decision or tombstone line, if it is one.
pub fn record_id_and_author(line: &str) -> (r: Option<(String, String)>)
    ensures
        r.deep_view() == line_id(line@),
{
    match parse_line(line) {
        Some(record) => match record {
            SharedRecord::Decision(d) => Some((d.id, d.created_by)),
            SharedRecord::Tombstone(t) => Some((t.id, t.created_by)),
            SharedRecord::Unknown(_) => None,
        },
        None => None,
    }
}

/// The id of a decision or tombstone line, if it is one.
pub fn record_id(line: &str) -> (r: Option<String>)
    ensures
        r.deep_view() == match line_id(line@) {
            Some(p) => Some(p.0),
            None => None,
        },
{
    match record_id_and_author(line) {
        Some(p) => Some(p.0),
        None => None,
    }
}

/// Why a record was refused.
#[derive(Debug)]
pub enum RecordError {
    /// Neither a decision nor a tombstone.
    NotARecord,
    /// Not JSON once the text is taken as it came: the id, and why.
    NotJson(String, String),
    /// The id holds a character that cannot be part of a key.
    BadId(String),
}

/// A record that can be stored.
#[derive(Debug)]
pub struct Storable {
    pub id: String,
    /// The datastore key.
    pub key: String,
    /// The one spelling every device stores it in.
    pub canonical: String,
}

/// Whether a character may be part of a key.
pub open spec fn key_char(c: char) -> bool {
    ('0' <= c && c <= '9') || ('A' <= c && c <= 'Z') || ('a' <= c && c <= 'z') || c == '_' || c
        == '-'
}

pub open spec fn key_text(s: Seq<char>) -> bool {
    forall|i: int| 0 <= i < s.len() ==> key_char(#[trigger] s[i])
}

fn is_key_text(s: &str) -> (r: bool)
    ensures
        r == key_text(s@),
{
    let cs = text::characters(s);
    let mut i: usize = 0;
    while i < cs.len()
        invariant
            i <= cs.len(),
            cs@ == s@,
            forall|k: int| 0 <= k < i ==> key_char(#[trigger] cs@[k]),
        decreases cs.len() - i,
    {
        let c: char = cs[i];
        if !(('0' <= c && c <= '9') || ('A' <= c && c <= 'Z') || ('a' <= c && c <= 'z') || c == '_'
            || c == '-') {
            assert(!key_char(s@[i as int]));
            return false;
        }
        i = i + 1;
    }
    true
}

/// The datastore key of an id.
pub open spec fn decision_key(id: Seq<char>) -> Seq<char> {
    DECISION_KEY_PREFIX@ + id
}

/// The datastore key of an id.
pub fn key_for(id: &str) -> (r: String)
    ensures
        r@ == decision_key(id@),
{
    let mut key = DECISION_KEY_PREFIX.to_owned();
    key.append(id);
    key
}

/// Check a record that is to be stored: it must be a decision or a tombstone, be JSON as it came,
/// and have an id that can be part of a key. The same record checked twice gives the same key and
/// the same spelling, so storing it again overwrites it with itself. That spelling stands on one
/// line.
pub fn store_record(raw: &str) -> (r: Result<Storable, RecordError>)
    ensures
        match line_id(raw@) {
            None => r == Err::<Storable, RecordError>(RecordError::NotARecord),
            Some(p) => match document(raw@) {
                None => r matches Err(RecordError::NotJson(id, why)) && id@ == p.0 && Some(why@)
                    == json_fault(raw@),
                Some(d) => if key_text(p.0) {
                    r matches Ok(s) && s.id@ == p.0 && s.key@ == decision_key(p.0) && s.canonical@
                        == d.compact@ && text::one_line(s.canonical@) && text::trimmed(s.canonical@)
                        == s.canonical@
                } else {
                    r matches Err(RecordError::BadId(id)) && id@ == p.0
                },
            },
        },
{
    let id = match record_id(raw) {
        Some(id) => id,
        None => {
            return Err(RecordError::NotARecord);
        },
    };
    let canonical = match read_document(raw) {
        Some(d) => d.compact,
        None => {
            let why = match fault_in(raw) {
                Some(why) => why,
                None => {
                    assert(false);
                    String::new()
                },
            };
            return Err(RecordError::NotJson(id, why));
        },
    };
    if !is_key_text(id.as_str()) {
        return Err(RecordError::BadId(id));
    }
    let key = key_for(id.as_str());
    Ok(Storable { id, key, canonical })
}

impl RecordError {
    /// What to tell whoever sent the record.
    pub fn message(&self) -> (r: String)
        ensures
            r@ == match self {
                RecordError::NotARecord => "not a decision or tombstone record"@,
                RecordError::NotJson(id, why) => id@ + " is not JSON: "@ + why@,
                RecordError::BadId(id) => "`id` has characters that cannot be a key: "@ + id@,
            },
    {
        match self {
            RecordError::NotARecord => "not a decision or tombstone record".to_owned(),
            RecordError::NotJson(id, why) => {
                let mut m = id.clone();
                m.append(" is not JSON: ");
                m.append(why.as_str());
                m
            },
            RecordError::BadId(id) => {
                let mut m = "`id` has characters that cannot be a key: ".to_owned();
                m.append(id.as_str());
                m
            },
        }
    }
}

} // verus!
