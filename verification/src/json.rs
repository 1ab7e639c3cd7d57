//! JSON as the library reads it: a plain tree, and the string fields of an event.

use vstd::prelude::*;

use crate::text;

verus! {

/// A JSON value. A number keeps the text it is written with.
#[derive(Debug)]
pub enum Json {
    Null,
    Bool(bool),
    Number(String),
    Text(String),
    List(Vec<Json>),
    Object(Vec<Member>),
}

/// One member of a JSON object.
#[derive(Debug)]
pub struct Member {
    pub key: String,
    pub value: Json,
}

/// A JSON text that has been read: its value, and the same value written compactly.
#[derive(Debug)]
pub struct Document {
    pub compact: String,
    pub value: Json,
}

/// A value of serde_json.
#[verifier::external_type_specification]
#[verifier::external_body]
pub struct ExValue(serde_json::Value);

/// What `serde_json::from_str` reads in a text, and how `serde_json::Value` writes that value, or
/// nothing where the text is not one JSON value.
pub uninterp spec fn document(text: Seq<char>) -> Option<Document>;

/// A `serde_json::Value`, variant for variant, as a plain tree.
#[verifier::external_body]
fn plain(value: serde_json::Value) -> Json {
    match value {
        serde_json::Value::Null => Json::Null,
        serde_json::Value::Bool(b) => Json::Bool(b),
        serde_json::Value::Number(n) => Json::Number(n.to_string()),
        serde_json::Value::String(s) => Json::Text(s),
        serde_json::Value::Array(items) => Json::List(items.into_iter().map(plain).collect()),
        serde_json::Value::Object(members) => Json::Object(
            members.into_iter().map(|(key, value)| Member { key, value: plain(value) }).collect(),
        ),
    }
}

/// `serde_json::from_str`, and the value it reads written back by the `Display` of
/// `serde_json::Value`. Both follow from the text alone. What is written back stands on one line,
/// with no space at either end: nothing stands between the parts of a value, and a control character
/// inside a text is escaped.
#[verifier::external_body]
pub(crate) fn read_document(text: &str) -> (r: Option<Document>)
    ensures
        r == document(text@),
        r matches Some(d) ==> text::one_line(d.compact@) && text::trimmed(d.compact@) == d.compact@,
{
    match serde_json::from_str::<serde_json::Value>(text) {
        Ok(value) => Some(Document { compact: value.to_string(), value: plain(value) }),
        Err(_) => None,
    }
}

/// What serde_json says of a text that is not one JSON value; nothing of one that is.
pub uninterp spec fn json_fault(text: Seq<char>) -> Option<Seq<char>>;

/// `serde_json::from_str` into a `serde_json::Value`, of which the message is kept where it fails.
#[verifier::external_body]
pub(crate) fn fault_in(text: &str) -> (r: Option<String>)
    ensures
        r.deep_view() == json_fault(text@),
        r is None <==> document(text@) is Some,
{
    match serde_json::from_str::<serde_json::Value>(text) {
        Ok(_) => None,
        Err(e) => Some(e.to_string()),
    }
}

/// The first member named `key` from position `i` on.
pub open spec fn find_from(members: Seq<Member>, key: Seq<char>, i: int) -> Option<Json>
    decreases members.len() - i,
{
    if i < 0 || i >= members.len() {
        None
    } else if members[i].key@ == key {
        Some(members[i].value)
    } else {
        find_from(members, key, i + 1)
    }
}

/// The member of `json` named `key`; nothing where `json` is no object or has none of that name.
pub open spec fn member(json: Json, key: Seq<char>) -> Option<Json> {
    match json {
        Json::Object(members) => find_from(members@, key, 0),
        _ => None,
    }
}

/// The text of a JSON string; nothing for any other value.
pub open spec fn text_of(json: Json) -> Option<Seq<char>> {
    match json {
        Json::Text(s) => Some(s@),
        _ => None,
    }
}

/// The string member of `json` named `key`. A member that is missing, null or no string reads as
/// the empty text.
pub open spec fn text_at(json: Json, key: Seq<char>) -> Seq<char> {
    match member(json, key) {
        Some(v) => match text_of(v) {
            Some(s) => s,
            None => Seq::empty(),
        },
        None => Seq::empty(),
    }
}

impl Json {
    /// The member named `key`.
    pub fn get(&self, key: &str) -> (r: Option<&Json>)
        ensures
            r == match member(*self, key@) {
                Some(v) => Some(&v),
                None => None,
            },
    {
        match self {
            Json::Object(members) => {
                let mut i: usize = 0;
                while i < members.len()
                    invariant
                        i <= members.len(),
                        member(*self, key@) == find_from(members@, key@, i as int),
                    decreases members.len() - i,
                {
                    if text::same(members[i].key.as_str(), key) {
                        return Some(&members[i].value);
                    }
                    i = i + 1;
                }
                None
            },
            _ => None,
        }
    }

    /// The text of a JSON string.
    pub fn as_text(&self) -> (r: Option<&String>)
        ensures
            match r {
                Some(s) => text_of(*self) == Some(s@),
                None => text_of(*self) is None,
            },
    {
        match self {
            Json::Text(s) => Some(s),
            _ => None,
        }
    }

    /// The string member named `key`, or the empty text.
    pub fn text(&self, key: &str) -> (r: String)
        ensures
            r@ == text_at(*self, key@),
    {
        match self.get(key) {
            Some(v) => match v.as_text() {
                Some(s) => s.clone(),
                None => String::new(),
            },
            None => String::new(),
        }
    }

    pub fn is_object(&self) -> (r: bool)
        ensures
            r == (self is Object),
    {
        matches!(self, Json::Object(_))
    }
}

/// Whether every member of an object is a text.
pub open spec fn all_texts(json: Json) -> bool {
    json is Object && forall|key: Seq<char>| #[trigger]
        member(json, key) is Some ==> text_of(member(json, key)->0) is Some
}

/// Why serde_json does not read a text as a map from text to text; nothing where it does.
pub uninterp spec fn texts_fault(text: Seq<char>) -> Option<Seq<char>>;

/// Whether a text writes an object of texts.
pub open spec fn writes_texts(text: Seq<char>) -> bool {
    document(text) matches Some(d) && all_texts(d.value)
}

/// `serde_json::from_str` into a `BTreeMap<String, String>`, of which the message is kept where it
/// fails. It succeeds only on an object whose members are all texts.
#[verifier::external_body]
pub(crate) fn check_texts(text: &str) -> (r: Option<String>)
    ensures
        r.deep_view() == texts_fault(text@),
        r is None ==> writes_texts(text@),
{
    match serde_json::from_str::<std::collections::BTreeMap<String, String>>(text) {
        Ok(_) => None,
        Err(e) => Some(e.to_string()),
    }
}

/// How serde_json writes an object of these string members, in this order.
pub uninterp spec fn object_text(fields: Seq<(Seq<char>, Seq<char>)>) -> Seq<char>;

/// No two fields share a name.
pub open spec fn distinct_names(fields: Seq<(Seq<char>, Seq<char>)>) -> bool {
    forall|i: int, j: int|
        0 <= i < j < fields.len() ==> (#[trigger] fields[i]).0 != (#[trigger] fields[j]).0
}

/// Whether `json` has a member `key` and it is the text `value`.
pub open spec fn text_member(json: Json, key: Seq<char>, value: Seq<char>) -> bool {
    member(json, key) matches Some(v) && text_of(v) == Some(value)
}

/// Whether one of the fields is named `key`.
pub open spec fn names_field(fields: Seq<(Seq<char>, Seq<char>)>, key: Seq<char>) -> bool {
    exists|i: int| 0 <= i < fields.len() && (#[trigger] fields[i]).0 == key
}

/// Whether a text reads as an object of exactly these string members.
pub open spec fn reads_as(text: Seq<char>, fields: Seq<(Seq<char>, Seq<char>)>) -> bool {
    document(text) matches Some(d) && d.value is Object && (forall|i: int|
        0 <= i < fields.len() ==> text_member(
            d.value,
            (#[trigger] fields[i]).0,
            fields[i].1,
        )) && (forall|key: Seq<char>| #[trigger]
        member(d.value, key) is Some ==> names_field(fields, key))
}

/// `serde::Serializer::collect_map` into a `serde_json::Serializer`, which writes compactly: one
/// object, its members in the order given. Control characters are escaped, so the text holds no
/// line feed and no carriage return; it begins with a brace and ends with one. Reading it gives
/// back an object of exactly these members, and it reads as a map from text to text.
#[verifier::external_body]
pub(crate) fn write_object(fields: &Vec<(String, String)>) -> (r: String)
    requires
        distinct_names(fields.deep_view()),
    ensures
        r@ == object_text(fields.deep_view()),
        r@.len() >= 2,
        r@[0] == '{',
        r@.last() == '}',
        forall|i: int| 0 <= i < r@.len() ==> #[trigger] r@[i] != '\n' && r@[i] != '\r',
        reads_as(r@, fields.deep_view()),
        texts_fault(r@) is None,
{
    let mut out: Vec<u8> = Vec::new();
    let mut writer = serde_json::Serializer::new(&mut out);
    let _ = serde::Serializer::collect_map(&mut writer, fields.iter().map(|f| (&f.0, &f.1)));
    String::from_utf8_lossy(&out).into_owned()
}

/// How serde_json writes a text.
pub uninterp spec fn quoted(text: Seq<char>) -> Seq<char>;

/// Whether a JSON text reads as this text.
pub open spec fn reads_text(json: Seq<char>, text: Seq<char>) -> bool {
    document(json) matches Some(d) && text_of(d.value) == Some(text)
}

/// A `serde_json::Value` made of a string, written by its `Display`. Reading it gives the string
/// back.
#[verifier::external_body]
pub(crate) fn write_text(text: &str) -> (r: String)
    ensures
        r@ == quoted(text@),
        reads_text(r@, text@),
{
    serde_json::Value::from(text).to_string()
}

/// How serde_json writes an object of these text members and these counts, indented.
pub uninterp spec fn pretty_text(
    texts: Seq<(Seq<char>, Seq<char>)>,
    counts: Seq<(Seq<char>, u64)>,
) -> Seq<char>;

/// Whether a text reads as an object that has these text members.
pub open spec fn holds_texts(text: Seq<char>, texts: Seq<(Seq<char>, Seq<char>)>) -> bool {
    document(text) matches Some(d) && d.value is Object && forall|i: int|
        0 <= i < texts.len() ==> text_member(d.value, (#[trigger] texts[i]).0, texts[i].1)
}

/// Whether no two members share a name.
pub open spec fn distinct_members(
    texts: Seq<(Seq<char>, Seq<char>)>,
    counts: Seq<(Seq<char>, u64)>,
) -> bool {
    &&& distinct_names(texts)
    &&& forall|i: int, j: int|
        0 <= i < j < counts.len() ==> (#[trigger] counts[i]).0 != (#[trigger] counts[j]).0
    &&& forall|i: int, j: int|
        0 <= i < texts.len() && 0 <= j < counts.len() ==> (#[trigger] texts[i]).0 != (
        #[trigger] counts[j]).0
}

/// `serde_json::to_string_pretty` of a `serde_json::Map` that holds these text members and these
/// counts. What it writes reads back as an object that has the text members.
#[verifier::external_body]
pub(crate) fn write_pretty(texts: &Vec<(String, String)>, counts: &Vec<(String, u64)>) -> (r: String)
    requires
        distinct_members(texts.deep_view(), counts.deep_view()),
    ensures
        r@ == pretty_text(texts.deep_view(), counts.deep_view()),
        holds_texts(r@, texts.deep_view()),
{
    let texts = texts.iter().map(|f| (f.0.clone(), serde_json::Value::from(f.1.clone())));
    let counts = counts.iter().map(|f| (f.0.clone(), serde_json::Value::from(f.1)));
    let members: serde_json::Map<String, serde_json::Value> = texts.chain(counts).collect();
    serde_json::to_string_pretty(&members).unwrap_or_default()
}

/// Whether a text writes an object.
pub open spec fn writes_object(text: Seq<char>) -> bool {
    document(text) matches Some(d) && d.value is Object
}

/// The string member `key` of the object a text writes.
pub open spec fn string_member(text: Seq<char>, key: Seq<char>) -> Option<Seq<char>> {
    match document(text) {
        Some(d) => match member(d.value, key) {
            Some(v) => text_of(v),
            None => None,
        },
        None => None,
    }
}

/// How serde_json writes the object that a text writes, without its member `key`; nothing where the
/// text is no object.
pub uninterp spec fn text_without(text: Seq<char>, key: Seq<char>) -> Option<Seq<char>>;

/// Whether the object that `after` writes is the one that `before` writes as far as its string
/// members go, without any member `key`.
pub open spec fn drops_member(before: Seq<char>, key: Seq<char>, after: Seq<char>) -> bool {
    &&& writes_object(after)
    &&& member(document(after)->0.value, key) is None
    &&& forall|other: Seq<char>|
        other != key ==> #[trigger] string_member(after, other) == string_member(before, other)
}

/// `serde_json::from_str` into an object, `serde_json::Map::remove` of one member, and the rest
/// written by `serde_json::to_string`. It fails only where the text is no object; what it writes
/// reads back without that member and with every other string member as it was.
#[verifier::external_body]
pub(crate) fn remove_member(text: &str, key: &str) -> (r: Option<String>)
    ensures
        r.deep_view() == text_without(text@, key@),
        r is Some <==> writes_object(text@),
        r matches Some(t) ==> drops_member(text@, key@, t@),
{
    match serde_json::from_str::<serde_json::Map<String, serde_json::Value>>(text) {
        Ok(mut members) => {
            let _ = members.remove(key);
            serde_json::to_string(&members).ok()
        },
        Err(_) => None,
    }
}

/// How serde_json writes the object that a text writes, with its member `key` set to the text
/// `value`; nothing where the text is no object.
pub uninterp spec fn text_with(text: Seq<char>, key: Seq<char>, value: Seq<char>) -> Option<
    Seq<char>,
>;

/// Whether the object that `after` writes is the one that `before` writes as far as its string
/// members go, with `key` set to `value`.
pub open spec fn sets_member(
    before: Seq<char>,
    key: Seq<char>,
    value: Seq<char>,
    after: Seq<char>,
) -> bool {
    &&& writes_object(after)
    &&& string_member(after, key) == Some(value)
    &&& forall|other: Seq<char>|
        other != key ==> #[trigger] string_member(after, other) == string_member(before, other)
}

/// `serde_json::from_str` into an object, `serde_json::Map::insert` of one string member, and the
/// whole written by `serde_json::to_string`. It fails only where the text is no object; what it
/// writes reads back with that member set and every other string member as it was.
#[verifier::external_body]
pub(crate) fn set_member(text: &str, key: &str, value: &str) -> (r: Option<String>)
    ensures
        r.deep_view() == text_with(text@, key@, value@),
        r is Some <==> writes_object(text@),
        r matches Some(t) ==> sets_member(text@, key@, value@, t@),
{
    match serde_json::from_str::<serde_json::Map<String, serde_json::Value>>(text) {
        Ok(mut members) => {
            let value = serde_json::Value::String(value.to_string());
            let _ = members.insert(key.to_string(), value);
            serde_json::to_string(&members).ok()
        },
        Err(_) => None,
    }
}

} // verus!
