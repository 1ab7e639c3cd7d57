//! What callers ask for, checked before anything is looked up.

use vstd::prelude::*;

use crate::decision::value_in;
use crate::json::{check_texts, read_document, texts_fault};
use crate::shared_store::{string_map, text_members, SETTINGS_PREFIX};
use crate::text;
use crate::textmap::TextMap;
use crate::timeline::TimelineRequest;
use crate::time::{in_range, read_stamp, rfc3339, stamp_before, utc_text, Instant, Timestamp};

verus! {

/// What to say of a parameter that is no timestamp.
pub open spec fn bad_stamp(name: Seq<char>, why: Seq<char>) -> Seq<char> {
    "`"@ + name + "` is not an RFC 3339 timestamp: "@ + why
}

/// Read one RFC 3339 timestamp, naming which parameter was wrong.
pub fn parse_ts(name: &str, raw: &str) -> (r: Result<Timestamp, String>)
    ensures
        match rfc3339(raw@) {
            Ok(p) => r matches Ok(t) && t.secs == p.0 && t.subsec == p.1 && in_range(
                t.secs * 1_000_000_000 + t.subsec,
            ),
            Err(why) => r matches Err(m) && m@ == bad_stamp(name@, why),
        },
{
    match read_stamp(raw) {
        Ok(t) => Ok(t),
        Err(why) => {
            let mut m = "`".to_owned();
            m.append(name);
            m.append("` is not an RFC 3339 timestamp: ");
            m.append(why.as_str());
            Err(m)
        },
    }
}

/// What to say of a span that ends no later than it starts.
pub open spec fn bad_span(start: Timestamp, end: Timestamp) -> Seq<char> {
    "`end` ("@ + utc_text(end.secs, end.subsec) + ") must be after `start` ("@ + utc_text(
        start.secs,
        start.subsec,
    ) + ")"@
}

/// Check a span: its end must be after its start.
pub fn check_span(start: Timestamp, end: Timestamp) -> (r: Result<(), String>)
    ensures
        if stamp_before(start, end) {
            r is Ok
        } else {
            r matches Err(m) && m@ == bad_span(start, end)
        },
{
    if start.is_before(end) {
        return Ok(());
    }
    let mut m = "`end` (".to_owned();
    m.append(end.display().as_str());
    m.append(") must be after `start` (");
    m.append(start.display().as_str());
    m.append(")");
    Err(m)
}

/// What to say of names that are no names.
pub open spec fn bad_names(why: Seq<char>) -> Seq<char> {
    "`hostnames` is not a JSON object of hostname->uuid: "@ + why
}

/// Read names of devices: a JSON object from hostname to uuid, or why it is none.
pub fn names_from(raw: &str) -> (r: Result<TextMap<String>, String>)
    ensures
        match texts_fault(raw@) {
            None => r matches Ok(m) && m.deep_view() == text_members(value_in(raw@)->0),
            Some(why) => r matches Err(e) && e@ == why,
        },
{
    match check_texts(raw) {
        Some(why) => Err(why),
        None => match read_document(raw) {
            Some(d) => match string_map(&d.value) {
                Some(names) => Ok(names),
                None => {
                    assert(false);
                    Err(String::new())
                },
            },
            None => {
                assert(false);
                Err(String::new())
            },
        },
    }
}

/// Names of devices, as a caller gives them: a JSON object from hostname to uuid. Nothing and the
/// empty text give none.
pub open spec fn names_in(raw: Option<Seq<char>>) -> Result<Map<Seq<char>, Seq<char>>, Seq<char>> {
    match raw {
        Some(s) => if s.len() == 0 {
            Ok(Map::empty())
        } else {
            match texts_fault(s) {
                None => Ok(text_members(value_in(s)->0)),
                Some(why) => Err(bad_names(why)),
            }
        },
        None => Ok(Map::empty()),
    }
}

/// Read the names of devices that a caller gives.
pub fn names_asked(raw: Option<&str>) -> (r: Result<TextMap<String>, String>)
    ensures
        match names_in(
            match raw {
                Some(s) => Some(s@),
                None => None,
            },
        ) {
            Ok(names) => r matches Ok(m) && m.deep_view() == names,
            Err(why) => r matches Err(m) && m@ == why,
        },
{
    let empty: TextMap<String> = TextMap::new();
    assert(empty.deep_view() =~= Map::empty());
    let s = match raw {
        Some(s) => s,
        None => {
            return Ok(empty);
        },
    };
    if s.is_empty() {
        return Ok(empty);
    }
    match names_from(s) {
        Ok(names) => Ok(names),
        Err(why) => {
            let mut m = "`hostnames` is not a JSON object of hostname->uuid: ".to_owned();
            m.append(why.as_str());
            Err(m)
        },
    }
}

/// The longest sliver threshold that is taken, in seconds.
pub const MAX_SLIVER_SECS: i64 = 3600;

/// A sliver threshold brought into its bounds.
pub open spec fn clamped(secs: Option<i64>) -> Option<i64> {
    match secs {
        Some(s) => Some(
            if s < 0 {
                0
            } else if s > MAX_SLIVER_SECS {
                MAX_SLIVER_SECS
            } else {
                s
            },
        ),
        None => None,
    }
}

/// A sliver threshold as it is used. One out of bounds is brought into them rather than refused: it
/// is a display preference, and nothing is written by it.
pub fn clamp_sliver(secs: Option<i64>) -> (r: Option<i64>)
    ensures
        r == clamped(secs),
{
    match secs {
        Some(s) => Some(
            if s < 0 {
                0
            } else if s > MAX_SLIVER_SECS {
                MAX_SLIVER_SECS
            } else {
                s
            },
        ),
        None => None,
    }
}

/// What is wrong with a request for a timeline, the first thing first; nothing where it is in order.
pub open spec fn request_fault(
    start: Seq<char>,
    end: Seq<char>,
    names: Option<Seq<char>>,
) -> Option<Seq<char>> {
    match (rfc3339(start), rfc3339(end)) {
        (Err(why), _) => Some(bad_stamp("start"@, why)),
        (_, Err(why)) => Some(bad_stamp("end"@, why)),
        (Ok(a), Ok(b)) => {
            let from = Timestamp { secs: a.0, subsec: a.1 };
            let to = Timestamp { secs: b.0, subsec: b.1 };
            if !stamp_before(from, to) {
                Some(bad_span(from, to))
            } else {
                match names_in(names) {
                    Err(why) => Some(why),
                    Ok(_) => None,
                }
            }
        },
    }
}

/// The instant that a text names.
pub open spec fn instant_in(text: Seq<char>) -> int {
    let p = rfc3339(text)->Ok_0;
    p.0 * 1_000_000_000 + p.1
}

/// A request for a timeline out of what a caller asks for and who this device is.
pub fn timeline_request(
    start: &str,
    end: &str,
    hostnames: Option<&str>,
    sliver: Option<i64>,
    own_device: &str,
    own_hostname: &str,
) -> (r: Result<TimelineRequest, String>)
    ensures
        ({
            let names = match hostnames {
                Some(s) => Some(s@),
                None => None,
            };
            match request_fault(start@, end@, names) {
                Some(why) => r matches Err(m) && m@ == why,
                None => r matches Ok(q) && q.start@ == instant_in(start@) && q.end@ == instant_in(
                    end@,
                ) && q.own_device@ == own_device@ && q.own_hostname@ == own_hostname@
                    && q.hostname_to_uuid.deep_view() == names_in(names)->Ok_0 && q.sliver_secs
                    == clamped(sliver),
            }
        }),
{
    let from = match parse_ts("start", start) {
        Ok(t) => t,
        Err(m) => {
            return Err(m);
        },
    };
    let to = match parse_ts("end", end) {
        Ok(t) => t,
        Err(m) => {
            return Err(m);
        },
    };
    match check_span(from, to) {
        Ok(_) => {},
        Err(m) => {
            return Err(m);
        },
    }
    let hostname_to_uuid = match names_asked(hostnames) {
        Ok(names) => names,
        Err(m) => {
            return Err(m);
        },
    };
    match (Instant::of(from), Instant::of(to)) {
        (Some(a), Some(b)) => Ok(
            TimelineRequest {
                start: a,
                end: b,
                own_device: own_device.to_owned(),
                hostname_to_uuid,
                own_hostname: own_hostname.to_owned(),
                sliver_secs: clamp_sliver(sliver),
            },
        ),
        _ => {
            assert(false);
            Err(String::new())
        },
    }
}

/// How std's `Debug` for `str` writes a text: in double quotes, with what does not print escaped.
pub uninterp spec fn debug_text(s: Seq<char>) -> Seq<char>;

/// `format!` with `{:?}` of a text, that is std's `<str as Debug>::fmt`. What it escapes is left to
/// std.
#[verifier::external_body]
fn quote(s: &str) -> (r: String)
    ensures
        r@ == debug_text(s@),
{
    format!("{s:?}")
}

/// What an app is told of a text that is no timestamp.
pub open spec fn bad_native_stamp(raw: Seq<char>, why: Seq<char>) -> Seq<char> {
    "bad timestamp "@ + debug_text(raw) + ": "@ + why
}

/// What an app is told of names that are no names.
pub open spec fn bad_native_names(why: Seq<char>) -> Seq<char> {
    "bad hostname→uuid map: "@ + why
}

/// Why what an app asks for cannot be answered; nothing where it can. Unlike a page an app always
/// sends a map, so an empty text is no map.
pub open spec fn native_fault(start: Seq<char>, end: Seq<char>, map: Seq<char>) -> Option<
    Seq<char>,
> {
    match (rfc3339(start), rfc3339(end)) {
        (Err(why), _) => Some(bad_native_stamp(start, why)),
        (_, Err(why)) => Some(bad_native_stamp(end, why)),
        (Ok(a), Ok(b)) => {
            let from = Timestamp { secs: a.0, subsec: a.1 };
            let to = Timestamp { secs: b.0, subsec: b.1 };
            if !stamp_before(from, to) {
                Some("end must be after start"@)
            } else {
                match texts_fault(map) {
                    Some(why) => Some(bad_native_names(why)),
                    None => None,
                }
            }
        },
    }
}

/// Read a timestamp that an app sends.
fn native_stamp(raw: &str) -> (r: Result<Timestamp, String>)
    ensures
        match rfc3339(raw@) {
            Ok(p) => r matches Ok(t) && t.secs == p.0 && t.subsec == p.1 && in_range(
                t.secs * 1_000_000_000 + t.subsec,
            ),
            Err(why) => r matches Err(m) && m@ == bad_native_stamp(raw@, why),
        },
{
    match read_stamp(raw) {
        Ok(t) => Ok(t),
        Err(why) => {
            let mut m = "bad timestamp ".to_owned();
            m.append(quote(raw).as_str());
            m.append(": ");
            m.append(why.as_str());
            Err(m)
        },
    }
}

/// A request for a timeline out of what an app sends and who this device is.
pub fn native_request(
    start: &str,
    end: &str,
    map: &str,
    own_device: &str,
    own_hostname: &str,
) -> (r: Result<TimelineRequest, String>)
    ensures
        match native_fault(start@, end@, map@) {
            Some(why) => r matches Err(m) && m@ == why,
            None => r matches Ok(q) && q.start@ == instant_in(start@) && q.end@ == instant_in(end@)
                && q.own_device@ == own_device@ && q.own_hostname@ == own_hostname@
                && q.hostname_to_uuid.deep_view() == text_members(value_in(map@)->0)
                && q.sliver_secs is None,
        },
{
    let from = match native_stamp(start) {
        Ok(t) => t,
        Err(m) => {
            return Err(m);
        },
    };
    let to = match native_stamp(end) {
        Ok(t) => t,
        Err(m) => {
            return Err(m);
        },
    };
    if !from.is_before(to) {
        return Err("end must be after start".to_owned());
    }
    let hostname_to_uuid = match names_from(map) {
        Ok(names) => names,
        Err(why) => {
            let mut m = "bad hostname→uuid map: ".to_owned();
            m.append(why.as_str());
            return Err(m);
        },
    };
    match (Instant::of(from), Instant::of(to)) {
        (Some(a), Some(b)) => Ok(
            TimelineRequest {
                start: a,
                end: b,
                own_device: own_device.to_owned(),
                hostname_to_uuid,
                own_hostname: own_hostname.to_owned(),
                sliver_secs: None,
            },
        ),
        _ => {
            assert(false);
            Err(String::new())
        },
    }
}

/// Whether a text can name a setting: not empty, and without the characters that no route would
/// pass through.
pub open spec fn setting_name(key: Seq<char>) -> bool {
    key.len() > 0 && forall|i: int|
        0 <= i < key.len() ==> #[trigger] key[i] != '/' && key[i] != '\\' && key[i] != '\0'
}

/// The datastore key of a setting; `None` where the name cannot be one.
pub fn setting_key(name: &str) -> (r: Option<String>)
    ensures
        match r {
            Some(k) => setting_name(name@) && k@ == SETTINGS_PREFIX@ + name@,
            None => !setting_name(name@),
        },
{
    let cs = text::characters(name);
    if cs.len() == 0 {
        return None;
    }
    let mut i: usize = 0;
    while i < cs.len()
        invariant
            cs@ == name@,
            i <= cs.len(),
            forall|k: int| 0 <= k < i ==> #[trigger] cs@[k] != '/' && cs@[k] != '\\' && cs@[k] != '\0',
        decreases cs.len() - i,
    {
        let c: char = cs[i];
        if c == '/' || c == '\\' || c == '\0' {
            assert(name@[i as int] == c);
            return None;
        }
        i = i + 1;
    }
    let mut key = SETTINGS_PREFIX.to_owned();
    key.append(name);
    Some(key)
}

/// Why a setting was not stored.
#[derive(Clone, Copy, Debug, PartialEq, Eq, Structural)]
pub enum SettingError {
    BadKey,
    NotJson,
}

/// Check a setting that is to be stored: a key that can be one, and a value that is JSON, since a
/// malformed one could not be read later. Returns the datastore key.
pub fn check_setting(name: &str, value: &str) -> (r: Result<String, SettingError>)
    ensures
        match r {
            Ok(k) => setting_name(name@) && value_in(value@) is Some && k@ == SETTINGS_PREFIX@
                + name@,
            Err(SettingError::BadKey) => !setting_name(name@),
            Err(SettingError::NotJson) => setting_name(name@) && value_in(value@) is None,
        },
{
    match setting_key(name) {
        Some(key) => match read_document(value) {
            Some(_) => Ok(key),
            None => Err(SettingError::NotJson),
        },
        None => Err(SettingError::BadKey),
    }
}

/// The name of a stored setting: its key without the prefix, where it has it.
pub open spec fn bare_name(key: Seq<char>) -> Seq<char> {
    if text::begins_with(key, SETTINGS_PREFIX@) {
        key.skip(SETTINGS_PREFIX@.len() as int)
    } else {
        key
    }
}

/// The name of a stored setting.
pub fn bare_setting(key: &str) -> (r: String)
    ensures
        r@ == bare_name(key@),
{
    if text::starts_with(key, SETTINGS_PREFIX) {
        let bare = text::part(key, SETTINGS_PREFIX.unicode_len(), key.unicode_len());
        assert(bare@ =~= key@.skip(SETTINGS_PREFIX@.len() as int));
        bare
    } else {
        key.to_owned()
    }
}

/// The bucket an Android device records into.
pub const ANDROID_BUCKET: &'static str = "aw-watcher-android";

/// The query behind the home screen widget: the canonical events of a device, how long they last
/// together, and how long each category does.
pub fn widget_query(canonical_events: &str) -> (r: String)
    ensures
        r@ == canonical_events@ + "\nduration = sum_durations(events);\n"@
            + "cat_events = sort_by_duration(merge_events_by_keys(events, [\"$category\"]));\n"@
            + "RETURN = {\"events\": events, \"duration\": duration, \"cat_events\": cat_events};"@,
{
    let mut out = canonical_events.to_owned();
    out.append("\nduration = sum_durations(events);\n");
    out.append("cat_events = sort_by_duration(merge_events_by_keys(events, [\"$category\"]));\n");
    out.append("RETURN = {\"events\": events, \"duration\": duration, \"cat_events\": cat_events};");
    out
}

/// A greeting, for a caller that wants to know whether anybody is there.
pub fn greeting(recipient: Option<&str>) -> (r: String)
    ensures
        r@ == "Hello "@ + (match recipient {
            Some(name) => name@,
            None => "there"@,
        }) + " (from Rust!)"@,
{
    let mut out = "Hello ".to_owned();
    match recipient {
        Some(name) => out.append(name),
        None => out.append("there"),
    }
    out.append(" (from Rust!)");
    out
}

} // verus!
