//! What is asked for and when it is refused, what a pass reports, and what a folder says of itself.

use vstd::prelude::*;

use crate::coalesce::coalesced;
use crate::decision::{line_record, line_records, value_in, RecordV};
use crate::json::{all_texts, member, texts_fault, Json};
use crate::model::InputV;
use crate::order::{arranged, arranged_in_order, arranged_keeps, Sortable};
use crate::pipeline::computed;
use crate::records::{decision_key, key_char, key_text, values_of, StoredValue, StoredValueV};
use crate::report::{imports_entered, settings_entered, ReportV};
use crate::requests::{
    bare_name, clamped, instant_in, names_in, native_fault, request_fault, setting_name,
};
use crate::shared_pass::ImportV;
use crate::shared_store::{
    applied_in, folder_fault, idle_pass, phrases, remembered, version_of, FolderVersion,
    SharedSyncReport,
};
use crate::smooth::smoothed;
use crate::text;
use crate::time::rfc3339;
use crate::timeline::{rows_for, timeline_of, TimelineRequest};

verus! {

/// Whether two texts are timestamps and the second is later than the first.
pub open spec fn a_later_end(start: Seq<char>, end: Seq<char>) -> bool {
    match (rfc3339(start), rfc3339(end)) {
        (Ok(a), Ok(b)) => a.0 < b.0 || (a.0 == b.0 && a.1 < b.1),
        _ => false,
    }
}

/// A request of a page is answered just where both timestamps can be read, the end is after the
/// start, and the names are left out, empty, or an object of texts.
pub proof fn a_sound_request_is_answered(
    start: Seq<char>,
    end: Seq<char>,
    names: Option<Seq<char>>,
)
    ensures
        request_fault(start, end, names) is None <==> a_later_end(start, end) && (names matches Some(
            s,
        ) ==> s.len() == 0 || texts_fault(s) is None),
{
}

/// What is wrong with a request of a page is told of the first parameter that is wrong: the start,
/// then the end, then the span, then the names.
pub proof fn a_refused_request_is_told_why(
    start: Seq<char>,
    end: Seq<char>,
    names: Option<Seq<char>>,
)
    ensures
        rfc3339(start) matches Err(why) ==> request_fault(start, end, names) == Some(
            "`start` is not an RFC 3339 timestamp: "@ + why,
        ),
        rfc3339(start) is Ok && rfc3339(end) is Err ==> request_fault(start, end, names) == Some(
            "`end` is not an RFC 3339 timestamp: "@ + rfc3339(end)->Err_0,
        ),
        rfc3339(start) is Ok && rfc3339(end) is Ok && !a_later_end(start, end) ==> (
        request_fault(start, end, names) matches Some(why) && "`end` ("@.is_prefix_of(why)),
        a_later_end(start, end) && names is Some && names->0.len() > 0 && texts_fault(names->0)
            is Some ==> request_fault(start, end, names) == Some(
            "`hostnames` is not a JSON object of hostname->uuid: "@ + texts_fault(names->0)->0,
        ),
{
    reveal_strlit("`");
    reveal_strlit("start");
    reveal_strlit("end");
    reveal_strlit("` is not an RFC 3339 timestamp: ");
    reveal_strlit("`start` is not an RFC 3339 timestamp: ");
    reveal_strlit("`end` is not an RFC 3339 timestamp: ");
    if let Err(why) = rfc3339(start) {
        assert("`"@ + "start"@ + "` is not an RFC 3339 timestamp: "@ + why
            =~= "`start` is not an RFC 3339 timestamp: "@ + why);
    }
    if let Err(why) = rfc3339(end) {
        assert("`"@ + "end"@ + "` is not an RFC 3339 timestamp: "@ + why
            =~= "`end` is not an RFC 3339 timestamp: "@ + why);
    }
}

/// An app is answered just where both timestamps can be read, the end is after the start, and its
/// map is an object of texts.
pub proof fn a_sound_request_of_an_app_is_answered(
    start: Seq<char>,
    end: Seq<char>,
    map: Seq<char>,
)
    ensures
        native_fault(start, end, map) is None <==> a_later_end(start, end) && texts_fault(map) is None,
        rfc3339(start) is Ok && rfc3339(end) is Ok && !a_later_end(start, end) ==> native_fault(
            start,
            end,
            map,
        ) == Some("end must be after start"@),
{
}

/// A page and an app are answered alike where both send a map that is not empty.
pub proof fn a_page_and_an_app_are_answered_alike(start: Seq<char>, end: Seq<char>, map: Seq<char>)
    requires
        map.len() > 0,
    ensures
        request_fault(start, end, Some(map)) is None <==> native_fault(start, end, map) is None,
{
}

/// A text names the instant that its seconds and nanoseconds make.
pub proof fn a_text_names_its_instant(s: Seq<char>)
    ensures
        rfc3339(s) matches Ok(p) ==> instant_in(s) == p.0 * 1_000_000_000 + p.1,
{
}

/// The names of devices are the members of the object: each hostname with the text it is given.
/// Left out or empty there are none.
pub proof fn every_name_given_is_used(raw: Seq<char>, host: Seq<char>)
    ensures
        names_in(None) == Ok::<Map<Seq<char>, Seq<char>>, Seq<char>>(Map::empty()),
        raw.len() == 0 ==> names_in(Some(raw)) == Ok::<Map<Seq<char>, Seq<char>>, Seq<char>>(
            Map::empty(),
        ),
        raw.len() > 0 && texts_fault(raw) is None ==> names_in(Some(raw)) is Ok,
        raw.len() > 0 && texts_fault(raw) is None && value_in(raw) is Some ==> ({
            let names = names_in(Some(raw))->Ok_0;
            let json = value_in(raw)->0;
            &&& names.contains_key(host) <==> member(json, host) is Some
            &&& member(json, host) matches Some(Json::Text(s)) ==> names[host] == s@
        }),
{
}

/// A threshold asked for stays in the bounds, no other threshold in them is nearer to the one asked
/// for, and none is put in where none was asked for.
pub proof fn a_threshold_is_brought_into_bounds(secs: i64, other: i64)
    requires
        0 <= other <= 3600,
    ensures
        clamped(Some(secs)) matches Some(s) && 0 <= s <= 3600 && (0 <= secs <= 3600 ==> s == secs)
            && vstd::math::abs(s - secs) <= vstd::math::abs(other - secs),
        clamped(None) is None,
{
}

/// A day is drawn with the threshold asked for, fifteen seconds where none is, and none at all where
/// it is not above zero; a block under five seconds is noise. The rows are those of the blocks.
pub proof fn a_day_is_drawn_at_the_threshold_asked_for(req: TimelineRequest, input: InputV)
    ensures
        ({
            let sliver: int = match req.sliver_secs {
                None => 15_000_000_000,
                Some(s) => if s <= 0 {
                    0
                } else {
                    s * 1_000_000_000
                },
            };
            timeline_of(req, input).combined == rows_for(
                smoothed(coalesced(computed(input)), sliver, 5_000_000_000),
            )
        }),
        timeline_of(req, input).start == req.start@,
        timeline_of(req, input).end == req.end@,
        timeline_of(req, input).own_device == req.own_device@,
{
}

/// A setting can be named by any text but the empty one and those with a slash, a backslash or a
/// zero in them.
pub proof fn a_setting_can_be_named(name: Seq<char>)
    ensures
        setting_name(name) <==> name.len() > 0 && !name.contains('/') && !name.contains('\\')
            && !name.contains('\0'),
{
    if setting_name(name) {
        assert forall|c: char| name.contains(c) implies c != '/' && c != '\\' && c != '\0' by {
            let i = choose|i: int| 0 <= i < name.len() && name[i] == c;
            assert(name[i] == c);
        }
    }
    assert forall|i: int| 0 <= i < name.len() implies name.contains(#[trigger] name[i]) by {
    }
}

/// The name of a stored setting is what stands behind the prefix; a key without it is left as it is.
pub proof fn a_setting_goes_by_its_bare_name(name: Seq<char>)
    ensures
        bare_name("settings."@ + name) == name,
        !"settings."@.is_prefix_of(name) ==> bare_name(name) == name,
{
    let p = "settings."@;
    assert((p + name).subrange(0, p.len() as int) =~= p);
    assert((p + name).skip(p.len() as int) =~= name);
    if text::begins_with(name, p) {
        assert(p.is_prefix_of(name));
    }
}

/// The codes of the ASCII letters and digits, the underscore and the hyphen.
pub open spec fn plain_code(n: int) -> bool {
    48 <= n <= 57 || 65 <= n <= 90 || 97 <= n <= 122 || n == 95 || n == 45
}

/// An id can be part of a key just where it is made of ASCII letters and digits, underscores and
/// hyphens.
pub proof fn an_id_is_plain(id: Seq<char>)
    ensures
        key_text(id) <==> forall|c: char| #[trigger] id.contains(c) ==> plain_code(c as int),
{
    if key_text(id) {
        assert forall|c: char| #[trigger] id.contains(c) implies plain_code(c as int) by {
            let i = choose|i: int| 0 <= i < id.len() && id[i] == c;
            assert(key_char(id[i]));
        }
    }
    if forall|c: char| #[trigger] id.contains(c) ==> plain_code(c as int) {
        assert forall|i: int| 0 <= i < id.len() implies key_char(#[trigger] id[i]) by {
            assert(id.contains(id[i]));
        }
    }
}

/// Each id has a key of its own, which ends with it.
pub proof fn an_id_has_its_own_key(a: Seq<char>, b: Seq<char>)
    ensures
        decision_key(a) == decision_key(b) ==> a == b,
        decision_key(a) == "combined.decision."@ + a,
{
    let p = "combined.decision."@;
    assert((p + a).skip(p.len() as int) =~= a);
    assert((p + b).skip(p.len() as int) =~= b);
}

/// The lines that are stored are the values, each as often as it is stored, in the order of the keys.
pub proof fn every_stored_line_is_read(stored: Seq<StoredValueV>)
    ensures
        ({
            let read = arranged::<StoredValue>(stored);
            &&& read.to_multiset() == stored.to_multiset()
            &&& forall|a: int, b: int|
                0 <= a < b < read.len() ==> !text::before(
                    (#[trigger] read[b]).key,
                    (#[trigger] read[a]).key,
                )
            &&& values_of(read) == read.map_values(|v: StoredValueV| v.value)
        }),
{
    let read = arranged::<StoredValue>(stored);
    arranged_keeps::<StoredValue>(stored);
    arranged_in_order::<StoredValue>(stored);
    assert forall|a: int, b: int| 0 <= a < b < read.len() implies !text::before(
        (#[trigger] read[b]).key,
        (#[trigger] read[a]).key,
    ) by {
        assert(!<StoredValue as Sortable>::precedes(read[b], read[a]));
    }
    assert(values_of(read) =~= read.map_values(|v: StoredValueV| v.value));
}

/// The records of some lines are those of the lines that hold one, in order.
pub proof fn every_line_that_holds_a_record_gives_it(lines: Seq<Seq<char>>, n: int)
    requires
        0 <= n <= lines.len(),
    ensures
        line_records(lines, n) == lines.take(n).map_values(|l: Seq<char>| line_record(l)).filter(
            |r: Option<RecordV>| r is Some,
        ).map_values(|r: Option<RecordV>| r->0),
    decreases n,
{
    reveal(Seq::filter);
    let f = |l: Seq<char>| line_record(l);
    let held = |r: Option<RecordV>| r is Some;
    let out = |r: Option<RecordV>| r->0;
    let all = lines.take(n).map_values(f);
    if n > 0 {
        every_line_that_holds_a_record_gives_it(lines, n - 1);
        let rest = lines.take(n - 1).map_values(f);
        assert(all.drop_last() =~= rest);
        assert(all.last() == line_record(lines[n - 1]));
        if line_record(lines[n - 1]) is Some {
            assert(rest.filter(held).push(all.last()).map_values(out) =~= rest.filter(
                held,
            ).map_values(out).push(all.last()->0));
        }
    } else {
        assert(all.filter(held).map_values(out) =~= Seq::empty());
    }
}

/// A report counts every record that was stored and is news, and tells of every one that was not
/// stored, and of nothing else.
pub proof fn every_import_is_accounted_for(
    report: ReportV,
    records: Seq<ImportV>,
    failures: Seq<Option<Seq<char>>>,
    n: int,
)
    requires
        0 <= n <= failures.len(),
        failures.len() == records.len(),
    ensures
        ({
            let r = imports_entered(report, records, failures, n);
            let news = Seq::new(n as nat, |i: int| failures[i] is None && records[i].fresh).filter(
                |b: bool| b,
            );
            let failed = failures.take(n).filter(|f: Option<Seq<char>>| f is Some);
            &&& r.decisions_imported == report.decisions_imported + news.len()
            &&& r.problems.len() == report.problems.len() + failed.len()
            &&& report.problems.is_prefix_of(r.problems)
            &&& r.settings_published == report.settings_published
            &&& r.settings_applied == report.settings_applied
            &&& r.decisions_published == report.decisions_published
        }),
    decreases n,
{
    reveal(Seq::filter);
    if n > 0 {
        every_import_is_accounted_for(report, records, failures, n - 1);
        let was = Seq::new((n - 1) as nat, |i: int| failures[i] is None && records[i].fresh);
        let is = Seq::new(n as nat, |i: int| failures[i] is None && records[i].fresh);
        assert(is.drop_last() =~= was);
        assert(failures.take(n).drop_last() =~= failures.take(n - 1));
        let rest = imports_entered(report, records, failures, n - 1);
        let r = imports_entered(report, records, failures, n);
        assert forall|k: int| 0 <= k < report.problems.len() implies report.problems[k]
            == r.problems[k] by {
            assert(report.problems[k] == rest.problems[k]);
        }
    } else {
        assert(failures.take(n) =~= Seq::empty());
    }
}

/// What a report tells of a record or a setting that could not be stored names it and says why.
pub proof fn a_failure_is_told(
    report: ReportV,
    records: Seq<ImportV>,
    writes: Seq<StoredValueV>,
    failures: Seq<Option<Seq<char>>>,
    n: int,
)
    requires
        0 < n <= failures.len(),
        failures[n - 1] is Some,
    ensures
        imports_entered(report, records, failures, n).problems.last() == "could not store "@
            + records[n - 1].record.id + ": "@ + failures[n - 1]->0,
        settings_entered(report, writes, failures, n).problems.last() == "Could not apply setting "@
            + bare_name(writes[n - 1].key) + ": "@ + failures[n - 1]->0,
{
}

/// One count of a pass, and how it is put.
pub struct Count {
    pub count: nat,
    pub before: Seq<char>,
    pub after: Seq<char>,
}

/// A pass says of each count that is not zero what was counted, in the order taken, shared,
/// imported, shared. It says nothing just where every count is zero.
pub proof fn a_pass_says_what_it_moved(report: SharedSyncReport)
    ensures
        ({
            let counts = seq![
                Count {
                    count: report.settings_applied as nat,
                    before: "took "@,
                    after: " setting(s) from peers"@,
                },
                Count {
                    count: report.settings_published as nat,
                    before: "shared "@,
                    after: " setting(s)"@,
                },
                Count {
                    count: report.decisions_imported as nat,
                    before: "imported "@,
                    after: " decision(s)"@,
                },
                Count {
                    count: report.decisions_published as nat,
                    before: "shared "@,
                    after: " decision(s)"@,
                },
            ];
            phrases(report) == counts.filter(|c: Count| c.count > 0).map_values(
                |c: Count| c.before + text::decimal(c.count) + c.after,
            )
        }),
        idle_pass(report) <==> report.settings_applied + report.settings_published
            + report.decisions_imported + report.decisions_published == 0,
        idle_pass(report) <==> phrases(report).len() == 0,
{
    let a = Count {
        count: report.settings_applied as nat,
        before: "took "@,
        after: " setting(s) from peers"@,
    };
    let b = Count {
        count: report.settings_published as nat,
        before: "shared "@,
        after: " setting(s)"@,
    };
    let c = Count {
        count: report.decisions_imported as nat,
        before: "imported "@,
        after: " decision(s)"@,
    };
    let d = Count {
        count: report.decisions_published as nat,
        before: "shared "@,
        after: " decision(s)"@,
    };
    let held = |c: Count| c.count > 0;
    let put = |c: Count| c.before + text::decimal(c.count) + c.after;
    reveal(Seq::filter);
    let none = Seq::<Count>::empty();
    said_so_far(none, a);
    said_so_far(none.push(a), b);
    said_so_far(none.push(a).push(b), c);
    said_so_far(none.push(a).push(b).push(c), d);
    assert(none.filter(held).map_values(put) =~= Seq::empty());
    assert(seq![a, b, c, d] =~= none.push(a).push(b).push(c).push(d));
}

proof fn said_so_far(counts: Seq<Count>, c: Count)
    ensures
        counts.push(c).filter(|c: Count| c.count > 0).map_values(
            |c: Count| c.before + text::decimal(c.count) + c.after,
        ) == crate::shared_store::phrase(
            counts.filter(|c: Count| c.count > 0).map_values(
                |c: Count| c.before + text::decimal(c.count) + c.after,
            ),
            c.count,
            c.before,
            c.after,
        ),
{
    reveal(Seq::filter);
    let held = |c: Count| c.count > 0;
    let put = |c: Count| c.before + text::decimal(c.count) + c.after;
    assert(counts.push(c).drop_last() =~= counts);
    if c.count > 0 {
        assert(counts.filter(held).push(c).map_values(put) =~= counts.filter(held).map_values(
            put,
        ).push(put(c)));
    }
}

/// A folder is claimed by nobody where it has no version file; its version is understood up to the
/// first one; a later one is newer; and a text that is no number is no version.
pub proof fn a_folder_says_its_version(n: nat)
    ensures
        version_of(None) == FolderVersion::Unclaimed,
        n <= 1 ==> version_of(Some(text::decimal(n))) == FolderVersion::Known,
        1 < n <= u32::MAX ==> version_of(Some(text::decimal(n))) == FolderVersion::Newer(n as u32),
        n > u32::MAX ==> version_of(Some(text::decimal(n))) == FolderVersion::Unreadable,
        forall|s: Seq<char>|
            text::unsigned_in(text::trimmed(s)) is None ==> #[trigger] version_of(Some(s))
                == FolderVersion::Unreadable,
        forall|s: Seq<char>| #[trigger]
            version_of(Some(s)) == version_of(Some(s.push('\r'))) && version_of(Some(s))
                != FolderVersion::Unclaimed,
{
    crate::text_laws::a_number_reads_back(n);
    let s = text::decimal(n);
    assert(text::digit(s[0]));
    assert(text::digit(s.last()));
    assert forall|i: int| 0 <= i < s.len() implies #[trigger] s[i] != '\n' by {
        assert(text::digit(s[i]));
    }
    text::plain_line(s);
    assert forall|s: Seq<char>| #[trigger]
        version_of(Some(s)) == version_of(Some(s.push('\r'))) && version_of(Some(s))
            != FolderVersion::Unclaimed by {
        text::trimmed_without_return(s);
    }
}

/// Nothing is wrong with a folder just where it is there and is unclaimed or of a version that is
/// understood.
pub proof fn a_folder_is_used_where_its_version_is_known(
    root: Seq<char>,
    version_file: Seq<char>,
    is_dir: bool,
    raw: Option<Seq<char>>,
)
    ensures
        folder_fault(root, version_file, is_dir, raw) is None <==> is_dir && (raw matches Some(s)
            ==> text::unsigned_in(text::trimmed(s)) matches Some(v) && v <= 1),
        !is_dir ==> folder_fault(root, version_file, is_dir, raw) == Some(
            root + " is not a folder"@,
        ),
{
    if let Some(s) = raw {
        text::unsigned_is_positive(text::trimmed(s));
    }
}

/// What is remembered as agreed is every member of an object of texts, and nothing of anything else.
pub proof fn what_was_agreed_is_remembered(raw: Seq<char>, json: Json, key: Seq<char>)
    ensures
        remembered(None) == Map::<Seq<char>, Seq<char>>::empty(),
        texts_fault(raw) is Some ==> remembered(Some(raw)) == Map::<Seq<char>, Seq<char>>::empty(),
        texts_fault(raw) is None && value_in(raw) == Some(json) && all_texts(json) ==> (remembered(
            Some(raw),
        ).contains_key(key) <==> member(json, key) is Some) && (member(json, key) matches Some(
            Json::Text(s),
        ) ==> remembered(Some(raw))[key] == s@),
        !all_texts(json) ==> applied_in(Some(json)) == Map::<Seq<char>, Seq<char>>::empty(),
{
}

} // verus!
