//! What one pass over the shared folder carries: settings and decisions, not just events.
//!
//! Every file in the folder has exactly one writer. A device appends only to its own files and
//! reads everyone's.

use vstd::prelude::*;

use crate::decision::{join, joined, value_in};
use crate::json::{
    all_texts, check_texts, document, member, names_field, object_text, read_document, text_member,
    text_of, texts_fault, write_object, Json, Member,
};
use crate::list;
use crate::order::arranged;
use crate::records::{
    line_id, record_id_and_author, stored_lines, values_of, StoredValue, StoredValueV,
};
use crate::settings::{is_shared_setting_key, shared_key};
use crate::text;
use crate::textmap::TextMap;

verus! {

/// The schema of the shared folder that is spoken here.
pub const SCHEMA_VERSION: u64 = 1;

/// Settings are stored under this prefix; the shared file names them without it.
pub const SETTINGS_PREFIX: &'static str = "settings.";

/// What one pass did.
#[derive(Debug, PartialEq, Eq)]
pub struct SharedSyncReport {
    /// Settings published from this device.
    pub settings_published: usize,
    /// Settings taken from a peer and written here.
    pub settings_applied: usize,
    /// Decisions and tombstones imported from peers.
    pub decisions_imported: usize,
    /// Decisions and tombstones this device put into the folder.
    pub decisions_published: usize,
    /// Things that went wrong without stopping the pass.
    pub problems: Vec<String>,
}

impl Default for SharedSyncReport {
    fn default() -> (r: SharedSyncReport)
        ensures
            r.settings_published == 0,
            r.settings_applied == 0,
            r.decisions_imported == 0,
            r.decisions_published == 0,
            r.problems@ == Seq::<String>::empty(),
    {
        SharedSyncReport {
            settings_published: 0,
            settings_applied: 0,
            decisions_imported: 0,
            decisions_published: 0,
            problems: Vec::new(),
        }
    }
}

/// A count in a phrase, or nothing where the count is zero.
pub open spec fn phrase(
    parts: Seq<Seq<char>>,
    count: nat,
    before: Seq<char>,
    after: Seq<char>,
) -> Seq<Seq<char>> {
    if count > 0 {
        parts.push(before + text::decimal(count) + after)
    } else {
        parts
    }
}

/// What a pass moved, phrase by phrase.
pub open spec fn phrases(report: SharedSyncReport) -> Seq<Seq<char>> {
    phrase(
        phrase(
            phrase(
                phrase(
                    Seq::empty(),
                    report.settings_applied as nat,
                    "took "@,
                    " setting(s) from peers"@,
                ),
                report.settings_published as nat,
                "shared "@,
                " setting(s)"@,
            ),
            report.decisions_imported as nat,
            "imported "@,
            " decision(s)"@,
        ),
        report.decisions_published as nat,
        "shared "@,
        " decision(s)"@,
    )
}

/// Whether a pass moved nothing.
pub open spec fn idle_pass(report: SharedSyncReport) -> bool {
    report.settings_published == 0 && report.settings_applied == 0 && report.decisions_imported == 0
        && report.decisions_published == 0
}

fn add_phrase(parts: &mut Vec<String>, count: usize, before: &str, after: &str)
    ensures
        final(parts).deep_view() == phrase(old(parts).deep_view(), count as nat, before@, after@),
{
    if count > 0 {
        let mut p = before.to_owned();
        p.append(text::to_decimal(count as u64).as_str());
        p.append(after);
        list::push(parts, p);
    }
}

impl SharedSyncReport {
    pub fn moved_nothing(&self) -> (r: bool)
        ensures
            r == idle_pass(*self),
    {
        self.settings_published == 0 && self.settings_applied == 0 && self.decisions_imported == 0
            && self.decisions_published == 0
    }

    /// One sentence for a person, or `None` when there is nothing worth saying.
    pub fn summary(&self) -> (r: Option<String>)
        ensures
            r.deep_view() == if idle_pass(*self) {
                None
            } else {
                Some(joined(phrases(*self), ", "@, phrases(*self).len() as int))
            },
    {
        if self.moved_nothing() {
            return None;
        }
        let mut parts: Vec<String> = Vec::new();
        assert(parts.deep_view() =~= Seq::empty());
        add_phrase(&mut parts, self.settings_applied, "took ", " setting(s) from peers");
        add_phrase(&mut parts, self.settings_published, "shared ", " setting(s)");
        add_phrase(&mut parts, self.decisions_imported, "imported ", " decision(s)");
        add_phrase(&mut parts, self.decisions_published, "shared ", " decision(s)");
        assert(parts.deep_view().len() == parts.len());
        Some(join(&parts, ", "))
    }
}

/// What the version file of a folder says.
#[derive(Clone, Copy, Debug, PartialEq, Eq, Structural)]
pub enum FolderVersion {
    /// Nothing has claimed the folder yet.
    Unclaimed,
    /// A version that is understood.
    Known,
    /// A newer one: lines appended to it would be read differently.
    Newer(u32),
    /// Not a version number.
    Unreadable,
}

/// What the text of a version file says; no text where there is no such file.
pub open spec fn version_of(raw: Option<Seq<char>>) -> FolderVersion {
    match raw {
        None => FolderVersion::Unclaimed,
        Some(s) => match text::unsigned_in(text::trimmed(s)) {
            Some(v) => if v <= SCHEMA_VERSION {
                FolderVersion::Known
            } else if v <= u32::MAX {
                FolderVersion::Newer(v as u32)
            } else {
                FolderVersion::Unreadable
            },
            None => FolderVersion::Unreadable,
        },
    }
}

/// Whether the folder's version is one that is understood. An older one is accepted, since every
/// version so far has only added to the one before.
pub fn check_version(raw: Option<&str>) -> (r: FolderVersion)
    ensures
        r == version_of(
            match raw {
                Some(s) => Some(s@),
                None => None,
            },
        ),
{
    match raw {
        None => FolderVersion::Unclaimed,
        Some(s) => match text::parse_u64(text::trim(s).as_str()) {
            Some(v) => if v <= SCHEMA_VERSION {
                FolderVersion::Known
            } else if v <= u32::MAX as u64 {
                FolderVersion::Newer(v as u32)
            } else {
                FolderVersion::Unreadable
            },
            None => FolderVersion::Unreadable,
        },
    }
}

/// What is wrong with a shared folder, if anything: it is not there, or its version is one that is
/// not understood.
pub open spec fn folder_fault(
    root: Seq<char>,
    version_file: Seq<char>,
    is_dir: bool,
    raw: Option<Seq<char>>,
) -> Option<Seq<char>> {
    if !is_dir {
        Some(root + " is not a folder"@)
    } else {
        match version_of(raw) {
            FolderVersion::Newer(v) => Some(
                "This shared folder is version "@ + text::decimal(v as nat) + "; this build speaks "@
                    + text::decimal(SCHEMA_VERSION as nat)
                    + ". Update ActivityWatch on this computer before syncing."@,
            ),
            FolderVersion::Unreadable => Some(version_file + " is not a version number"@),
            _ => None,
        }
    }
}

/// Check a shared folder before anything in it is touched, given its path, that of its version file
/// and what that file says. Returns whether the folder is still to be claimed.
pub fn check_folder(root: &str, version_file: &str, is_dir: bool, raw: Option<&str>) -> (r: Result<
    bool,
    String,
>)
    ensures
        ({
            let said = match raw {
                Some(s) => Some(s@),
                None => None,
            };
            match folder_fault(root@, version_file@, is_dir, said) {
                Some(why) => r matches Err(m) && m@ == why,
                None => r == Ok::<bool, String>(version_of(said) == FolderVersion::Unclaimed),
            }
        }),
{
    if !is_dir {
        let mut m = root.to_owned();
        m.append(" is not a folder");
        return Err(m);
    }
    match check_version(raw) {
        FolderVersion::Unclaimed => Ok(true),
        FolderVersion::Known => Ok(false),
        FolderVersion::Newer(v) => {
            let mut m = "This shared folder is version ".to_owned();
            m.append(text::to_decimal(v as u64).as_str());
            m.append("; this build speaks ");
            m.append(text::to_decimal(SCHEMA_VERSION).as_str());
            m.append(". Update ActivityWatch on this computer before syncing.");
            Err(m)
        },
        FolderVersion::Unreadable => {
            let mut m = version_file.to_owned();
            m.append(" is not a version number");
            Err(m)
        },
    }
}

/// The shared settings among the first `n` stored values, by their bare keys.
pub open spec fn settings_held(stored: Seq<StoredValueV>, n: int) -> Map<Seq<char>, Seq<char>>
    decreases n,
{
    if n <= 0 {
        Map::empty()
    } else {
        let rest = settings_held(stored, n - 1);
        let key = stored[n - 1].key;
        let bare = key.skip(SETTINGS_PREFIX@.len() as int);
        if text::begins_with(key, SETTINGS_PREFIX@) && shared_key(bare) {
            rest.insert(bare, stored[n - 1].value)
        } else {
            rest
        }
    }
}

/// This device's shared settings, as they are stored.
pub fn local_settings(stored: &Vec<StoredValue>) -> (r: TextMap<String>)
    ensures
        r.deep_view() == settings_held(stored.deep_view(), stored.len() as int),
{
    let ghost sv = stored.deep_view();
    let mut out: TextMap<String> = TextMap::new();
    assert(out.deep_view() =~= Map::empty());
    let mut i: usize = 0;
    while i < stored.len()
        invariant
            i <= stored.len(),
            sv == stored.deep_view(),
            out.deep_view() == settings_held(sv, i as int),
        decreases stored.len() - i,
    {
        assert(sv[i as int] == stored@[i as int].deep_view());
        let key = stored[i].key.as_str();
        if text::starts_with(key, SETTINGS_PREFIX) {
            let bare = text::part(key, SETTINGS_PREFIX.unicode_len(), key.unicode_len());
            assert(bare@ =~= sv[i as int].key.skip(SETTINGS_PREFIX@.len() as int));
            if is_shared_setting_key(bare.as_str()) {
                let ghost before = out.deep_view();
                out.insert(bare, stored[i].value.clone());
                assert(out.deep_view() =~= before.insert(bare@, sv[i as int].value));
            }
        }
        i = i + 1;
    }
    out
}

/// What was agreed last time, as a JSON object of texts; nothing where it is anything else.
pub open spec fn applied_in(json: Option<Json>) -> Map<Seq<char>, Seq<char>> {
    match json {
        Some(j) => if all_texts(j) {
            text_members(j)
        } else {
            Map::empty()
        },
        None => Map::empty(),
    }
}

/// What is found under a name stands under it somewhere, and what stands somewhere is found.
proof fn find_from_sound(members: Seq<Member>, key: Seq<char>, i: int)
    requires
        0 <= i,
    ensures
        crate::json::find_from(members, key, i) is Some <==> exists|k: int|
            i <= k < members.len() && (#[trigger] members[k]).key@ == key,
    decreases members.len() - i,
{
    if i < members.len() {
        find_from_sound(members, key, i + 1);
        if members[i].key@ == key {
            assert(members[i].key@ == key);
        }
    }
}

/// The members of an object of texts.
pub open spec fn text_members(json: Json) -> Map<Seq<char>, Seq<char>> {
    Map::new(
        |key: Seq<char>| member(json, key) is Some,
        |key: Seq<char>| text_of(member(json, key)->0)->0,
    )
}

/// The members of an object of texts; `None` for anything else.
pub fn string_map(j: &Json) -> (r: Option<TextMap<String>>)
    ensures
        match r {
            Some(map) => all_texts(*j) && map.deep_view() == text_members(*j),
            None => !all_texts(*j),
        },
{
    let members = match j {
        Json::Object(members) => members,
        _ => {
            return None;
        },
    };
    let mut out: TextMap<String> = TextMap::new();
    assert(out.deep_view() =~= Map::empty());
    let mut i: usize = 0;
    while i < members.len()
        invariant
            i <= members.len(),
            *j == Json::Object(*members),
            forall|k: int| 0 <= k < i ==> member(*j, (#[trigger] members@[k]).key@) is Some
                && text_of(member(*j, members@[k].key@)->0) is Some,
            forall|key: Seq<char>| #[trigger]
                out.deep_view().contains_key(key) <==> exists|k: int|
                    0 <= k < i && (#[trigger] members@[k]).key@ == key,
            forall|key: Seq<char>| #[trigger]
                out.deep_view().contains_key(key) ==> text_of(member(*j, key)->0) == Some(
                    out.deep_view()[key],
                ),
        decreases members.len() - i,
    {
        let key = members[i].key.as_str();
        proof {
            find_from_sound(members@, key@, 0);
            assert(members@[i as int].key@ == key@);
        }
        let ghost before = out.deep_view();
        match j.get(key) {
            Some(v) => match v.as_text() {
                Some(t) => {
                    out.insert(members[i].key.clone(), t.clone());
                    assert(out.deep_view() =~= before.insert(key@, t@));
                    assert forall|x: Seq<char>| #[trigger] out.deep_view().contains_key(x)
                        <==> exists|k: int|
                            0 <= k < i + 1 && (#[trigger] members@[k]).key@ == x by {
                        if before.contains_key(x) {
                            let k = choose|k: int| 0 <= k < i && (#[trigger] members@[k]).key@ == x;
                            assert(members@[k].key@ == x);
                        }
                    }
                },
                None => {
                    assert(!all_texts(*j)) by {
                        assert(member(*j, key@) is Some);
                    }
                    return None;
                },
            },
            None => {
                assert(false);
            },
        }
        i = i + 1;
    }
    proof {
        assert forall|key: Seq<char>| #[trigger] member(*j, key) is Some implies text_of(
            member(*j, key)->0,
        ) is Some by {
            find_from_sound(members@, key, 0);
            let k = choose|k: int| 0 <= k < members@.len() && (#[trigger] members@[k]).key@ == key;
            assert(members@[k].key@ == key);
        }
        assert(all_texts(*j));
        let goal = text_members(*j);
        assert forall|key: Seq<char>| out.deep_view().contains_key(key) <==> goal.contains_key(
            key,
        ) by {
            find_from_sound(members@, key, 0);
        }
        assert(out.deep_view() =~= goal);
    }
    Some(out)
}

/// What was agreed last time, out of the JSON value it was remembered as.
pub fn applied_from(json: Option<&Json>) -> (r: TextMap<String>)
    ensures
        r.deep_view() == applied_in(
            match json {
                Some(j) => Some(*j),
                None => None,
            },
        ),
{
    match json {
        Some(j) => match string_map(j) {
            Some(map) => {
                return map;
            },
            None => {},
        },
        None => {},
    }
    let empty: TextMap<String> = TextMap::new();
    assert(empty.deep_view() =~= Map::empty());
    empty
}

/// What a text remembers as agreed. One that is no object of texts remembers nothing.
pub open spec fn remembered(raw: Option<Seq<char>>) -> Map<Seq<char>, Seq<char>> {
    match raw {
        Some(s) => applied_in(
            if texts_fault(s) is None {
                value_in(s)
            } else {
                None
            },
        ),
        None => applied_in(None),
    }
}

/// What was agreed last time, as it was remembered.
pub fn read_applied(raw: Option<&str>) -> (r: TextMap<String>)
    ensures
        r.deep_view() == remembered(
            match raw {
                Some(s) => Some(s@),
                None => None,
            },
        ),
{
    match raw {
        Some(s) => {
            if check_texts(s).is_some() {
                return applied_from(None);
            }
            match read_document(s) {
                Some(d) => applied_from(Some(&d.value)),
                None => applied_from(None),
            }
        },
        None => applied_from(None),
    }
}

/// Whether `fields` are the entries of `map`, in the order of the keys.
pub open spec fn entries_of(
    map: Map<Seq<char>, Seq<char>>,
    fields: Seq<(Seq<char>, Seq<char>)>,
) -> bool {
    &&& forall|i: int|
        0 <= i < fields.len() ==> map.contains_key((#[trigger] fields[i]).0) && map[fields[i].0]
            == fields[i].1
    &&& forall|key: Seq<char>| #[trigger] map.contains_key(key) ==> names_field(fields, key)
    &&& forall|i: int, j: int|
        0 <= i < j < fields.len() ==> text::before(
            (#[trigger] fields[i]).0,
            (#[trigger] fields[j]).0,
        )
}

/// What is agreed, to be remembered: a JSON object of texts, by key. Reading it gives it back.
pub fn write_applied(applied: &TextMap<String>) -> (r: String)
    ensures
        exists|fields: Seq<(Seq<char>, Seq<char>)>| #[trigger]
            entries_of(applied.deep_view(), fields) && r@ == object_text(fields),
        remembered(Some(r@)) == applied.deep_view(),
{
    let keys = applied.keys();
    let ghost kv = keys.deep_view();
    let ghost map = applied.deep_view();
    assert(kv.len() == keys.len());
    let mut fields: Vec<(String, String)> = Vec::new();
    assert(fields.deep_view() =~= Seq::empty());
    let mut i: usize = 0;
    while i < keys.len()
        invariant
            i <= keys.len(),
            kv == keys.deep_view(),
            kv.len() == keys.len(),
            map == applied.deep_view(),
            forall|k: Seq<char>| kv.contains(k) <==> applied@.contains_key(k),
            fields.deep_view() =~= Seq::new(i as nat, |k: int| (kv[k], map[kv[k]])),
        decreases keys.len() - i,
    {
        assert(kv[i as int] == keys@[i as int]@);
        assert(kv.contains(kv[i as int]));
        match applied.get(keys[i].as_str()) {
            Some(v) => {
                list::push(&mut fields, (keys[i].clone(), v.clone()));
            },
            None => {
                assert(false);
            },
        }
        i = i + 1;
    }
    let ghost fv = fields.deep_view();
    proof {
        assert forall|a: int, b: int| 0 <= a < b < fv.len() implies (#[trigger] fv[a]).0 != (
        #[trigger] fv[b]).0 by {
            assert(kv[a] != kv[b]);
        }
    }
    let line = write_object(&fields);
    proof {
        let j = document(line@)->0.value;
        assert(fv.len() == fields.len());
        assert forall|key: Seq<char>| map.contains_key(key) implies text_member(j, key, map[key]) by {
            assert(kv.contains(key));
            let k = choose|k: int| 0 <= k < kv.len() && kv[k] == key;
            assert(fv[k] == (kv[k], map[kv[k]]));
            assert(text_member(j, fv[k].0, fv[k].1));
        }
        assert forall|key: Seq<char>| #[trigger] member(j, key) is Some implies map.contains_key(
            key,
        ) by {
            assert(names_field(fv, key));
            let k = choose|k: int| 0 <= k < fv.len() && (#[trigger] fv[k]).0 == key;
            assert(kv[k] == key);
            assert(kv.contains(kv[k]));
        }
        assert(all_texts(j)) by {
            assert forall|key: Seq<char>| #[trigger] member(j, key) is Some implies text_of(
                member(j, key)->0,
            ) is Some by {
                assert(text_member(j, key, map[key]));
            }
        }
        assert(applied_in(Some(j)) =~= map);
        assert(entries_of(map, fv)) by {
            assert forall|key: Seq<char>| #[trigger] map.contains_key(key) implies names_field(
                fv,
                key,
            ) by {
                assert(kv.contains(key));
                let k = choose|k: int| 0 <= k < kv.len() && kv[k] == key;
                assert(fv[k].0 == key);
            }
            assert forall|a: int, b: int| 0 <= a < b < fv.len() implies text::before(
                (#[trigger] fv[a]).0,
                (#[trigger] fv[b]).0,
            ) by {
                assert(!text::before(kv[b], kv[a]));
                assert(kv[a] != kv[b]);
                text::before_is_total_order(kv[a], kv[b], kv[b]);
            }
        }
    }
    line
}

/// One device's decision file.
#[derive(Debug)]
pub struct DecisionFile {
    /// This device wrote it.
    pub ours: bool,
    pub text: String,
}

#[verifier::ext_equal]
pub struct DecisionFileV {
    pub ours: bool,
    pub text: Seq<char>,
}

impl DeepView for DecisionFile {
    type V = DecisionFileV;

    open spec fn deep_view(&self) -> DecisionFileV {
        DecisionFileV { ours: self.ours, text: self.text@ }
    }
}

/// Those of the first `n` lines that are records, trimmed. A line that cannot be read is left where
/// it is: it is a newer build's record or a half-written transfer.
pub open spec fn record_lines(lines: Seq<Seq<char>>, n: int) -> Seq<Seq<char>>
    decreases n,
{
    if n <= 0 {
        Seq::empty()
    } else {
        let t = text::trimmed(lines[n - 1]);
        if line_id(t) is Some {
            record_lines(lines, n - 1).push(t)
        } else {
            record_lines(lines, n - 1)
        }
    }
}

/// The record lines of the first `n` files, or only of those that are not ours.
pub open spec fn folder_lines(files: Seq<DecisionFileV>, peers_only: bool, n: int) -> Seq<Seq<char>>
    decreases n,
{
    if n <= 0 {
        Seq::empty()
    } else {
        let rest = folder_lines(files, peers_only, n - 1);
        let lines = text::lines_of(files[n - 1].text);
        if peers_only && files[n - 1].ours {
            rest
        } else {
            rest + record_lines(lines, lines.len() as int)
        }
    }
}

/// The ids of record lines.
pub open spec fn ids_of_lines(lines: Seq<Seq<char>>) -> Seq<Seq<char>> {
    Seq::new(lines.len(), |i: int| (line_id(lines[i])->0).0)
}

/// What the decision files of a folder hold.
#[derive(Debug)]
pub struct FolderScan {
    /// Every id anywhere in the folder.
    pub shared_ids: Vec<String>,
    /// The record lines that peers wrote.
    pub peer_lines: Vec<String>,
}

/// Read the decision files of a folder.
pub fn scan_decisions(files: &Vec<DecisionFile>) -> (r: FolderScan)
    ensures
        r.shared_ids.deep_view() == ids_of_lines(
            folder_lines(files.deep_view(), false, files.len() as int),
        ),
        r.peer_lines.deep_view() == folder_lines(files.deep_view(), true, files.len() as int),
{
    let ghost fv = files.deep_view();
    let mut shared_ids: Vec<String> = Vec::new();
    let mut peer_lines: Vec<String> = Vec::new();
    assert(peer_lines.deep_view() =~= Seq::empty());
    assert(shared_ids.deep_view() =~= ids_of_lines(folder_lines(fv, false, 0)));
    let mut f: usize = 0;
    while f < files.len()
        invariant
            f <= files.len(),
            fv == files.deep_view(),
            shared_ids.deep_view() == ids_of_lines(folder_lines(fv, false, f as int)),
            peer_lines.deep_view() == folder_lines(fv, true, f as int),
        decreases files.len() - f,
    {
        assert(fv[f as int] == files@[f as int].deep_view());
        let ours: bool = files[f].ours;
        let lines = text::lines(files[f].text.as_str());
        let ghost lv = lines.deep_view();
        assert(lv.len() == lines.len());
        let ghost all_before = folder_lines(fv, false, f as int);
        let ghost peers_before = folder_lines(fv, true, f as int);
        assert(all_before + record_lines(lv, 0) =~= all_before);
        assert(peers_before + record_lines(lv, 0) =~= peers_before);
        let mut i: usize = 0;
        while i < lines.len()
            invariant
                i <= lines.len(),
                lv == lines.deep_view(),
                lv.len() == lines.len(),
                shared_ids.deep_view() == ids_of_lines(all_before + record_lines(lv, i as int)),
                peer_lines.deep_view() == if ours {
                    peers_before
                } else {
                    peers_before + record_lines(lv, i as int)
                },
            decreases lines.len() - i,
        {
            assert(lv[i as int] == lines@[i as int]@);
            let t = text::trim(lines[i].as_str());
            let ghost so_far = record_lines(lv, i as int);
            match record_id_and_author(t.as_str()) {
                Some(p) => {
                    list::push(&mut shared_ids, p.0);
                    assert(all_before + so_far.push(t@) =~= (all_before + so_far).push(t@));
                    assert(shared_ids.deep_view() =~= ids_of_lines(all_before + so_far.push(t@)));
                    if !ours {
                        list::push(&mut peer_lines, t);
                        assert(peer_lines.deep_view() =~= peers_before + so_far.push(t@));
                    }
                },
                None => {},
            }
            i = i + 1;
        }
        f = f + 1;
    }
    FolderScan { shared_ids, peer_lines }
}

/// Those of the first `n` lines that this device wrote and the folder does not have.
pub open spec fn unpublished(
    lines: Seq<Seq<char>>,
    own: Seq<char>,
    shared_ids: Seq<Seq<char>>,
    n: int,
) -> Seq<Seq<char>>
    decreases n,
{
    if n <= 0 {
        Seq::empty()
    } else {
        let rest = unpublished(lines, own, shared_ids, n - 1);
        match line_id(lines[n - 1]) {
            Some(p) => if p.1 == own && !shared_ids.contains(p.0) {
                rest.push(lines[n - 1])
            } else {
                rest
            },
            None => rest,
        }
    }
}

/// The stored records to put into this device's own file: those it wrote itself and that the folder
/// does not have yet. A peer's record has a home already, in the file of its author.
pub fn decisions_to_publish(
    stored: Vec<StoredValue>,
    own_device: &str,
    shared_ids: &Vec<String>,
) -> (r: Vec<String>)
    ensures
        ({
            let lines = values_of(arranged::<StoredValue>(stored.deep_view()));
            r.deep_view() == unpublished(
                lines,
                own_device@,
                shared_ids.deep_view(),
                lines.len() as int,
            )
        }),
{
    let lines = stored_lines(stored);
    let ghost lv = lines.deep_view();
    assert(lv.len() == lines.len());
    let mut out: Vec<String> = Vec::new();
    assert(out.deep_view() =~= Seq::empty());
    let mut i: usize = 0;
    while i < lines.len()
        invariant
            i <= lines.len(),
            lv == lines.deep_view(),
            out.deep_view() == unpublished(lv, own_device@, shared_ids.deep_view(), i as int),
        decreases lines.len() - i,
    {
        assert(lv[i as int] == lines@[i as int]@);
        match record_id_and_author(lines[i].as_str()) {
            Some(p) => {
                if text::same(p.1.as_str(), own_device) && !list::contains_text(shared_ids, &p.0) {
                    list::push(&mut out, lines[i].clone());
                }
            },
            None => {},
        }
        i = i + 1;
    }
    out
}

/// What is published is exactly the stored records that this device wrote itself and that the folder
/// does not have, in the order they are stored in.
pub proof fn exactly_own_unshared_records_are_published(
    lines: Seq<Seq<char>>,
    own: Seq<char>,
    shared_ids: Seq<Seq<char>>,
)
    ensures
        unpublished(lines, own, shared_ids, lines.len() as int) == lines.filter(
            |line: Seq<char>| own_unshared(line, own, shared_ids),
        ),
{
    unpublished_filters(lines, own, shared_ids, lines.len() as int);
    assert(lines.take(lines.len() as int) =~= lines);
}

proof fn unpublished_filters(
    lines: Seq<Seq<char>>,
    own: Seq<char>,
    shared_ids: Seq<Seq<char>>,
    n: int,
)
    requires
        0 <= n <= lines.len(),
    ensures
        unpublished(lines, own, shared_ids, n) == lines.take(n).filter(
            |line: Seq<char>| own_unshared(line, own, shared_ids),
        ),
    decreases n,
{
    reveal(Seq::filter);
    if n > 0 {
        unpublished_filters(lines, own, shared_ids, n - 1);
        assert(lines.take(n).drop_last() =~= lines.take(n - 1));
    }
}

/// Only records this device wrote itself are ever published, and only ones that the folder does
/// not have.
pub proof fn only_own_records_are_published(
    lines: Seq<Seq<char>>,
    own: Seq<char>,
    shared_ids: Seq<Seq<char>>,
    n: int,
)
    requires
        0 <= n <= lines.len(),
    ensures
        forall|k: int|
            0 <= k < unpublished(lines, own, shared_ids, n).len() ==> own_unshared(
                #[trigger] unpublished(lines, own, shared_ids, n)[k],
                own,
                shared_ids,
            ),
    decreases n,
{
    if n > 0 {
        only_own_records_are_published(lines, own, shared_ids, n - 1);
        let rest = unpublished(lines, own, shared_ids, n - 1);
        let all = unpublished(lines, own, shared_ids, n);
        assert forall|k: int| 0 <= k < all.len() implies own_unshared(
            #[trigger] all[k],
            own,
            shared_ids,
        ) by {
            if k < rest.len() {
                assert(all[k] == rest[k]);
            }
        }
    }
}

/// What peers wrote is part of what the folder holds.
proof fn peer_lines_are_shared(files: Seq<DecisionFileV>, n: int, line: Seq<char>)
    requires
        0 <= n <= files.len(),
        folder_lines(files, true, n).contains(line),
    ensures
        folder_lines(files, false, n).contains(line),
    decreases n,
{
    if n > 0 {
        let peers = folder_lines(files, true, n - 1);
        let all = folder_lines(files, false, n - 1);
        let lines = text::lines_of(files[n - 1].text);
        let own = record_lines(lines, lines.len() as int);
        let now = folder_lines(files, false, n);
        let i = choose|i: int|
            0 <= i < folder_lines(files, true, n).len() && folder_lines(files, true, n)[i] == line;
        if i < peers.len() {
            assert(peers[i] == line);
            assert(peers.contains(line));
            peer_lines_are_shared(files, n - 1, line);
            let k = choose|k: int| 0 <= k < all.len() && all[k] == line;
            assert(now[k] == line);
        } else {
            assert(now[all.len() + (i - peers.len())] == line);
        }
    }
}

/// No record that a peer's file holds is put into this device's own file.
pub proof fn no_peer_record_is_published(
    files: Seq<DecisionFileV>,
    lines: Seq<Seq<char>>,
    own: Seq<char>,
    k: int,
    line: Seq<char>,
)
    requires
        ({
            let ids = ids_of_lines(folder_lines(files, false, files.len() as int));
            0 <= k < unpublished(lines, own, ids, lines.len() as int).len()
        }),
        folder_lines(files, true, files.len() as int).contains(line),
    ensures
        ({
            let ids = ids_of_lines(folder_lines(files, false, files.len() as int));
            let published = unpublished(lines, own, ids, lines.len() as int)[k];
            (line_id(published)->0).0 != (line_id(line)->0).0
        }),
{
    let all = folder_lines(files, false, files.len() as int);
    let ids = ids_of_lines(all);
    peer_lines_are_shared(files, files.len() as int, line);
    let j = choose|j: int| 0 <= j < all.len() && all[j] == line;
    assert(ids[j] == (line_id(line)->0).0);
    only_own_records_are_published(lines, own, ids, lines.len() as int);
    assert(own_unshared(
        unpublished(lines, own, ids, lines.len() as int)[k],
        own,
        ids,
    ));
}

/// Whether a line is a record of this device that is not shared yet.
pub open spec fn own_unshared(line: Seq<char>, own: Seq<char>, shared_ids: Seq<Seq<char>>) -> bool {
    line_id(line) matches Some(p) && p.1 == own && !shared_ids.contains(p.0)
}

/// Where the folder has every record among the first `n` lines that this device wrote, there is
/// nothing to publish.
pub proof fn nothing_left_to_publish(
    lines: Seq<Seq<char>>,
    own: Seq<char>,
    shared_ids: Seq<Seq<char>>,
    n: int,
)
    requires
        0 <= n <= lines.len(),
        forall|i: int| 0 <= i < lines.len() ==> !own_unshared(#[trigger] lines[i], own, shared_ids),
    ensures
        unpublished(lines, own, shared_ids, n).len() == 0,
    decreases n,
{
    if n > 0 {
        nothing_left_to_publish(lines, own, shared_ids, n - 1);
        assert(!own_unshared(lines[n - 1], own, shared_ids));
    }
}

/// Every record of this device that the folder does not have is published.
pub proof fn unpublished_is_complete(
    lines: Seq<Seq<char>>,
    own: Seq<char>,
    shared_ids: Seq<Seq<char>>,
    n: int,
)
    requires
        0 <= n <= lines.len(),
    ensures
        forall|i: int|
            0 <= i < n && own_unshared(#[trigger] lines[i], own, shared_ids) ==> unpublished(
                lines,
                own,
                shared_ids,
                n,
            ).contains(lines[i]),
        forall|k: int|
            0 <= k < unpublished(lines, own, shared_ids, n).len() ==> lines.contains(
                #[trigger] unpublished(lines, own, shared_ids, n)[k],
            ),
    decreases n,
{
    if n > 0 {
        unpublished_is_complete(lines, own, shared_ids, n - 1);
        let rest = unpublished(lines, own, shared_ids, n - 1);
        let all = unpublished(lines, own, shared_ids, n);
        assert forall|i: int| 0 <= i < n && own_unshared(#[trigger] lines[i], own, shared_ids)
            implies all.contains(lines[i]) by {
            if i < n - 1 {
                assert(rest.contains(lines[i]));
                let k = choose|k: int| 0 <= k < rest.len() && rest[k] == lines[i];
                assert(all[k] == lines[i]);
            } else {
                assert(all[rest.len() as int] == lines[i]);
            }
        }
        assert forall|k: int| 0 <= k < all.len() implies lines.contains(#[trigger] all[k]) by {
            if k < rest.len() {
                assert(all[k] == rest[k]);
            } else {
                assert(all[k] == lines[n - 1]);
            }
        }
    }
}

/// The record lines of one file.
pub open spec fn file_records(file: DecisionFileV) -> Seq<Seq<char>> {
    record_lines(text::lines_of(file.text), text::lines_of(file.text).len() as int)
}

/// The files of the folder once this device has appended lines to its own, which is the one at `o`,
/// or is made there where the one at `o` is not its own.
pub open spec fn with_published(
    files: Seq<DecisionFileV>,
    o: int,
    lines: Seq<Seq<char>>,
) -> Seq<DecisionFileV> {
    let more = text::framed(lines, lines.len() as int);
    if o < files.len() && files[o].ours {
        files.update(o, DecisionFileV { ours: true, text: files[o].text + more })
    } else {
        files.insert(o, DecisionFileV { ours: true, text: more })
    }
}

/// Whether a stored record is read back from a file as it is stored: it stands on one line, and it
/// is the same record without the space around it.
pub open spec fn reads_back(line: Seq<char>) -> bool {
    text::one_line(line) && line_id(text::trimmed(line)) == line_id(line)
}

/// A line that is a record is among the record lines.
pub proof fn record_lines_hold(lines: Seq<Seq<char>>, n: int)
    requires
        0 <= n <= lines.len(),
    ensures
        forall|i: int|
            0 <= i < n && line_id(text::trimmed(#[trigger] lines[i])) is Some ==> record_lines(
                lines,
                n,
            ).contains(text::trimmed(lines[i])),
    decreases n,
{
    if n > 0 {
        record_lines_hold(lines, n - 1);
        let rest = record_lines(lines, n - 1);
        let all = record_lines(lines, n);
        assert forall|i: int|
            0 <= i < n && line_id(text::trimmed(#[trigger] lines[i])) is Some implies all.contains(
            text::trimmed(lines[i]),
        ) by {
            let t = text::trimmed(lines[i]);
            if i < n - 1 {
                assert(rest.contains(t));
                let k = choose|k: int| 0 <= k < rest.len() && rest[k] == t;
                assert(all[k] == t);
            } else {
                assert(all[rest.len() as int] == t);
            }
        }
    }
}

/// Every record line is one of the lines, trimmed, and is a record.
pub proof fn record_lines_come_from(lines: Seq<Seq<char>>, n: int, line: Seq<char>)
    requires
        0 <= n <= lines.len(),
        record_lines(lines, n).contains(line),
    ensures
        line_id(line) is Some,
        exists|i: int| 0 <= i < n && text::trimmed(#[trigger] lines[i]) == line,
    decreases n,
{
    let rest = record_lines(lines, n - 1);
    let all = record_lines(lines, n);
    let k = choose|k: int| 0 <= k < all.len() && all[k] == line;
    if n > 0 {
        if k < rest.len() {
            assert(rest[k] == line);
            record_lines_come_from(lines, n - 1, line);
        } else {
            assert(text::trimmed(lines[n - 1]) == line);
        }
    }
}

/// The folder holds the record lines of its files, and no others.
pub proof fn folder_holds(files: Seq<DecisionFileV>, n: int, line: Seq<char>)
    requires
        0 <= n <= files.len(),
    ensures
        folder_lines(files, false, n).contains(line) <==> exists|k: int|
            0 <= k < n && file_records(#[trigger] files[k]).contains(line),
    decreases n,
{
    if n > 0 {
        folder_holds(files, n - 1, line);
        let rest = folder_lines(files, false, n - 1);
        let more = file_records(files[n - 1]);
        let all = folder_lines(files, false, n);
        assert(all == rest + more);
        if all.contains(line) {
            let i = choose|i: int| 0 <= i < all.len() && all[i] == line;
            if i < rest.len() {
                assert(rest[i] == line);
                assert(rest.contains(line));
                let k = choose|k: int|
                    0 <= k < n - 1 && file_records(#[trigger] files[k]).contains(line);
                assert(file_records(files[k]).contains(line));
            } else {
                assert(more[i - rest.len()] == line);
                assert(file_records(files[n - 1]).contains(line));
            }
        }
        if exists|k: int| 0 <= k < n && file_records(#[trigger] files[k]).contains(line) {
            let k = choose|k: int| 0 <= k < n && file_records(#[trigger] files[k]).contains(line);
            if k < n - 1 {
                assert(rest.contains(line));
                let i = choose|i: int| 0 <= i < rest.len() && rest[i] == line;
                assert(all[i] == line);
            } else {
                let i = choose|i: int| 0 <= i < more.len() && more[i] == line;
                assert(all[rest.len() + i] == line);
            }
        }
    }
}

/// Appending to a device's own file leaves what its peers wrote as it was.
pub proof fn publishing_leaves_the_peers(
    files: Seq<DecisionFileV>,
    o: int,
    lines: Seq<Seq<char>>,
)
    requires
        0 <= o <= files.len(),
    ensures
        ({
            let after = with_published(files, o, lines);
            folder_lines(after, true, after.len() as int) == folder_lines(
                files,
                true,
                files.len() as int,
            )
        }),
{
    let after = with_published(files, o, lines);
    peers_unchanged(files, o, lines, after.len() as int);
}

proof fn peers_unchanged(files: Seq<DecisionFileV>, o: int, lines: Seq<Seq<char>>, n: int)
    requires
        0 <= o <= files.len(),
        0 <= n <= with_published(files, o, lines).len(),
    ensures
        folder_lines(with_published(files, o, lines), true, n) == folder_lines(
            files,
            true,
            if (o < files.len() && files[o].ours) || n <= o {
                n
            } else {
                n - 1
            },
        ),
    decreases n,
{
    if n > 0 {
        peers_unchanged(files, o, lines, n - 1);
        let after = with_published(files, o, lines);
        if o < files.len() && files[o].ours {
            if n - 1 != o {
                assert(after[n - 1] == files[n - 1]);
            }
        } else if n - 1 < o {
            assert(after[n - 1] == files[n - 1]);
        } else if n - 1 > o {
            assert(after[n - 1] == files[n - 2]);
        }
    }
}

/// Once lines are appended, the folder has the ids it had and those of the lines.
pub proof fn what_is_published_is_shared(
    files: Seq<DecisionFileV>,
    o: int,
    lines: Seq<Seq<char>>,
)
    requires
        0 <= o <= files.len(),
        o < files.len() && files[o].ours ==> text::whole_lines(files[o].text),
        forall|i: int|
            0 <= i < lines.len() ==> line_id(#[trigger] lines[i]) is Some && reads_back(lines[i]),
    ensures
        ({
            let after = with_published(files, o, lines);
            let before_ids = ids_of_lines(folder_lines(files, false, files.len() as int));
            let after_ids = ids_of_lines(folder_lines(after, false, after.len() as int));
            &&& forall|id: Seq<char>| #[trigger] before_ids.contains(id) ==> after_ids.contains(id)
            &&& forall|i: int|
                0 <= i < lines.len() ==> after_ids.contains((line_id(#[trigger] lines[i])->0).0)
        }),
{
    let after = with_published(files, o, lines);
    let n = files.len() as int;
    let m = after.len() as int;
    let had = folder_lines(files, false, n);
    let has = folder_lines(after, false, m);
    let ids = ids_of_lines(has);
    let k = lines.len() as int;
    let more = text::framed(lines, k);
    let grows = o < n && files[o].ours;
    let empty = Seq::<char>::empty();
    let old_text = if grows {
        files[o].text
    } else {
        empty
    };
    assert forall|i: int| 0 <= i < lines.len() implies text::one_line(#[trigger] lines[i]) by {
        assert(reads_back(lines[i]));
    }
    text::appended_lines_read_back(old_text, lines, k);
    assert(empty + more =~= more);
    assert(lines.take(k) =~= lines);
    assert(text::lines_of(after[o].text) == text::lines_of(old_text) + lines);
    let read = text::lines_of(after[o].text);
    let shift = text::lines_of(old_text).len() as int;
    record_lines_hold(read, read.len() as int);
    assert forall|i: int| 0 <= i < lines.len() implies ids.contains(
        (line_id(#[trigger] lines[i])->0).0,
    ) by {
        assert(reads_back(lines[i]) && line_id(lines[i]) is Some);
        assert(read[shift + i] == lines[i]);
        let t = text::trimmed(lines[i]);
        assert(file_records(after[o]).contains(t));
        folder_holds(after, m, t);
        assert(has.contains(t));
        let j = choose|j: int| 0 <= j < has.len() && has[j] == t;
        assert(ids[j] == (line_id(lines[i])->0).0);
    }
    let before_ids = ids_of_lines(had);
    assert forall|id: Seq<char>| #[trigger] before_ids.contains(id) implies ids.contains(id) by {
        let a = choose|a: int| 0 <= a < before_ids.len() && before_ids[a] == id;
        let line = had[a];
        assert(had.contains(line));
        folder_holds(files, n, line);
        let f = choose|f: int| 0 <= f < n && file_records(#[trigger] files[f]).contains(line);
        let g = if grows || f < o {
            f
        } else {
            f + 1
        };
        if grows && f == o {
            let held = text::lines_of(files[o].text);
            record_lines_come_from(held, held.len() as int, line);
            let b = choose|b: int|
                0 <= b < held.len() && text::trimmed(#[trigger] held[b]) == line;
            assert(read[b] == held[b]);
            assert(file_records(after[g]).contains(line));
        } else {
            assert(after[g] == files[f]);
            assert(file_records(after[g]).contains(line));
        }
        folder_holds(after, m, line);
        assert(has.contains(line));
        let j = choose|j: int| 0 <= j < has.len() && has[j] == line;
        assert(ids[j] == id);
    }
}

} // verus!
