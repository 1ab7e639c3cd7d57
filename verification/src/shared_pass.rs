//! What one pass over the shared folder does, given what is in the folder and what this device
//! holds.

use vstd::prelude::*;

use crate::json::{
    distinct_members, distinct_names, holds_texts, object_text, pretty_text, write_pretty,
};
use crate::list;
use crate::order::{arranged, arranged_contains};
use crate::records::{
    decision_key, key_text, line_id, store_record, values_of, Storable, StoredValue, StoredValueV,
};
use crate::settings::{
    agreed, effective, effective_settings, lines_published, parse_settings, plan_settings_sync,
    setting_fields, setting_to_json_line, settings_in, values_accepted, CycleV, Setting, SettingV,
};
use crate::shared_store::{
    entries_of, folder_lines, ids_of_lines, local_settings, nothing_left_to_publish,
    only_own_records_are_published, own_unshared, publishing_leaves_the_peers, read_applied,
    reads_back, remembered, settings_held, unpublished, unpublished_is_complete,
    what_is_published_is_shared, with_published, write_applied, DecisionFileV, SCHEMA_VERSION,
    SETTINGS_PREFIX,
};
use crate::text;
use crate::textmap::TextMap;

verus! {

/// What to do about settings, in this order: write here what peers changed, append to this device's
/// own file what was changed here, and only once that is done remember what is agreed.
#[derive(Debug)]
pub struct SettingsPass {
    /// The values to write here, by datastore key.
    pub writes: Vec<StoredValue>,
    /// The lines for this device's own file.
    pub lines: Vec<String>,
    /// What to remember as agreed.
    pub applied: String,
}

/// The settings in the first `n` files.
pub open spec fn folder_settings(files: Seq<Seq<char>>, n: int) -> Seq<SettingV>
    decreases n,
{
    if n <= 0 {
        Seq::empty()
    } else {
        let lines = text::lines_of(files[n - 1]);
        folder_settings(files, n - 1) + settings_in(lines, lines.len() as int)
    }
}

/// One cycle of the settings: what this device holds, what the folder says, and what was agreed
/// before. A device for which nothing was agreed yet is joining.
pub open spec fn cycle_of(
    files: Seq<Seq<char>>,
    stored: Seq<StoredValueV>,
    agreed_before: Option<Seq<char>>,
) -> CycleV {
    CycleV {
        local: settings_held(stored, stored.len() as int),
        merged: effective(folder_settings(files, files.len() as int)),
        applied: remembered(agreed_before),
        joining: remembered(agreed_before) == Map::<Seq<char>, Seq<char>>::empty(),
    }
}

/// Settings as the lines that write them.
pub open spec fn written_lines(settings: Seq<SettingV>) -> Seq<Seq<char>> {
    Seq::new(settings.len(), |i: int| object_text(setting_fields(settings[i])))
}

/// Settings as they are stored: under their prefixed keys.
pub open spec fn stored_settings(fields: Seq<(Seq<char>, Seq<char>)>) -> Seq<StoredValueV> {
    Seq::new(
        fields.len(),
        |i: int| StoredValueV { key: SETTINGS_PREFIX@ + fields[i].0, value: fields[i].1 },
    )
}

/// Whether a pass says what a cycle calls for: the values accepted, the lines published, and what
/// is then agreed.
pub open spec fn carries_out(
    c: CycleV,
    now: Seq<char>,
    author: Seq<char>,
    writes: Seq<StoredValueV>,
    lines: Seq<Seq<char>>,
    applied: Seq<char>,
) -> bool {
    &&& exists|fields: Seq<(Seq<char>, Seq<char>)>| #[trigger]
        entries_of(values_accepted(c), fields) && writes == stored_settings(fields)
    &&& exists|settings: Seq<SettingV>| #[trigger]
        lines_published(c, now, author, settings) && lines == written_lines(settings)
    &&& remembered(Some(applied)) == agreed(c)
}

fn read_folder(files: &Vec<String>) -> (r: Vec<Setting>)
    ensures
        r.deep_view() == folder_settings(files.deep_view(), files.len() as int),
{
    let ghost fv = files.deep_view();
    let mut out: Vec<Setting> = Vec::new();
    assert(out.deep_view() =~= Seq::empty());
    let mut i: usize = 0;
    while i < files.len()
        invariant
            i <= files.len(),
            fv == files.deep_view(),
            out.deep_view() == folder_settings(fv, i as int),
        decreases files.len() - i,
    {
        assert(fv[i as int] == files@[i as int]@);
        let mut found = parse_settings(files[i].as_str());
        let ghost before = out.deep_view();
        let ghost more = found.deep_view();
        out.append(&mut found);
        assert(out.deep_view() =~= before + more);
        i = i + 1;
    }
    out
}

/// The entries of a map as they are stored, in the order of the keys.
fn to_store(values: &TextMap<String>) -> (r: Vec<StoredValue>)
    ensures
        exists|fields: Seq<(Seq<char>, Seq<char>)>| #[trigger]
            entries_of(values.deep_view(), fields) && r.deep_view() == stored_settings(fields),
{
    let keys = values.keys();
    let ghost kv = keys.deep_view();
    let ghost map = values.deep_view();
    let ghost fields = Seq::new(kv.len(), |k: int| (kv[k], map[kv[k]]));
    let ghost goal = stored_settings(fields);
    assert(kv.len() == keys.len());
    let mut out: Vec<StoredValue> = Vec::new();
    assert(out.deep_view() =~= goal.take(0));
    let mut i: usize = 0;
    while i < keys.len()
        invariant
            i <= keys.len(),
            kv == keys.deep_view(),
            kv.len() == keys.len(),
            map == values.deep_view(),
            fields == Seq::new(kv.len(), |k: int| (kv[k], map[kv[k]])),
            goal == stored_settings(fields),
            forall|k: Seq<char>| kv.contains(k) <==> values@.contains_key(k),
            out.deep_view() == goal.take(i as int),
        decreases keys.len() - i,
    {
        assert(kv[i as int] == keys@[i as int]@);
        assert(kv.contains(kv[i as int]));
        match values.get(keys[i].as_str()) {
            Some(v) => {
                let mut key = SETTINGS_PREFIX.to_owned();
                key.append(keys[i].as_str());
                let one = StoredValue { key, value: v.clone() };
                assert(one.deep_view() == goal[i as int]);
                list::push(&mut out, one);
            },
            None => {
                assert(false);
            },
        }
        i = i + 1;
        assert(out.deep_view() =~= goal.take(i as int));
    }
    assert(out.deep_view() =~= goal);
    proof {
        assert(entries_of(map, fields)) by {
            assert forall|k: int| 0 <= k < fields.len() implies map.contains_key(
                (#[trigger] fields[k]).0,
            ) && map[fields[k].0] == fields[k].1 by {
                assert(kv.contains(kv[k]));
            }
            assert forall|key: Seq<char>| #[trigger]
                map.contains_key(key) implies crate::json::names_field(fields, key) by {
                assert(kv.contains(key));
                let k = choose|k: int| 0 <= k < kv.len() && kv[k] == key;
                assert(fields[k].0 == key);
            }
            assert forall|a: int, b: int| 0 <= a < b < fields.len() implies text::before(
                (#[trigger] fields[a]).0,
                (#[trigger] fields[b]).0,
            ) by {
                assert(!text::before(kv[b], kv[a]));
                assert(kv[a] != kv[b]);
                text::before_is_total_order(kv[a], kv[b], kv[b]);
            }
        }
    }
    out
}

/// What to do about settings, given the settings files of the folder, this device's own among them,
/// what it stores, and what it remembers as agreed.
pub fn sync_settings(
    files: &Vec<String>,
    stored: &Vec<StoredValue>,
    agreed_before: Option<&str>,
    now: &str,
    own_device: &str,
) -> (r: SettingsPass)
    ensures
        carries_out(
            cycle_of(
                files.deep_view(),
                stored.deep_view(),
                match agreed_before {
                    Some(s) => Some(s@),
                    None => None,
                },
            ),
            now@,
            own_device@,
            r.writes.deep_view(),
            r.lines.deep_view(),
            r.applied@,
        ),
{
    let found = read_folder(files);
    let merged = effective_settings(&found);
    let local = local_settings(stored);
    let before = read_applied(agreed_before);
    let joining: bool = before.len() == 0;
    proof {
        if joining {
            assert(before@.dom() =~= Set::empty());
            assert(before.deep_view() =~= Map::empty());
        } else if before.deep_view() == Map::<Seq<char>, Seq<char>>::empty() {
            assert(before@.dom() =~= before.deep_view().dom());
            assert(before@.dom() =~= Set::empty());
        }
    }
    let plan = plan_settings_sync(&local, &merged, &before, joining, now, own_device);
    let ghost settings = plan.lines_to_append.deep_view();
    let ghost goal = written_lines(settings);
    assert(settings.len() == plan.lines_to_append.len());
    let mut lines: Vec<String> = Vec::new();
    assert(lines.deep_view() =~= goal.take(0));
    let mut i: usize = 0;
    while i < plan.lines_to_append.len()
        invariant
            i <= plan.lines_to_append.len(),
            settings == plan.lines_to_append.deep_view(),
            settings.len() == plan.lines_to_append.len(),
            goal == written_lines(settings),
            lines.deep_view() == goal.take(i as int),
        decreases plan.lines_to_append.len() - i,
    {
        assert(settings[i as int] == plan.lines_to_append@[i as int].deep_view());
        list::push(&mut lines, setting_to_json_line(&plan.lines_to_append[i]));
        i = i + 1;
        assert(lines.deep_view() =~= goal.take(i as int));
    }
    assert(lines.deep_view() =~= goal);
    let writes = to_store(&plan.values_to_apply);
    let applied = write_applied(&plan.applied);
    SettingsPass { writes, lines, applied }
}

/// A record as it is to be stored.
#[verifier::ext_equal]
pub struct StorableV {
    pub id: Seq<char>,
    pub key: Seq<char>,
    pub canonical: Seq<char>,
}

impl DeepView for Storable {
    type V = StorableV;

    open spec fn deep_view(&self) -> StorableV {
        StorableV { id: self.id@, key: self.key@, canonical: self.canonical@ }
    }
}

/// A peer's record that is to be stored, and whether this device did not hold it before.
#[derive(Debug)]
pub struct Import {
    pub record: Storable,
    pub fresh: bool,
}

#[verifier::ext_equal]
pub struct ImportV {
    pub record: StorableV,
    pub fresh: bool,
}

impl DeepView for Import {
    type V = ImportV;

    open spec fn deep_view(&self) -> ImportV {
        ImportV { record: self.record.deep_view(), fresh: self.fresh }
    }
}

/// What comes of the lines that peers wrote: the records to store, and what is wrong with the
/// others.
#[derive(Debug)]
pub struct Imports {
    pub records: Vec<Import>,
    pub problems: Vec<String>,
}

/// A line checked: what is to be stored of it, or what is wrong with it.
pub open spec fn checked(line: Seq<char>) -> Result<StorableV, Seq<char>> {
    match line_id(line) {
        None => Err("not a decision or tombstone record"@),
        Some(p) => match crate::json::document(line) {
            None => Err(p.0 + " is not JSON: "@ + crate::json::json_fault(line)->0),
            Some(d) => if key_text(p.0) {
                Ok(StorableV { id: p.0, key: decision_key(p.0), canonical: d.compact@ })
            } else {
                Err("`id` has characters that cannot be a key: "@ + p.0)
            },
        },
    }
}

/// The records among the first `n` lines.
pub open spec fn importable(lines: Seq<Seq<char>>, n: int) -> Seq<StorableV>
    decreases n,
{
    if n <= 0 {
        Seq::empty()
    } else {
        match checked(lines[n - 1]) {
            Ok(s) => importable(lines, n - 1).push(s),
            Err(_) => importable(lines, n - 1),
        }
    }
}

/// What is wrong with those of the first `n` lines that are no records.
pub open spec fn refusals(lines: Seq<Seq<char>>, n: int) -> Seq<Seq<char>>
    decreases n,
{
    if n <= 0 {
        Seq::empty()
    } else {
        match checked(lines[n - 1]) {
            Ok(_) => refusals(lines, n - 1),
            Err(why) => refusals(lines, n - 1).push(why),
        }
    }
}

/// The keys that values are stored under.
pub open spec fn keys_in(stored: Seq<StoredValueV>) -> Seq<Seq<char>> {
    Seq::new(stored.len(), |i: int| stored[i].key)
}

/// Whether one of the records goes under this key.
pub open spec fn has_key(records: Seq<StorableV>, key: Seq<char>) -> bool {
    exists|i: int| 0 <= i < records.len() && (#[trigger] records[i]).key == key
}

/// The records among the first `n` lines, each with whether it is neither held nor listed before.
pub open spec fn imports_of(held: Seq<Seq<char>>, lines: Seq<Seq<char>>, n: int) -> Seq<ImportV>
    decreases n,
{
    if n <= 0 {
        Seq::empty()
    } else {
        let rest = imports_of(held, lines, n - 1);
        match checked(lines[n - 1]) {
            Ok(s) => rest.push(
                ImportV {
                    record: s,
                    fresh: !held.contains(s.key) && !has_key(importable(lines, n - 1), s.key),
                },
            ),
            Err(_) => rest,
        }
    }
}

/// Check the lines that peers wrote, given what this device stores.
pub fn decisions_to_import(lines: &Vec<String>, stored: &Vec<StoredValue>) -> (r: Imports)
    ensures
        r.records.deep_view() == imports_of(
            keys_in(stored.deep_view()),
            lines.deep_view(),
            lines.len() as int,
        ),
        r.problems.deep_view() == refusals(lines.deep_view(), lines.len() as int),
{
    let ghost lv = lines.deep_view();
    let ghost held = keys_in(stored.deep_view());
    let mut keys: TextMap<bool> = TextMap::new();
    let mut k: usize = 0;
    while k < stored.len()
        invariant
            k <= stored.len(),
            held == keys_in(stored.deep_view()),
            held.len() == stored.len(),
            forall|key: Seq<char>| #[trigger]
                keys@.contains_key(key) <==> held.take(k as int).contains(key),
        decreases stored.len() - k,
    {
        assert(held[k as int] == stored@[k as int].key@);
        let ghost before = held.take(k as int);
        let ghost after = held.take(k + 1);
        keys.insert(stored[k].key.clone(), true);
        proof {
            assert(after =~= before.push(held[k as int]));
            assert forall|key: Seq<char>|
                after.contains(key) <==> before.contains(key) || key == held[k as int] by {
                if before.contains(key) {
                    let i = choose|i: int| 0 <= i < before.len() && before[i] == key;
                    assert(after[i] == key);
                }
                assert(after[k as int] == held[k as int]);
            }
        }
        k = k + 1;
    }
    assert(held.take(held.len() as int) =~= held);
    let mut records: Vec<Import> = Vec::new();
    let mut problems: Vec<String> = Vec::new();
    assert(records.deep_view() =~= Seq::empty());
    assert(problems.deep_view() =~= Seq::empty());
    let mut i: usize = 0;
    while i < lines.len()
        invariant
            i <= lines.len(),
            lv == lines.deep_view(),
            records.deep_view() == imports_of(held, lv, i as int),
            problems.deep_view() == refusals(lv, i as int),
            forall|key: Seq<char>| #[trigger]
                keys@.contains_key(key) <==> held.contains(key) || has_key(
                    importable(lv, i as int),
                    key,
                ),
        decreases lines.len() - i,
    {
        assert(lv[i as int] == lines@[i as int]@);
        let ghost rest = importable(lv, i as int);
        match store_record(lines[i].as_str()) {
            Ok(s) => {
                let ghost sv = s.deep_view();
                assert(checked(lv[i as int]) == Ok::<StorableV, Seq<char>>(sv));
                let fresh: bool = !keys.contains_key(s.key.as_str());
                keys.insert(s.key.clone(), true);
                proof {
                    let all = rest.push(sv);
                    assert forall|key: Seq<char>|
                        has_key(all, key) <==> has_key(rest, key) || key == sv.key by {
                        if has_key(rest, key) {
                            let j = choose|j: int|
                                0 <= j < rest.len() && (#[trigger] rest[j]).key == key;
                            assert(all[j].key == key);
                        }
                        assert(all[rest.len() as int] == sv);
                    }
                }
                let one = Import { record: s, fresh };
                assert(one.deep_view() =~= ImportV {
                    record: sv,
                    fresh: !held.contains(sv.key) && !has_key(rest, sv.key),
                });
                list::push(&mut records, one);
            },
            Err(e) => {
                let why = e.message();
                assert(checked(lv[i as int]) == Err::<StorableV, Seq<char>>(why@));
                list::push(&mut problems, why);
            },
        }
        i = i + 1;
    }
    Imports { records, problems }
}

/// What is stored once the first `n` records are written, one after another.
pub open spec fn stored_after(
    store: Map<Seq<char>, Seq<char>>,
    records: Seq<StorableV>,
    n: int,
) -> Map<Seq<char>, Seq<char>>
    decreases n,
{
    if n <= 0 {
        store
    } else {
        stored_after(store, records, n - 1).insert(records[n - 1].key, records[n - 1].canonical)
    }
}

/// Writing the same records leaves the same under their keys, whatever was stored before, and what
/// was stored before under every other key.
proof fn writing_decides(
    a: Map<Seq<char>, Seq<char>>,
    b: Map<Seq<char>, Seq<char>>,
    records: Seq<StorableV>,
    n: int,
    key: Seq<char>,
)
    requires
        0 <= n <= records.len(),
    ensures
        ({
            let x = stored_after(a, records, n);
            let y = stored_after(b, records, n);
            if has_key(records.take(n), key) {
                &&& x.contains_key(key)
                &&& y.contains_key(key)
                &&& x[key] == y[key]
                &&& exists|i: int|
                    0 <= i < n && (#[trigger] records[i]).key == key && x[key]
                        == records[i].canonical
            } else {
                &&& x.contains_key(key) == a.contains_key(key)
                &&& a.contains_key(key) ==> x[key] == a[key]
                &&& y.contains_key(key) == b.contains_key(key)
                &&& b.contains_key(key) ==> y[key] == b[key]
            }
        }),
    decreases n,
{
    if n > 0 {
        writing_decides(a, b, records, n - 1, key);
        let all = records.take(n);
        let rest = records.take(n - 1);
        if has_key(rest, key) {
            let i = choose|i: int| 0 <= i < rest.len() && (#[trigger] rest[i]).key == key;
            assert(all[i].key == key);
        }
        if has_key(all, key) && !has_key(rest, key) {
            let i = choose|i: int| 0 <= i < all.len() && (#[trigger] all[i]).key == key;
            if i < n - 1 {
                assert(rest[i].key == key);
            }
        }
        assert(all[n - 1] == records[n - 1]);
    }
}

/// After a pass every record that peers wrote and that can be stored is stored, as one of them
/// writes it, and everything else is stored as it was.
pub proof fn every_peer_record_is_stored(
    store: Map<Seq<char>, Seq<char>>,
    lines: Seq<Seq<char>>,
    key: Seq<char>,
)
    ensures
        ({
            let records = importable(lines, lines.len() as int);
            let after = stored_after(store, records, records.len() as int);
            if has_key(records, key) {
                after.contains_key(key) && exists|i: int|
                    0 <= i < records.len() && (#[trigger] records[i]).key == key && after[key]
                        == records[i].canonical
            } else {
                after.contains_key(key) == store.contains_key(key) && (store.contains_key(key)
                    ==> after[key] == store[key])
            }
        }),
        forall|k: int|
            0 <= k < lines.len() && (#[trigger] checked(lines[k])) is Ok ==> has_key(
                importable(lines, lines.len() as int),
                checked(lines[k])->Ok_0.key,
            ),
{
    let records = importable(lines, lines.len() as int);
    writing_decides(store, store, records, records.len() as int, key);
    assert(records.take(records.len() as int) =~= records);
    importable_is_complete(lines, lines.len() as int);
}

proof fn importable_is_complete(lines: Seq<Seq<char>>, n: int)
    requires
        0 <= n <= lines.len(),
    ensures
        forall|k: int|
            0 <= k < n && (#[trigger] checked(lines[k])) is Ok ==> has_key(
                importable(lines, n),
                checked(lines[k])->Ok_0.key,
            ),
    decreases n,
{
    if n > 0 {
        importable_is_complete(lines, n - 1);
        let rest = importable(lines, n - 1);
        let all = importable(lines, n);
        assert forall|k: int| 0 <= k < n && (#[trigger] checked(lines[k])) is Ok implies has_key(
            all,
            checked(lines[k])->Ok_0.key,
        ) by {
            let key = checked(lines[k])->Ok_0.key;
            if k < n - 1 {
                let i = choose|i: int| 0 <= i < rest.len() && (#[trigger] rest[i]).key == key;
                assert(all[i].key == key);
            } else {
                assert(all[rest.len() as int].key == key);
            }
        }
    }
}

/// A second pass over the same lines imports nothing: with what the first one stored, no record is
/// new, and writing them again changes nothing.
pub proof fn a_second_pass_imports_nothing(
    store: Map<Seq<char>, Seq<char>>,
    lines: Seq<Seq<char>>,
    held: Seq<Seq<char>>,
)
    requires
        ({
            let records = importable(lines, lines.len() as int);
            let after = stored_after(store, records, records.len() as int);
            forall|key: Seq<char>| #[trigger] after.contains_key(key) ==> held.contains(key)
        }),
    ensures
        forall|k: int|
            0 <= k < imports_of(held, lines, lines.len() as int).len() ==> !(
            #[trigger] imports_of(held, lines, lines.len() as int)[k]).fresh,
        ({
            let records = importable(lines, lines.len() as int);
            let after = stored_after(store, records, records.len() as int);
            stored_after(after, records, records.len() as int) == after
        }),
{
    let records = importable(lines, lines.len() as int);
    let n = records.len() as int;
    let after = stored_after(store, records, n);
    let again = stored_after(after, records, n);
    assert(records.take(n) =~= records);
    assert forall|key: Seq<char>| has_key(records, key) implies held.contains(key) by {
        writing_decides(store, store, records, n, key);
    }
    nothing_is_fresh(held, lines, lines.len() as int);
    assert(again =~= after) by {
        assert forall|key: Seq<char>| #[trigger] again.contains_key(key) == after.contains_key(key)
            && (after.contains_key(key) ==> again[key] == after[key]) by {
            writing_decides(store, after, records, n, key);
        }
    }
}

proof fn nothing_is_fresh(held: Seq<Seq<char>>, lines: Seq<Seq<char>>, n: int)
    requires
        0 <= n <= lines.len(),
        forall|key: Seq<char>| #[trigger]
            has_key(importable(lines, lines.len() as int), key) ==> held.contains(key),
    ensures
        forall|k: int|
            0 <= k < imports_of(held, lines, n).len() ==> !(#[trigger] imports_of(
                held,
                lines,
                n,
            )[k]).fresh,
    decreases n,
{
    if n > 0 {
        nothing_is_fresh(held, lines, n - 1);
        let rest = imports_of(held, lines, n - 1);
        let all = imports_of(held, lines, n);
        if let Ok(s) = checked(lines[n - 1]) {
            importable_is_complete(lines, lines.len() as int);
            assert(checked(lines[n - 1]) is Ok);
            assert(has_key(importable(lines, lines.len() as int), s.key));
        }
        assert forall|k: int| 0 <= k < all.len() implies !(#[trigger] all[k]).fresh by {
            if k < rest.len() {
                assert(all[k] == rest[k]);
            }
        }
    }
}

/// Running a pass twice moves nothing the second time. The first pass stores what peers wrote and
/// appends to this device's own file what it wrote itself and the folder did not have. With the
/// folder and the store as they then are, `stored` before and `again` after being lists of what is
/// stored, a second pass finds no record that is new, changes nothing by writing them again, and has
/// nothing to publish. This device's own file must end in a whole line, and the records it publishes
/// must each be stored as one line, as they are when they are checked before they are stored.
pub proof fn a_second_pass_moves_nothing(
    files: Seq<DecisionFileV>,
    o: int,
    store: Map<Seq<char>, Seq<char>>,
    stored: Seq<StoredValueV>,
    again: Seq<StoredValueV>,
    own: Seq<char>,
)
    requires
        0 <= o <= files.len(),
        o < files.len() && files[o].ours ==> text::whole_lines(files[o].text),
        ({
            let peers = folder_lines(files, true, files.len() as int);
            let records = importable(peers, peers.len() as int);
            let after = stored_after(store, records, records.len() as int);
            lists(stored, after) && lists(again, after)
        }),
        forall|i: int|
            0 <= i < stored.len() && own_record((#[trigger] stored[i]).value, own) ==> reads_back(
                stored[i].value,
            ),
    ensures
        ({
            let peers = folder_lines(files, true, files.len() as int);
            let records = importable(peers, peers.len() as int);
            let after = stored_after(store, records, records.len() as int);
            let published = to_publish(files, stored, own);
            let later = with_published(files, o, published);
            let seen = folder_lines(later, true, later.len() as int);
            &&& seen == peers
            &&& forall|k: int|
                0 <= k < imports_of(keys_in(again), seen, seen.len() as int).len() ==> !(
                #[trigger] imports_of(keys_in(again), seen, seen.len() as int)[k]).fresh
            &&& stored_after(after, records, records.len() as int) == after
            &&& to_publish(later, again, own).len() == 0
        }),
{
    let peers = folder_lines(files, true, files.len() as int);
    let records = importable(peers, peers.len() as int);
    let after = stored_after(store, records, records.len() as int);
    let lines = values_of(arranged::<StoredValue>(stored));
    let ids = ids_of_lines(folder_lines(files, false, files.len() as int));
    let published = to_publish(files, stored, own);
    let later = with_published(files, o, published);
    publishing_leaves_the_peers(files, o, published);
    assert forall|key: Seq<char>| #[trigger] after.contains_key(key) implies keys_in(
        again,
    ).contains(key) by {
        let i = choose|i: int|
            0 <= i < again.len() && #[trigger] again[i] == (StoredValueV { key, value: after[key] });
        assert(keys_in(again)[i] == key);
    }
    a_second_pass_imports_nothing(store, peers, keys_in(again));
    only_own_records_are_published(lines, own, ids, lines.len() as int);
    unpublished_is_complete(lines, own, ids, lines.len() as int);
    values_are_stored(stored);
    values_are_stored(again);
    assert forall|k: int| 0 <= k < published.len() implies line_id(#[trigger] published[k]) is Some
        && reads_back(published[k]) by {
        assert(own_unshared(published[k], own, ids));
        assert(lines.contains(published[k]));
        let l = choose|l: int| 0 <= l < lines.len() && lines[l] == published[k];
        let i = choose|i: int| 0 <= i < stored.len() && (#[trigger] stored[i]).value == lines[l];
        assert(own_record(stored[i].value, own));
    }
    what_is_published_is_shared(files, o, published);
    let shared = ids_of_lines(folder_lines(later, false, later.len() as int));
    let next = values_of(arranged::<StoredValue>(again));
    assert forall|i: int| 0 <= i < next.len() implies !own_unshared(
        #[trigger] next[i],
        own,
        shared,
    ) by {
        if own_unshared(next[i], own, shared) {
            let a = choose|a: int| 0 <= a < again.len() && (#[trigger] again[a]).value == next[i];
            let key = again[a].key;
            assert(after.contains_key(key) && after[key] == next[i]);
            let b = choose|b: int|
                0 <= b < stored.len() && #[trigger] stored[b] == (StoredValueV {
                    key,
                    value: after[key],
                });
            assert(lines.contains(stored[b].value));
            let l = choose|l: int| 0 <= l < lines.len() && lines[l] == next[i];
            if own_unshared(lines[l], own, ids) {
                assert(published.contains(lines[l]));
                let k = choose|k: int| 0 <= k < published.len() && published[k] == lines[l];
                assert(shared.contains((line_id(published[k])->0).0));
            } else {
                assert(ids.contains((line_id(lines[l])->0).0));
            }
        }
    }
    nothing_left_to_publish(next, own, shared, next.len() as int);
}

/// What a pass publishes, given the files of the folder and what is stored.
pub open spec fn to_publish(
    files: Seq<DecisionFileV>,
    stored: Seq<StoredValueV>,
    own: Seq<char>,
) -> Seq<Seq<char>> {
    let lines = values_of(arranged::<StoredValue>(stored));
    unpublished(
        lines,
        own,
        ids_of_lines(folder_lines(files, false, files.len() as int)),
        lines.len() as int,
    )
}

/// Whether a list holds exactly what is stored.
pub open spec fn lists(stored: Seq<StoredValueV>, store: Map<Seq<char>, Seq<char>>) -> bool {
    &&& forall|i: int|
        0 <= i < stored.len() ==> store.contains_key((#[trigger] stored[i]).key)
            && store[stored[i].key] == stored[i].value
    &&& forall|key: Seq<char>| #[trigger]
        store.contains_key(key) ==> exists|i: int|
            0 <= i < stored.len() && #[trigger] stored[i] == (StoredValueV { key, value: store[key] })
}

/// Whether a line is a record that this device wrote.
pub open spec fn own_record(line: Seq<char>, own: Seq<char>) -> bool {
    line_id(line) matches Some(p) && p.1 == own
}

/// The lines of what is stored are its values.
proof fn values_are_stored(stored: Seq<StoredValueV>)
    ensures
        ({
            let lines = values_of(arranged::<StoredValue>(stored));
            &&& forall|i: int| 0 <= i < stored.len() ==> lines.contains((#[trigger] stored[i]).value)
            &&& forall|l: int|
                0 <= l < lines.len() ==> exists|i: int|
                    0 <= i < stored.len() && (#[trigger] stored[i]).value == #[trigger] lines[l]
        }),
{
    let sorted = arranged::<StoredValue>(stored);
    let lines = values_of(sorted);
    assert forall|i: int| 0 <= i < stored.len() implies lines.contains(
        (#[trigger] stored[i]).value,
    ) by {
        arranged_contains::<StoredValue>(stored, stored[i]);
        assert(stored.contains(stored[i]));
        let k = choose|k: int| 0 <= k < sorted.len() && sorted[k] == stored[i];
        assert(lines[k] == stored[i].value);
    }
    assert forall|l: int| 0 <= l < lines.len() implies exists|i: int|
        0 <= i < stored.len() && (#[trigger] stored[i]).value == #[trigger] lines[l] by {
        arranged_contains::<StoredValue>(stored, sorted[l]);
        assert(sorted.contains(sorted[l]));
        let i = choose|i: int| 0 <= i < stored.len() && stored[i] == sorted[l];
        assert(stored[i].value == lines[l]);
    }
}

/// How a device announces itself in the folder.
pub open spec fn announcement(
    own_device: Seq<char>,
    hostname: Seq<char>,
    platform: Seq<char>,
    version: Seq<char>,
    now: Seq<char>,
) -> Seq<(Seq<char>, Seq<char>)> {
    seq![
        ("device_uuid"@, own_device),
        ("display_name"@, hostname),
        ("role"@, "desktop"@),
        ("platform"@, platform),
        ("app_version"@, version),
        ("last_seen"@, now),
    ]
}

proof fn announcement_names_differ(fields: Seq<(Seq<char>, Seq<char>)>)
    requires
        fields.len() == 6,
        fields[0].0 == "device_uuid"@,
        fields[1].0 == "display_name"@,
        fields[2].0 == "role"@,
        fields[3].0 == "platform"@,
        fields[4].0 == "app_version"@,
        fields[5].0 == "last_seen"@,
    ensures
        distinct_members(fields, seq![("schema_version"@, SCHEMA_VERSION)]),
{
    reveal_strlit("device_uuid");
    reveal_strlit("display_name");
    reveal_strlit("role");
    reveal_strlit("platform");
    reveal_strlit("app_version");
    reveal_strlit("last_seen");
    reveal_strlit("schema_version");
    let counts = seq![("schema_version"@, SCHEMA_VERSION)];
    assert("device_uuid"@.len() == 11);
    assert("display_name"@.len() == 12);
    assert("role"@.len() == 4);
    assert("platform"@.len() == 8);
    assert("app_version"@.len() == 11);
    assert("last_seen"@.len() == 9);
    assert("schema_version"@.len() == 14);
    assert("device_uuid"@[0] == 'd');
    assert("app_version"@[0] == 'a');
    assert(distinct_names(fields));
}

/// What a device writes about itself, so that the others can name it.
pub fn device_meta(
    own_device: &str,
    hostname: &str,
    platform: &str,
    version: &str,
    now: &str,
) -> (r: String)
    ensures
        ({
            let texts = announcement(own_device@, hostname@, platform@, version@, now@);
            &&& r@ == pretty_text(texts, seq![("schema_version"@, SCHEMA_VERSION)])
            &&& holds_texts(r@, texts)
        }),
{
    let mut texts: Vec<(String, String)> = Vec::new();
    texts.push(("device_uuid".to_owned(), own_device.to_owned()));
    texts.push(("display_name".to_owned(), hostname.to_owned()));
    texts.push(("role".to_owned(), "desktop".to_owned()));
    texts.push(("platform".to_owned(), platform.to_owned()));
    texts.push(("app_version".to_owned(), version.to_owned()));
    texts.push(("last_seen".to_owned(), now.to_owned()));
    let mut counts: Vec<(String, u64)> = Vec::new();
    counts.push(("schema_version".to_owned(), SCHEMA_VERSION));
    proof {
        let tv = texts.deep_view();
        assert(tv =~= announcement(own_device@, hostname@, platform@, version@, now@));
        assert(counts.deep_view() =~= seq![("schema_version"@, SCHEMA_VERSION)]);
        announcement_names_differ(tv);
    }
    write_pretty(&texts, &counts)
}

} // verus!
