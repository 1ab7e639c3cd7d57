//! What becomes of each setting, and what the folder's files hold.

use vstd::prelude::*;

use crate::decision::{line_record, value_in, RecordV};
use crate::json::document;
use crate::record_laws::says;
use crate::records::{key_text, line_id, StoredValueV};
use crate::settings::{
    agreed, effective, line_for, lines_published, publishes, setting_in, settings_in, shared_key,
    supersedes, supersedes_is_total_order, values_accepted, winner_for, winner_is_unbeaten, CycleV,
    SettingV,
};
use crate::shared_pass::{
    carries_out, checked, cycle_of, folder_settings, has_key, importable, imports_of, refusals,
    stored_settings, ImportV, StorableV,
};
use crate::shared_store::{
    entries_of, file_records, folder_holds, folder_lines, record_lines, record_lines_come_from,
    record_lines_hold, remembered, settings_held, unpublished, DecisionFileV,
};
use crate::text;
use crate::time::{stamp_before, stamp_in};

verus! {

/// Whether a text begins with another.
pub open spec fn opens_with(s: Seq<char>, front: Seq<char>) -> bool {
    front.len() <= s.len() && s.take(front.len() as int) == front
}

/// The settings that are shared are these, and those of these three kinds.
pub proof fn these_settings_travel(key: Seq<char>)
    ensures
        shared_key(key) <==> (key == "classes"@ || key == "category_sets"@ || key
            == "active_set_ids"@ || key == "category_pins"@ || key == "privacy_filters"@ || key
            == "always_active_pattern"@ || key == "startOfDay"@ || key == "startOfWeek"@ || key
            == "durationDefault"@ || opens_with(key, "category."@) || opens_with(key, "label."@)
            || opens_with(key, "rule."@)),
{
    assert forall|front: Seq<char>| #[trigger] opens_with(key, front) == text::begins_with(
        key,
        front,
    ) by {
        if front.len() <= key.len() {
            assert(key.take(front.len() as int) =~= key.subrange(0, front.len() as int));
        }
    }
}

/// Of two lines for a setting the later wins; one whose time can be read wins over one whose time
/// cannot; at one time the lower device wins, and of one device the lower value.
pub proof fn the_later_line_wins(a: SettingV, b: SettingV)
    ensures
        ({
            let (x, y) = (stamp_in(a.updated_at), stamp_in(b.updated_at));
            &&& x is Some && y is Some && stamp_before(y->0, x->0) ==> supersedes(a, b)
                && !supersedes(b, a)
            &&& x is Some && y is None ==> supersedes(a, b) && !supersedes(b, a)
            &&& x is None && y is None && text::before(b.updated_at, a.updated_at) ==> supersedes(
                a,
                b,
            ) && !supersedes(b, a)
            &&& x is Some && x == y && text::before(a.updated_by, b.updated_by) ==> supersedes(a, b)
                && !supersedes(b, a)
            &&& x is Some && x == y && a.updated_by == b.updated_by && text::before(
                a.value,
                b.value,
            ) ==> supersedes(a, b) && !supersedes(b, a)
        }),
{
    supersedes_is_total_order(a, b, b);
}

/// A setting has the value of one of its lines, which no other line for it beats; it has one just
/// where some line sets it.
pub proof fn a_setting_is_what_its_best_line_says(settings: Seq<SettingV>, key: Seq<char>)
    ensures
        effective(settings).contains_key(key) <==> exists|i: int|
            0 <= i < settings.len() && (#[trigger] settings[i]).key == key,
        effective(settings).contains_key(key) ==> ({
            let best = effective(settings)[key];
            best.key == key && settings.contains(best) && forall|i: int|
                0 <= i < settings.len() && (#[trigger] settings[i]).key == key ==> !supersedes(
                    settings[i],
                    best,
                )
        }),
{
    winner_is_unbeaten(settings, key, settings.len() as int);
    if let Some(w) = winner_for(settings, key, settings.len() as int) {
        assert(settings[w].key == key);
    }
}

/// Whether the owner has changed a setting here: it is set, to something else than was agreed.
pub open spec fn changed_here(c: CycleV, key: Seq<char>) -> bool {
    c.local.contains_key(key) && !(c.applied.contains_key(key) && c.applied[key] == c.local[key])
}

/// Whether a setting goes out: the owner changed it here, and this device is not one that is joining
/// a folder which has it.
pub open spec fn goes_out(c: CycleV, key: Seq<char>) -> bool {
    changed_here(c, key) && !(c.joining && c.merged.contains_key(key))
}

/// What becomes of a setting that travels. One that goes out is agreed as it is here, and not
/// written here. Any other is taken from the folder where the folder has it: it is written where
/// what is here differs, and agreed as the folder has it. What the folder does not have either is
/// agreed as it is here. A setting that does not travel is left alone.
pub proof fn every_setting_is_agreed(c: CycleV, key: Seq<char>)
    ensures
        ({
            let written = values_accepted(c);
            let after = agreed(c);
            &&& !shared_key(key) ==> !written.contains_key(key) && !after.contains_key(key)
            &&& shared_key(key) && goes_out(c, key) ==> !written.contains_key(key)
                && after.contains_pair(key, c.local[key])
            &&& shared_key(key) && !goes_out(c, key) && c.merged.contains_key(key)
                ==> after.contains_pair(key, c.merged[key].value) && if c.local.contains_pair(
                key,
                c.merged[key].value,
            ) {
                !written.contains_key(key)
            } else {
                written.contains_pair(key, c.merged[key].value)
            }
            &&& shared_key(key) && !goes_out(c, key) && !c.merged.contains_key(key)
                && c.local.contains_key(key) ==> !written.contains_key(key) && after.contains_pair(
                key,
                c.local[key],
            )
            &&& !c.merged.contains_key(key) && !c.local.contains_key(key) ==> !written.contains_key(
                key,
            ) && !after.contains_key(key)
        }),
{
}

/// The lines that go out are one for each setting that does and travels, with its value here, signed
/// with this moment and this device, by key.
pub proof fn every_change_goes_out(
    c: CycleV,
    now: Seq<char>,
    author: Seq<char>,
    lines: Seq<SettingV>,
    line: SettingV,
)
    requires
        lines_published(c, now, author, lines),
    ensures
        lines.contains(line) <==> shared_key(line.key) && goes_out(c, line.key) && line.value
            == c.local[line.key] && line.updated_at == now && line.updated_by == author,
        forall|i: int, j: int|
            0 <= i < j < lines.len() ==> text::before(
                (#[trigger] lines[i]).key,
                (#[trigger] lines[j]).key,
            ),
{
    if lines.contains(line) {
        let i = choose|i: int| 0 <= i < lines.len() && lines[i] == line;
        assert(publishes(c, lines[i].key));
    }
    if shared_key(line.key) && goes_out(c, line.key) && line.value == c.local[line.key]
        && line.updated_at == now && line.updated_by == author {
        assert(publishes(c, line.key));
        assert(line =~= line_for(c, line.key, now, author));
    }
}

/// A line is a setting where it says so and says which, and the setting is what it says.
pub proof fn a_setting_line_is_what_it_says(line: Seq<char>)
    ensures
        match value_in(text::trimmed(line)) {
            Some(j) => if says(j, "type"@) == "setting"@ && says(j, "key"@).len() > 0 {
                setting_in(line) matches Some(s) && s.key == says(j, "key"@) && s.value == says(
                    j,
                    "value"@,
                ) && s.updated_at == says(j, "updated_at"@) && s.updated_by == says(
                    j,
                    "updated_by"@,
                )
            } else {
                setting_in(line) is None
            },
            None => setting_in(line) is None,
        },
{
}

proof fn lines_hold_settings(lines: Seq<Seq<char>>, n: int, s: SettingV)
    requires
        0 <= n <= lines.len(),
    ensures
        settings_in(lines, n).contains(s) <==> exists|k: int|
            0 <= k < n && setting_in(#[trigger] lines[k]) == Some(s),
    decreases n,
{
    if n > 0 {
        lines_hold_settings(lines, n - 1, s);
        let rest = settings_in(lines, n - 1);
        let all = settings_in(lines, n);
        if all.contains(s) {
            let k = choose|k: int| 0 <= k < all.len() && all[k] == s;
            if k < rest.len() {
                assert(rest[k] == s);
                assert(rest.contains(s));
            } else {
                assert(setting_in(lines[n - 1]) == Some(s));
            }
        }
        if rest.contains(s) {
            let k = choose|k: int| 0 <= k < rest.len() && rest[k] == s;
            assert(all[k] == s);
        }
        if setting_in(lines[n - 1]) == Some(s) {
            assert(all[rest.len() as int] == s);
        }
    }
}

/// Whether a line of file `f` is this setting.
pub open spec fn set_in(files: Seq<Seq<char>>, f: int, k: int, s: SettingV) -> bool {
    &&& 0 <= f < files.len()
    &&& 0 <= k < text::lines_of(files[f]).len()
    &&& setting_in(text::lines_of(files[f])[k]) == Some(s)
}

/// The folder has every setting that any line of any file writes, and no other.
pub proof fn the_folder_has_every_setting_line(files: Seq<Seq<char>>, s: SettingV)
    ensures
        folder_settings(files, files.len() as int).contains(s) <==> exists|f: int, k: int| #[trigger]
            set_in(files, f, k, s),
{
    files_hold_settings(files, files.len() as int, s);
    if folder_settings(files, files.len() as int).contains(s) {
        let f = choose|f: int| 0 <= f < files.len() && has_setting(#[trigger] files[f], s);
        let k = choose|k: int|
            0 <= k < text::lines_of(files[f]).len() && setting_in(
                #[trigger] text::lines_of(files[f])[k],
            ) == Some(s);
        assert(set_in(files, f, k, s));
    }
    if exists|f: int, k: int| #[trigger] set_in(files, f, k, s) {
        let (f, k) = choose|f: int, k: int| #[trigger] set_in(files, f, k, s);
        assert(has_setting(files[f], s));
    }
}

spec fn has_setting(file: Seq<char>, s: SettingV) -> bool {
    exists|k: int|
        0 <= k < text::lines_of(file).len() && setting_in(#[trigger] text::lines_of(file)[k])
            == Some(s)
}

proof fn files_hold_settings(files: Seq<Seq<char>>, n: int, s: SettingV)
    requires
        0 <= n <= files.len(),
    ensures
        folder_settings(files, n).contains(s) <==> exists|f: int|
            0 <= f < n && has_setting(#[trigger] files[f], s),
    decreases n,
{
    if n > 0 {
        files_hold_settings(files, n - 1, s);
        let rest = folder_settings(files, n - 1);
        let all = folder_settings(files, n);
        let lines = text::lines_of(files[n - 1]);
        let more = settings_in(lines, lines.len() as int);
        lines_hold_settings(lines, lines.len() as int, s);
        assert(all == rest + more);
        if all.contains(s) {
            let k = choose|k: int| 0 <= k < all.len() && all[k] == s;
            if k < rest.len() {
                assert(rest[k] == s);
                assert(rest.contains(s));
            } else {
                assert(more[k - rest.len()] == s);
                assert(more.contains(s));
                assert(has_setting(files[n - 1], s));
            }
        }
        if rest.contains(s) {
            let k = choose|k: int| 0 <= k < rest.len() && rest[k] == s;
            assert(all[k] == s);
        }
        if has_setting(files[n - 1], s) {
            assert(more.contains(s));
            let k = choose|k: int| 0 <= k < more.len() && more[k] == s;
            assert(all[rest.len() + k] == s);
        }
    }
}

/// Whether the last of the stored values under the key of setting `bare` is number `k`.
pub open spec fn last_stored(stored: Seq<StoredValueV>, bare: Seq<char>, k: int) -> bool {
    &&& 0 <= k < stored.len()
    &&& stored[k].key == "settings."@ + bare
    &&& forall|j: int| k < j < stored.len() ==> (#[trigger] stored[j]).key != "settings."@ + bare
}

/// What this device holds is every stored setting that travels, by its bare key, with the value that
/// is stored last.
pub proof fn every_stored_setting_is_held(stored: Seq<StoredValueV>, bare: Seq<char>)
    ensures
        ({
            let held = settings_held(stored, stored.len() as int);
            &&& held.contains_key(bare) <==> shared_key(bare) && exists|k: int|
                0 <= k < stored.len() && (#[trigger] stored[k]).key == "settings."@ + bare
            &&& forall|k: int|
                shared_key(bare) && #[trigger] last_stored(stored, bare, k) ==> held[bare]
                    == stored[k].value
        }),
{
    stored_are_held(stored, stored.len() as int, bare);
}

proof fn stored_are_held(stored: Seq<StoredValueV>, n: int, bare: Seq<char>)
    requires
        0 <= n <= stored.len(),
    ensures
        ({
            let held = settings_held(stored, n);
            &&& held.contains_key(bare) <==> shared_key(bare) && exists|k: int|
                0 <= k < n && (#[trigger] stored[k]).key == "settings."@ + bare
            &&& forall|k: int|
                shared_key(bare) && 0 <= k < n && stored[k].key == "settings."@ + bare && (forall|
                    j: int,
                |
                    k < j < n ==> (#[trigger] stored[j]).key != "settings."@ + bare)
                    ==> #[trigger] held[bare] == #[trigger] stored[k].value
        }),
    decreases n,
{
    if n > 0 {
        stored_are_held(stored, n - 1, bare);
        let key = stored[n - 1].key;
        let front = "settings."@;
        let cut = key.skip(front.len() as int);
        assert(text::begins_with(key, front) && cut == bare <==> key == front + bare) by {
            if text::begins_with(key, front) && cut == bare {
                assert(key =~= front + bare);
            }
            if key == front + bare {
                assert(key.subrange(0, front.len() as int) =~= front);
                assert(cut =~= bare);
            }
        }
        if text::begins_with(key, front) && shared_key(cut) && cut != bare {
            assert(settings_held(stored, n).contains_key(bare) == settings_held(
                stored,
                n - 1,
            ).contains_key(bare));
        }
    }
}

/// What a pass over the settings writes here is exactly what is taken from the folder, each under
/// its stored key; and what it appends is a line for each change that goes out.
pub proof fn a_pass_writes_what_is_taken(
    c: CycleV,
    now: Seq<char>,
    author: Seq<char>,
    writes: Seq<StoredValueV>,
    lines: Seq<Seq<char>>,
    applied: Seq<char>,
    key: Seq<char>,
    value: Seq<char>,
)
    requires
        carries_out(c, now, author, writes, lines, applied),
    ensures
        writes.contains(StoredValueV { key: "settings."@ + key, value })
            <==> values_accepted(c).contains_pair(key, value),
{
    let fields = choose|fields: Seq<(Seq<char>, Seq<char>)>| #[trigger]
        entries_of(values_accepted(c), fields) && writes == stored_settings(fields);
    let x = StoredValueV { key: "settings."@ + key, value };
    if writes.contains(x) {
        let i = choose|i: int| 0 <= i < writes.len() && writes[i] == x;
        let front = "settings."@;
        assert(fields[i].0 =~= key) by {
            assert((front + fields[i].0).skip(front.len() as int) =~= fields[i].0);
            assert((front + key).skip(front.len() as int) =~= key);
        }
        assert(values_accepted(c).contains_key(fields[i].0));
    }
    if values_accepted(c).contains_pair(key, value) {
        assert(values_accepted(c).contains_key(key));
        let i = choose|i: int| 0 <= i < fields.len() && (#[trigger] fields[i]).0 == key;
        assert(writes[i] == x);
    }
}

/// Whether a line of file `f` is this record line, without the space around it.
pub open spec fn recorded_in(files: Seq<DecisionFileV>, f: int, k: int, line: Seq<char>) -> bool {
    &&& 0 <= f < files.len()
    &&& 0 <= k < text::lines_of(files[f].text).len()
    &&& text::trimmed(text::lines_of(files[f].text)[k]) == line
    &&& line_id(line) is Some
}

/// The folder holds every record line of every file, and no other: its ids are theirs.
pub proof fn the_folder_holds_every_record_line(files: Seq<DecisionFileV>, line: Seq<char>)
    ensures
        folder_lines(files, false, files.len() as int).contains(line) <==> exists|f: int, k: int|
            #[trigger] recorded_in(files, f, k, line),
{
    let n = files.len() as int;
    folder_holds(files, n, line);
    if folder_lines(files, false, n).contains(line) {
        let f = choose|f: int| 0 <= f < n && file_records(#[trigger] files[f]).contains(line);
        let lines = text::lines_of(files[f].text);
        record_lines_come_from(lines, lines.len() as int, line);
        let k = choose|k: int| 0 <= k < lines.len() && text::trimmed(#[trigger] lines[k]) == line;
        assert(recorded_in(files, f, k, line));
    }
    if exists|f: int, k: int| #[trigger] recorded_in(files, f, k, line) {
        let (f, k) = choose|f: int, k: int| #[trigger] recorded_in(files, f, k, line);
        let lines = text::lines_of(files[f].text);
        record_lines_hold(lines, lines.len() as int);
        assert(line_id(text::trimmed(lines[k])) is Some);
        assert(file_records(files[f]).contains(line));
    }
}

/// What peers wrote is every record line of every file that is not this device's own, and no other.
pub proof fn peers_wrote_every_line_of_theirs(files: Seq<DecisionFileV>, n: int, line: Seq<char>)
    requires
        0 <= n <= files.len(),
    ensures
        folder_lines(files, true, n).contains(line) <==> exists|f: int, k: int| f < n && #[trigger]
            recorded_in(files, f, k, line) && !files[f].ours,
    decreases n,
{
    if n > 0 {
        peers_wrote_every_line_of_theirs(files, n - 1, line);
        let rest = folder_lines(files, true, n - 1);
        let all = folder_lines(files, true, n);
        let lines = text::lines_of(files[n - 1].text);
        let m = lines.len() as int;
        let more = record_lines(lines, m);
        if all.contains(line) {
            let i = choose|i: int| 0 <= i < all.len() && all[i] == line;
            if i < rest.len() {
                assert(rest[i] == line);
                assert(rest.contains(line));
            } else {
                assert(more[i - rest.len()] == line);
                assert(more.contains(line));
                record_lines_come_from(lines, m, line);
                let k = choose|k: int| 0 <= k < m && text::trimmed(#[trigger] lines[k]) == line;
                assert(recorded_in(files, n - 1, k, line));
            }
        }
        if rest.contains(line) {
            let i = choose|i: int| 0 <= i < rest.len() && rest[i] == line;
            assert(all[i] == line);
        }
        if exists|f: int, k: int| f < n && #[trigger] recorded_in(files, f, k, line)
            && !files[f].ours {
            let (f, k) = choose|f: int, k: int| f < n && #[trigger] recorded_in(files, f, k, line)
                && !files[f].ours;
            if f == n - 1 {
                record_lines_hold(lines, m);
                assert(line_id(text::trimmed(lines[k])) is Some);
                assert(more.contains(line));
                let i = choose|i: int| 0 <= i < more.len() && more[i] == line;
                assert(all[rest.len() + i] == line);
            } else {
                assert(recorded_in(files, f, k, line));
                assert(rest.contains(line));
            }
        }
    }
}

/// The id and the author of a line are those of the decision or tombstone it is; any other line has
/// none.
pub proof fn a_line_has_the_id_it_says(line: Seq<char>)
    ensures
        match line_record(line) {
            Some(RecordV::Decision(d)) => line_id(line) == Some((d.id, d.created_by)),
            Some(RecordV::Tombstone(t)) => line_id(line) == Some((t.id, t.created_by)),
            _ => line_id(line) is None,
        },
{
}

/// What is to be stored of a peer's line: the record under its id, as it is written compactly. A
/// line that is no record, no JSON, or whose id cannot be part of a key is refused.
pub proof fn a_peers_line_is_stored_as_it_is(line: Seq<char>)
    ensures
        ({
            let storable = line_id(line) is Some && document(line) is Some && key_text(
                (line_id(line)->0).0,
            );
            &&& storable ==> checked(line) == Ok::<StorableV, Seq<char>>(
                StorableV {
                    id: (line_id(line)->0).0,
                    key: "combined.decision."@ + (line_id(line)->0).0,
                    canonical: document(line)->0.compact@,
                },
            )
            &&& !storable ==> checked(line) is Err
        }),
{
}

/// Every line of a peer that can be stored is imported, in order, and is news just where this device
/// does not hold its key and no line before it has it. Every other line is refused, in order.
pub proof fn every_line_is_imported_or_refused(
    held: Seq<Seq<char>>,
    lines: Seq<Seq<char>>,
    n: int,
)
    requires
        0 <= n <= lines.len(),
    ensures
        imports_of(held, lines, n).len() + refusals(lines, n).len() == n,
        forall|k: int|
            0 <= k < n && (#[trigger] checked(lines[k])) is Ok ==> imports_of(
                held,
                lines,
                n,
            ).contains(
                ImportV {
                    record: checked(lines[k])->Ok_0,
                    fresh: !held.contains(checked(lines[k])->Ok_0.key) && forall|j: int|
                        0 <= j < k && (#[trigger] checked(lines[j])) is Ok
                            ==> checked(lines[j])->Ok_0.key != checked(lines[k])->Ok_0.key,
                },
            ),
    decreases n,
{
    if n > 0 {
        every_line_is_imported_or_refused(held, lines, n - 1);
        let rest = imports_of(held, lines, n - 1);
        let all = imports_of(held, lines, n);
        assert forall|k: int| 0 <= k < n && (#[trigger] checked(lines[k])) is Ok implies all.contains(
            ImportV {
                record: checked(lines[k])->Ok_0,
                fresh: !held.contains(checked(lines[k])->Ok_0.key) && forall|j: int|
                    0 <= j < k && (#[trigger] checked(lines[j])) is Ok
                        ==> checked(lines[j])->Ok_0.key != checked(lines[k])->Ok_0.key,
            },
        ) by {
            let key = checked(lines[k])->Ok_0.key;
            let x = ImportV {
                record: checked(lines[k])->Ok_0,
                fresh: !held.contains(key) && forall|j: int|
                    0 <= j < k && (#[trigger] checked(lines[j])) is Ok
                        ==> checked(lines[j])->Ok_0.key != key,
            };
            if k < n - 1 {
                assert(rest.contains(x));
                let i = choose|i: int| 0 <= i < rest.len() && rest[i] == x;
                assert(all[i] == x);
            } else {
                importable_keys(lines, n - 1, key);
                assert(all[rest.len() as int] == x);
            }
        }
    }
}

proof fn importable_keys(lines: Seq<Seq<char>>, n: int, key: Seq<char>)
    requires
        0 <= n <= lines.len(),
    ensures
        has_key(importable(lines, n), key) <==> exists|j: int|
            0 <= j < n && (#[trigger] checked(lines[j])) is Ok && checked(lines[j])->Ok_0.key
                == key,
    decreases n,
{
    if n > 0 {
        importable_keys(lines, n - 1, key);
        let rest = importable(lines, n - 1);
        let all = importable(lines, n);
        if has_key(all, key) {
            let i = choose|i: int| 0 <= i < all.len() && (#[trigger] all[i]).key == key;
            if i < rest.len() {
                assert(rest[i].key == key);
            } else {
                assert(checked(lines[n - 1]) is Ok);
            }
        }
        if has_key(rest, key) {
            let i = choose|i: int| 0 <= i < rest.len() && (#[trigger] rest[i]).key == key;
            assert(all[i].key == key);
        }
        if checked(lines[n - 1]) is Ok && checked(lines[n - 1])->Ok_0.key == key {
            assert(all[rest.len() as int].key == key);
        }
    }
}

/// A pass holds what is stored against what the folder's lines say and what was agreed before; the
/// device is joining just where nothing was agreed.
pub proof fn a_device_joins_where_nothing_was_agreed(
    files: Seq<Seq<char>>,
    stored: Seq<StoredValueV>,
    agreed_before: Option<Seq<char>>,
)
    ensures
        ({
            let c = cycle_of(files, stored, agreed_before);
            &&& c.joining <==> forall|key: Seq<char>| !#[trigger] c.applied.contains_key(key)
            &&& c.applied == remembered(agreed_before)
            &&& agreed_before is None ==> c.joining
            &&& c.local == settings_held(stored, stored.len() as int)
            &&& c.merged == effective(folder_settings(files, files.len() as int))
        }),
{
    let c = cycle_of(files, stored, agreed_before);
    if forall|key: Seq<char>| !#[trigger] c.applied.contains_key(key) {
        assert(c.applied =~= Map::empty());
    }
}

/// What goes out is every record line that this device wrote and whose id is nowhere in the folder,
/// in order, and nothing else.
pub proof fn every_own_line_that_is_not_shared_goes_out(
    lines: Seq<Seq<char>>,
    own: Seq<char>,
    shared_ids: Seq<Seq<char>>,
    n: int,
)
    requires
        0 <= n <= lines.len(),
    ensures
        unpublished(lines, own, shared_ids, n) == lines.take(n).filter(
            |line: Seq<char>|
                match line_id(line) {
                    Some((id, author)) => author == own && !shared_ids.contains(id),
                    None => false,
                },
        ),
    decreases n,
{
    reveal(Seq::filter);
    if n > 0 {
        every_own_line_that_is_not_shared_goes_out(lines, own, shared_ids, n - 1);
        assert(lines.take(n).drop_last() =~= lines.take(n - 1));
    } else {
        assert(lines.take(n) =~= Seq::empty());
    }
}

} // verus!
