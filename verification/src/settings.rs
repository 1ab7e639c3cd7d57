//! Which settings travel between devices, and what one sync cycle should do about them.
//!
//! Nothing here reads or writes anything. The caller supplies what this device holds, what every
//! device's file says, and what was agreed last time; it gets back what to publish and what to
//! accept.

use vstd::prelude::*;

use crate::decision::{is_newer, is_tie, newer, newer_is_weak_order, ties, value_in};
use crate::json::{
    distinct_names, document, object_text, read_document, text_at, text_member, write_object, Json,
};
use crate::list;
use crate::order::{arranged_contains, arranged_in_order, sort};
use crate::text;
use crate::textmap::TextMap;
use crate::time::{parse_stamp, stamp_in};

verus! {

/// One `type: "setting"` line.
#[derive(Debug, PartialEq, Eq)]
pub struct Setting {
    pub key: String,
    /// The raw JSON body the datastore holds. Not parsed: what a setting's value means is not
    /// for a sync to know.
    pub value: String,
    pub updated_at: String,
    pub updated_by: String,
}

#[verifier::ext_equal]
pub struct SettingV {
    pub key: Seq<char>,
    pub value: Seq<char>,
    pub updated_at: Seq<char>,
    pub updated_by: Seq<char>,
}

impl DeepView for Setting {
    type V = SettingV;

    open spec fn deep_view(&self) -> SettingV {
        SettingV {
            key: self.key@,
            value: self.value@,
            updated_at: self.updated_at@,
            updated_by: self.updated_by@,
        }
    }
}

impl Clone for Setting {
    fn clone(&self) -> (r: Setting)
        ensures
            r.deep_view() == self.deep_view(),
    {
        Setting {
            key: self.key.clone(),
            value: self.value.clone(),
            updated_at: self.updated_at.clone(),
            updated_by: self.updated_by.clone(),
        }
    }
}

/// The settings that mean the same thing on every device. A list of what travels, never of what
/// stays: a device-local key that leaked by default would be noticed only after it had overwritten
/// another device's copy.
pub const SHARED_SETTING_KEYS: [&'static str; 9] = [
    "classes",
    "category_sets",
    "active_set_ids",
    "category_pins",
    "privacy_filters",
    "always_active_pattern",
    "startOfDay",
    "startOfWeek",
    "durationDefault",
];

/// Key prefixes that are shared as well.
pub const SHARED_SETTING_PREFIXES: [&'static str; 3] = ["category.", "label.", "rule."];

/// Whether a setting travels.
pub open spec fn shared_key(key: Seq<char>) -> bool {
    ||| key == "classes"@
    ||| key == "category_sets"@
    ||| key == "active_set_ids"@
    ||| key == "category_pins"@
    ||| key == "privacy_filters"@
    ||| key == "always_active_pattern"@
    ||| key == "startOfDay"@
    ||| key == "startOfWeek"@
    ||| key == "durationDefault"@
    ||| text::begins_with(key, "category."@)
    ||| text::begins_with(key, "label."@)
    ||| text::begins_with(key, "rule."@)
}

pub fn is_shared_setting_key(key: &str) -> (r: bool)
    ensures
        r == shared_key(key@),
{
    let mut i: usize = 0;
    while i < SHARED_SETTING_KEYS.len()
        invariant
            i <= 9,
            SHARED_SETTING_KEYS.len() == 9,
            forall|j: int| 0 <= j < i ==> key@ != #[trigger] SHARED_SETTING_KEYS[j]@,
        decreases 9 - i,
    {
        if text::same(key, SHARED_SETTING_KEYS[i]) {
            return true;
        }
        i = i + 1;
    }
    assert(key@ != SHARED_SETTING_KEYS[0]@ && key@ != SHARED_SETTING_KEYS[1]@ && key@
        != SHARED_SETTING_KEYS[2]@ && key@ != SHARED_SETTING_KEYS[3]@ && key@
        != SHARED_SETTING_KEYS[4]@ && key@ != SHARED_SETTING_KEYS[5]@ && key@
        != SHARED_SETTING_KEYS[6]@ && key@ != SHARED_SETTING_KEYS[7]@ && key@
        != SHARED_SETTING_KEYS[8]@);
    let mut k: usize = 0;
    while k < SHARED_SETTING_PREFIXES.len()
        invariant
            k <= 3,
            SHARED_SETTING_PREFIXES.len() == 3,
            forall|j: int|
                0 <= j < k ==> !text::begins_with(key@, #[trigger] SHARED_SETTING_PREFIXES[j]@),
        decreases 3 - k,
    {
        if text::starts_with(key, SHARED_SETTING_PREFIXES[k]) {
            return true;
        }
        k = k + 1;
    }
    assert(!text::begins_with(key@, SHARED_SETTING_PREFIXES[0]@) && !text::begins_with(
        key@,
        SHARED_SETTING_PREFIXES[1]@,
    ) && !text::begins_with(key@, SHARED_SETTING_PREFIXES[2]@));
    false
}

/// What one cycle should do.
#[derive(Debug)]
pub struct SettingsPlan {
    /// New lines for this device's own file: the local edits being published.
    pub lines_to_append: Vec<Setting>,
    /// Settings to write here, because another device's value won.
    pub values_to_apply: TextMap<String>,
    /// What to remember as agreed, for the next cycle.
    pub applied: TextMap<String>,
}

impl SettingsPlan {
    /// Whether there is nothing to publish and nothing to accept.
    pub fn is_empty(&self) -> (r: bool)
        ensures
            r <==> self.lines_to_append.deep_view() == Seq::<SettingV>::empty()
                && self.values_to_apply.deep_view() == Map::<Seq<char>, Seq<char>>::empty(),
    {
        assert(self.lines_to_append.deep_view().len() == self.lines_to_append.len());
        assert(self.lines_to_append.len() == 0 ==> self.lines_to_append.deep_view()
            =~= Seq::empty());
        let n = self.values_to_apply.len();
        proof {
            if n == 0 {
                assert(self.values_to_apply@.dom() =~= Set::empty());
                assert(self.values_to_apply.deep_view() =~= Map::empty());
            } else {
                if self.values_to_apply.deep_view() == Map::<Seq<char>, Seq<char>>::empty() {
                    assert(self.values_to_apply@.dom() =~= self.values_to_apply.deep_view().dom());
                    assert(self.values_to_apply@.dom() =~= Set::empty());
                }
            }
        }
        self.lines_to_append.len() == 0 && n == 0
    }
}

/// Whether `a` beats `b` for the same key: the newer, then the lower author, then the lower value.
/// Two that share all of these and only spell their instant differently go by the greater spelling.
pub open spec fn supersedes(a: SettingV, b: SettingV) -> bool {
    let at = stamp_in(a.updated_at);
    let bt = stamp_in(b.updated_at);
    newer(a.updated_at, b.updated_at, at, bt) || (ties(a.updated_at, b.updated_at, at, bt) && (
    text::before(a.updated_by, b.updated_by) || (a.updated_by == b.updated_by && (text::before(
        a.value,
        b.value,
    ) || (a.value == b.value && text::before(b.updated_at, a.updated_at))))))
}

/// Whether `a` beats `b` for the same key.
pub fn wins_over(a: &Setting, b: &Setting) -> (r: bool)
    ensures
        r == supersedes(a.deep_view(), b.deep_view()),
{
    let (x, y) = (a.updated_at.as_str(), b.updated_at.as_str());
    let at = parse_stamp(x);
    let bt = parse_stamp(y);
    if is_newer(x, y, at, bt) {
        return true;
    }
    if !is_tie(x, y, at, bt) {
        return false;
    }
    if a.updated_by != b.updated_by {
        return text::is_before(a.updated_by.as_str(), b.updated_by.as_str());
    }
    proof {
        text::before_is_total_order(a.updated_by@, b.updated_by@, b.updated_by@);
    }
    if a.value != b.value {
        return text::is_before(a.value.as_str(), b.value.as_str());
    }
    proof {
        text::before_is_total_order(a.value@, b.value@, b.value@);
    }
    text::is_before(y, x)
}

/// Among those of the first `n` lines that set `key`, the one that prevails.
pub open spec fn winner_for(settings: Seq<SettingV>, key: Seq<char>, n: int) -> Option<int>
    decreases n,
{
    if n <= 0 {
        None
    } else {
        let held = winner_for(settings, key, n - 1);
        if settings[n - 1].key != key {
            held
        } else {
            match held {
                Some(h) => if supersedes(settings[n - 1], settings[h]) {
                    Some(n - 1)
                } else {
                    held
                },
                None => Some(n - 1),
            }
        }
    }
}

/// The prevailing line for each key.
pub open spec fn effective(settings: Seq<SettingV>) -> Map<Seq<char>, SettingV> {
    Map::new(
        |key: Seq<char>| winner_for(settings, key, settings.len() as int) is Some,
        |key: Seq<char>| settings[winner_for(settings, key, settings.len() as int)->0],
    )
}

/// The winning line per key, across every device's file.
///
/// Newest wins; ties break on the lowest author, and one instant spelled two ways is a tie. A
/// timestamp that cannot be read loses to every one that can, and compares with another broken one
/// as text.
pub fn effective_settings(settings: &Vec<Setting>) -> (r: TextMap<Setting>)
    ensures
        r.deep_view() == effective(settings.deep_view()),
{
    let ghost sv = settings.deep_view();
    assert(sv.len() == settings.len());
    let mut winners: TextMap<Setting> = TextMap::new();
    let mut i: usize = 0;
    while i < settings.len()
        invariant
            i <= settings.len(),
            sv == settings.deep_view(),
            sv.len() == settings.len(),
            forall|key: Seq<char>|
                match #[trigger] winner_for(sv, key, i as int) {
                    Some(h) => 0 <= h < i && winners@.contains_key(key) && winners@[key].deep_view()
                        == sv[h],
                    None => !winners@.contains_key(key),
                },
        decreases settings.len() - i,
    {
        let s = &settings[i];
        assert(sv[i as int] == s.deep_view());
        let ghost held_at = winner_for(sv, s.key@, i as int);
        let take: bool = match winners.get(s.key.as_str()) {
            Some(held) => wins_over(s, held),
            None => true,
        };
        let ghost before = winners@;
        if take {
            winners.insert(s.key.clone(), s.clone());
        }
        proof {
            assert forall|key: Seq<char>|
                match #[trigger] winner_for(sv, key, i + 1) {
                    Some(h) => 0 <= h < i + 1 && winners@.contains_key(key)
                        && winners@[key].deep_view() == sv[h],
                    None => !winners@.contains_key(key),
                } by {
                let held = winner_for(sv, key, i as int);
            }
        }
        i = i + 1;
    }
    proof {
        let out = winners.deep_view();
        let goal = effective(sv);
        assert forall|key: Seq<char>| out.contains_key(key) <==> goal.contains_key(key) by {
            let w = winner_for(sv, key, sv.len() as int);
        }
        assert forall|key: Seq<char>| out.contains_key(key) implies out[key] == goal[key] by {
            let w = winner_for(sv, key, sv.len() as int);
        }
        assert(out =~= goal);
    }
    winners
}

/// Precedence between lines for one key is a strict total order: of two different lines one beats
/// the other.
pub proof fn supersedes_is_total_order(a: SettingV, b: SettingV, c: SettingV)
    ensures
        !supersedes(a, a),
        supersedes(a, b) ==> !supersedes(b, a),
        supersedes(a, b) && supersedes(b, c) ==> supersedes(a, c),
        a.key == b.key ==> a == b || supersedes(a, b) || supersedes(b, a),
{
    newer_is_weak_order(a.updated_at, b.updated_at, c.updated_at);
    newer_is_weak_order(b.updated_at, c.updated_at, a.updated_at);
    newer_is_weak_order(b.updated_at, a.updated_at, c.updated_at);
    text::before_is_total_order(a.updated_at, b.updated_at, c.updated_at);
    text::before_is_total_order(c.updated_at, b.updated_at, a.updated_at);
    text::before_is_total_order(a.updated_by, b.updated_by, c.updated_by);
    text::before_is_total_order(a.value, b.value, c.value);
}

/// One instant spelled two ways is a tie: which of two lines wins is up to their authors, and the
/// spelling has no say.
pub proof fn a_tie_goes_to_the_lower_device(a: SettingV, b: SettingV)
    requires
        stamp_in(a.updated_at) is Some,
        stamp_in(a.updated_at) == stamp_in(b.updated_at),
        text::before(a.updated_by, b.updated_by),
    ensures
        supersedes(a, b),
        !supersedes(b, a),
{
    supersedes_is_total_order(a, b, b);
}

/// The winner is a line for the key, and no other line for the key beats it.
pub proof fn winner_is_unbeaten(settings: Seq<SettingV>, key: Seq<char>, n: int)
    requires
        0 <= n <= settings.len(),
    ensures
        match winner_for(settings, key, n) {
            Some(w) => 0 <= w < n && settings[w].key == key && forall|j: int|
                0 <= j < n && (#[trigger] settings[j]).key == key ==> !supersedes(
                    settings[j],
                    settings[w],
                ),
            None => forall|j: int| 0 <= j < n ==> (#[trigger] settings[j]).key != key,
        },
    decreases n,
{
    if n > 0 {
        winner_is_unbeaten(settings, key, n - 1);
        match winner_for(settings, key, n) {
            Some(w) => {
                assert forall|j: int| 0 <= j < n && (#[trigger] settings[j]).key
                    == key implies !supersedes(settings[j], settings[w]) by {
                    match winner_for(settings, key, n - 1) {
                        Some(h) => {
                            supersedes_is_total_order(settings[j], settings[n - 1], settings[h]);
                            supersedes_is_total_order(
                                settings[n - 1],
                                settings[n - 1],
                                settings[h],
                            );
                        },
                        None => {
                            supersedes_is_total_order(settings[j], settings[j], settings[j]);
                        },
                    }
                }
            },
            None => {},
        }
    }
}

/// The effective settings depend only on which lines there are, not on the order the files are
/// read in nor on how often a line is repeated.
pub proof fn effective_depends_only_on_the_lines(a: Seq<SettingV>, b: Seq<SettingV>)
    requires
        forall|s: SettingV| #[trigger] a.contains(s) <==> b.contains(s),
    ensures
        effective(a) == effective(b),
{
    assert forall|key: Seq<char>|
        #![trigger effective(a).contains_key(key)]
        effective(a).contains_key(key) <==> effective(b).contains_key(key) by {
        same_winner(a, b, key);
    }
    assert forall|key: Seq<char>|
        #![trigger effective(a)[key]]
        effective(a).contains_key(key) implies effective(a)[key] == effective(b)[key] by {
        same_winner(a, b, key);
    }
    assert(effective(a) =~= effective(b));
}

proof fn same_winner(a: Seq<SettingV>, b: Seq<SettingV>, key: Seq<char>)
    requires
        forall|s: SettingV| #[trigger] a.contains(s) <==> b.contains(s),
    ensures
        match (winner_for(a, key, a.len() as int), winner_for(b, key, b.len() as int)) {
            (Some(i), Some(j)) => a[i] == b[j],
            (None, None) => true,
            _ => false,
        },
{
    winner_is_unbeaten(a, key, a.len() as int);
    winner_is_unbeaten(b, key, b.len() as int);
    match (winner_for(a, key, a.len() as int), winner_for(b, key, b.len() as int)) {
        (Some(i), Some(j)) => {
            assert(a.contains(a[i]));
            assert(b.contains(b[j]));
            assert(a.contains(b[j]));
            let k = choose|k: int| 0 <= k < b.len() && b[k] == a[i];
            let l = choose|l: int| 0 <= l < a.len() && a[l] == b[j];
            assert(!supersedes(b[k], b[j]));
            assert(!supersedes(a[l], a[i]));
            supersedes_is_total_order(a[i], b[j], b[j]);
        },
        (Some(i), None) => {
            assert(a.contains(a[i]));
            let k = choose|k: int| 0 <= k < b.len() && b[k] == a[i];
            assert(b[k].key != key);
        },
        (None, Some(j)) => {
            assert(b.contains(b[j]));
            assert(a.contains(b[j]));
            let l = choose|l: int| 0 <= l < a.len() && a[l] == b[j];
            assert(a[l].key != key);
        },
        (None, None) => {},
    }
}

/// The value of a key in a map, if it has one.
pub open spec fn lookup<V>(map: Map<Seq<char>, V>, key: Seq<char>) -> Option<V> {
    if map.contains_key(key) {
        Some(map[key])
    } else {
        None
    }
}

/// What the merged lines say of a key.
pub open spec fn merged_value(merged: Map<Seq<char>, SettingV>, key: Seq<char>) -> Option<
    Seq<char>,
> {
    match lookup(merged, key) {
        Some(s) => Some(s.value),
        None => None,
    }
}

/// What a sync cycle knows.
#[verifier::ext_equal]
pub struct CycleV {
    /// What this device holds.
    pub local: Map<Seq<char>, Seq<char>>,
    /// The winning line per key.
    pub merged: Map<Seq<char>, SettingV>,
    /// What was agreed last time.
    pub applied: Map<Seq<char>, Seq<char>>,
    /// This device has never agreed anything with this folder.
    pub joining: bool,
}

/// Whether a key is published: it travels, it is set here, it is not what was agreed last time,
/// and this device is not joining a folder that has it already.
pub open spec fn publishes(c: CycleV, key: Seq<char>) -> bool {
    &&& shared_key(key)
    &&& c.local.contains_key(key)
    &&& lookup(c.applied, key) != Some(c.local[key])
    &&& !(c.joining && c.merged.contains_key(key))
}

/// Whether a key is taken from the folder: it travels, the folder has it, and it is not published.
pub open spec fn accepts(c: CycleV, key: Seq<char>) -> bool {
    shared_key(key) && c.merged.contains_key(key) && !publishes(c, key)
}

/// The line a key is published with.
pub open spec fn line_for(c: CycleV, key: Seq<char>, now: Seq<char>, author: Seq<char>) -> SettingV {
    SettingV { key, value: c.local[key], updated_at: now, updated_by: author }
}

/// The lines published: one for each published key, in the order of the keys.
pub open spec fn lines_published(
    c: CycleV,
    now: Seq<char>,
    author: Seq<char>,
    lines: Seq<SettingV>,
) -> bool {
    &&& forall|i: int|
        0 <= i < lines.len() ==> publishes(c, (#[trigger] lines[i]).key) && lines[i] == line_for(
            c,
            lines[i].key,
            now,
            author,
        )
    &&& forall|key: Seq<char>| #[trigger] publishes(c, key) ==> lines.contains(line_for(c, key, now, author))
    &&& forall|i: int, j: int|
        0 <= i < j < lines.len() ==> text::before((#[trigger] lines[i]).key, (#[trigger] lines[j]).key)
}

/// What is written here: the folder's value of each accepted key that differs.
pub open spec fn values_accepted(c: CycleV) -> Map<Seq<char>, Seq<char>> {
    Map::new(
        |key: Seq<char>|
            accepts(c, key) && lookup(c.local, key) != Some(c.merged[key].value),
        |key: Seq<char>| c.merged[key].value,
    )
}

/// What is agreed afterwards.
pub open spec fn agreed(c: CycleV) -> Map<Seq<char>, Seq<char>> {
    Map::new(
        |key: Seq<char>| shared_key(key) && (c.merged.contains_key(key) || c.local.contains_key(key)),
        |key: Seq<char>|
            if accepts(c, key) {
                c.merged[key].value
            } else {
                c.local[key]
            },
    )
}

/// Every key that any of the three maps holds, in the order of strings, each once.
fn all_keys(
    local: &TextMap<String>,
    merged: &TextMap<Setting>,
    applied: &TextMap<String>,
) -> (r: Vec<String>)
    ensures
        list::ascend(r.deep_view()),
        forall|k: Seq<char>| #[trigger]
            r.deep_view().contains(k) <==> local@.contains_key(k) || merged@.contains_key(k)
                || applied@.contains_key(k),
{
    let mut keys = local.keys();
    let ghost a = keys.deep_view();
    let mut more = merged.keys();
    let ghost b = more.deep_view();
    keys.append(&mut more);
    assert(keys.deep_view() =~= a + b);
    let mut rest = applied.keys();
    let ghost c = rest.deep_view();
    keys.append(&mut rest);
    assert(keys.deep_view() =~= a + b + c);
    let ghost all = keys.deep_view();
    sort(&mut keys);
    let ghost sorted = keys.deep_view();
    let out = list::dedup_texts(&keys);
    proof {
        arranged_in_order::<String>(all);
        list::runs_ascend(sorted, sorted.len() as int);
        list::runs_contain(sorted, sorted.len() as int);
        assert(sorted.take(sorted.len() as int) =~= sorted);
        assert forall|k: Seq<char>| #[trigger] out.deep_view().contains(k) <==> local@.contains_key(
            k,
        ) || merged@.contains_key(k) || applied@.contains_key(k) by {
            arranged_contains::<String>(all, k);
            assert(out.deep_view().contains(k) <==> sorted.contains(k));
            contains_concat(a + b, c, k);
            contains_concat(a, b, k);
            assert(a.contains(k) <==> local@.contains_key(k));
            assert(b.contains(k) <==> merged@.contains_key(k));
            assert(c.contains(k) <==> applied@.contains_key(k));
        }
    }
    out
}

proof fn contains_concat<A>(a: Seq<A>, b: Seq<A>, x: A)
    ensures
        (a + b).contains(x) <==> a.contains(x) || b.contains(x),
{
    let c = a + b;
    if a.contains(x) {
        let k = choose|k: int| 0 <= k < a.len() && a[k] == x;
        assert(c[k] == x);
    }
    if b.contains(x) {
        let k = choose|k: int| 0 <= k < b.len() && b[k] == x;
        assert(c[k + a.len()] == x);
    }
    if c.contains(x) {
        let k = choose|k: int| 0 <= k < c.len() && c[k] == x;
        if k < a.len() {
            assert(a[k] == x);
        } else {
            assert(b[k - a.len()] == x);
        }
    }
}

/// Decide what to publish and what to accept.
///
/// Per key: where this device's value is not what was agreed last time, the owner changed it here,
/// and it is published; otherwise there is no news here, and the folder's value is taken. A key
/// this device never set is never published, but it is accepted. A device that joins a folder
/// takes every key the folder has, and publishes only what nobody has.
pub fn plan_settings_sync(
    local: &TextMap<String>,
    merged: &TextMap<Setting>,
    applied: &TextMap<String>,
    joining: bool,
    now: &str,
    device_uuid: &str,
) -> (r: SettingsPlan)
    ensures
        ({
            let c = CycleV {
                local: local.deep_view(),
                merged: merged.deep_view(),
                applied: applied.deep_view(),
                joining,
            };
            &&& lines_published(c, now@, device_uuid@, r.lines_to_append.deep_view())
            &&& r.values_to_apply.deep_view() == values_accepted(c)
            &&& r.applied.deep_view() == agreed(c)
        }),
{
    let ghost c = CycleV {
        local: local.deep_view(),
        merged: merged.deep_view(),
        applied: applied.deep_view(),
        joining,
    };
    let keys = all_keys(local, merged, applied);
    let ghost kv = keys.deep_view();
    assert(kv.len() == keys.len());
    let mut lines: Vec<Setting> = Vec::new();
    let mut values: TextMap<String> = TextMap::new();
    let mut remembered: TextMap<String> = TextMap::new();
    let mut i: usize = 0;
    assert(kv.take(0) =~= Seq::empty());
    assert(values.deep_view() =~= Map::empty());
    assert(remembered.deep_view() =~= Map::empty());
    while i < keys.len()
        invariant
            i <= keys.len(),
            kv == keys.deep_view(),
            kv.len() == keys.len(),
            list::ascend(kv),
            c == (CycleV {
                local: local.deep_view(),
                merged: merged.deep_view(),
                applied: applied.deep_view(),
                joining,
            }),
            forall|k: int| 0 <= k < lines.len() ==> publishes(
                c,
                (#[trigger] lines.deep_view()[k]).key,
            ) && lines.deep_view()[k] == line_for(c, lines.deep_view()[k].key, now@, device_uuid@)
                && kv.take(i as int).contains(lines.deep_view()[k].key),
            forall|k: int|
                0 <= k < i && publishes(c, #[trigger] kv[k]) ==> lines.deep_view().contains(
                    line_for(c, kv[k], now@, device_uuid@),
                ),
            forall|a: int, b: int|
                0 <= a < b < lines.len() ==> text::before(
                    (#[trigger] lines.deep_view()[a]).key,
                    (#[trigger] lines.deep_view()[b]).key,
                ),
            forall|key: Seq<char>| #[trigger]
                values.deep_view().contains_key(key) <==> kv.take(i as int).contains(key)
                    && values_accepted(c).contains_key(key),
            forall|key: Seq<char>| #[trigger]
                values.deep_view().contains_key(key) ==> values.deep_view()[key]
                    == values_accepted(c)[key],
            forall|key: Seq<char>| #[trigger]
                remembered.deep_view().contains_key(key) <==> kv.take(i as int).contains(key)
                    && agreed(c).contains_key(key),
            forall|key: Seq<char>| #[trigger]
                remembered.deep_view().contains_key(key) ==> remembered.deep_view()[key]
                    == agreed(c)[key],
        decreases keys.len() - i,
    {
        let key = &keys[i];
        assert(kv[i as int] == key@);
        let ghost old_lines = lines.deep_view();
        let ghost old_values = values.deep_view();
        let ghost old_remembered = remembered.deep_view();
        assert(old_lines.len() == lines.len());
        assert(kv.take(i + 1) =~= kv.take(i as int).push(kv[i as int]));
        assert(!kv.take(i as int).contains(kv[i as int])) by {
            if kv.take(i as int).contains(kv[i as int]) {
                let k = choose|k: int| 0 <= k < i && #[trigger] kv.take(i as int)[k] == kv[i as int];
                assert(text::before(kv[k], kv[i as int]));
                text::before_is_total_order(kv[k], kv[k], kv[k]);
            }
        }
        assert forall|x: Seq<char>| kv.take(i + 1).contains(x) <==> kv.take(i as int).contains(x)
            || x == kv[i as int] by {
            contains_concat(kv.take(i as int), seq![kv[i as int]], x);
            assert(kv.take(i + 1) =~= kv.take(i as int) + seq![kv[i as int]]);
            if x == kv[i as int] {
                assert(seq![kv[i as int]][0] == x);
            }
        }
        if is_shared_setting_key(key.as_str()) {
            let mine = local.get(key.as_str());
            let theirs = merged.get(key.as_str());
            let agreed_before = applied.get(key.as_str());
            let unchanged: bool = match (mine, agreed_before) {
                (Some(a), Some(b)) => *a == *b,
                _ => false,
            };
            assert(lookup(c.local, key@) == match mine {
                Some(v) => Some(v@),
                None => None,
            });
            assert(lookup(c.applied, key@) == match agreed_before {
                Some(v) => Some(v@),
                None => None,
            });
            if mine.is_some() && !unchanged && !(joining && theirs.is_some()) {
                assert(publishes(c, key@));
                match mine {
                    Some(value) => {
                        list::push(
                            &mut lines,
                            Setting {
                                key: key.clone(),
                                value: value.clone(),
                                updated_at: now.to_owned(),
                                updated_by: device_uuid.to_owned(),
                            },
                        );
                        remembered.insert(key.clone(), value.clone());
                        assert(remembered.deep_view() =~= old_remembered.insert(key@, value@));
                        assert(lines.deep_view().last() =~= line_for(
                            c,
                            key@,
                            now@,
                            device_uuid@,
                        ));
                    },
                    None => {
                        assert(false);
                    },
                }
                proof {
                    published_one(kv, i as int, old_lines, lines.deep_view(), c, now@, device_uuid@);
                }
            } else {
                assert(!publishes(c, key@));
                match theirs {
                    Some(s) => {
                        assert(c.merged[key@] == s.deep_view());
                        let same: bool = match mine {
                            Some(v) => *v == s.value,
                            None => false,
                        };
                        if !same {
                            values.insert(key.clone(), s.value.clone());
                            assert(values.deep_view() =~= old_values.insert(key@, s.value@));
                        }
                        remembered.insert(key.clone(), s.value.clone());
                        assert(remembered.deep_view() =~= old_remembered.insert(key@, s.value@));
                    },
                    None => match mine {
                        Some(value) => {
                            remembered.insert(key.clone(), value.clone());
                            assert(remembered.deep_view() =~= old_remembered.insert(key@, value@));
                        },
                        None => {},
                    },
                }
            }
        }
        i = i + 1;
    }
    proof {
        assert(kv.take(i as int) =~= kv);
        assert forall|key: Seq<char>|
            values_accepted(c).contains_key(key) implies kv.contains(key) by {}
        assert forall|key: Seq<char>| agreed(c).contains_key(key) implies kv.contains(key) by {}
        assert(values.deep_view() =~= values_accepted(c));
        assert(remembered.deep_view() =~= agreed(c));
        assert forall|key: Seq<char>| #[trigger] publishes(c, key) implies lines.deep_view().contains(
            line_for(c, key, now@, device_uuid@),
        ) by {
            assert(kv.contains(key));
            let k = choose|k: int| 0 <= k < kv.len() && kv[k] == key;
            assert(publishes(c, kv[k]));
        }
        assert(lines.deep_view().len() == lines.len());
    }
    SettingsPlan { lines_to_append: lines, values_to_apply: values, applied: remembered }
}

/// One more published line keeps the list in order.
proof fn published_one(
    kv: Seq<Seq<char>>,
    i: int,
    before: Seq<SettingV>,
    after: Seq<SettingV>,
    c: CycleV,
    now: Seq<char>,
    author: Seq<char>,
)
    requires
        0 <= i < kv.len(),
        list::ascend(kv),
        after == before.push(line_for(c, kv[i], now, author)),
        forall|k: int| 0 <= k < before.len() ==> kv.take(i).contains((#[trigger] before[k]).key),
        forall|a: int, b: int|
            0 <= a < b < before.len() ==> text::before(
                (#[trigger] before[a]).key,
                (#[trigger] before[b]).key,
            ),
        forall|k: int|
            0 <= k < i && publishes(c, #[trigger] kv[k]) ==> before.contains(
                line_for(c, kv[k], now, author),
            ),
    ensures
        forall|a: int, b: int|
            0 <= a < b < after.len() ==> text::before(
                (#[trigger] after[a]).key,
                (#[trigger] after[b]).key,
            ),
        forall|k: int|
            0 <= k < i + 1 && publishes(c, #[trigger] kv[k]) ==> after.contains(
                line_for(c, kv[k], now, author),
            ),
{
    assert forall|a: int, b: int| 0 <= a < b < after.len() implies text::before(
        (#[trigger] after[a]).key,
        (#[trigger] after[b]).key,
    ) by {
        assert(after[a] == before[a]);
        if b == before.len() {
            let k = choose|k: int| 0 <= k < i && #[trigger] kv.take(i)[k] == before[a].key;
            assert(text::before(kv[k], kv[i]));
        } else {
            assert(after[b] == before[b]);
        }
    }
    assert forall|k: int| 0 <= k < i + 1 && publishes(c, #[trigger] kv[k]) implies after.contains(
        line_for(c, kv[k], now, author),
    ) by {
        if k == i {
            assert(after[before.len() as int] == line_for(c, kv[k], now, author));
        } else {
            let j = choose|j: int| 0 <= j < before.len() && before[j] == line_for(c, kv[k], now, author);
            assert(after[j] == before[j]);
        }
    }
}

/// A setting that is not shared never moves: it is neither published, nor accepted, nor remembered
/// as agreed.
pub proof fn device_local_settings_stay_put(c: CycleV, key: Seq<char>)
    requires
        !shared_key(key),
    ensures
        !publishes(c, key),
        !values_accepted(c).contains_key(key),
        !agreed(c).contains_key(key),
{
}

/// A device that joins a folder publishes nothing over what the folder has: every shared key of
/// the folder is taken as it stands.
pub proof fn a_joining_device_accepts_first(c: CycleV, key: Seq<char>)
    requires
        c.joining,
        shared_key(key),
        c.merged.contains_key(key),
    ensures
        !publishes(c, key),
        agreed(c).contains_key(key),
        agreed(c)[key] == c.merged[key].value,
        lookup(c.local, key) != Some(c.merged[key].value) ==> values_accepted(c).contains_key(key)
            && values_accepted(c)[key] == c.merged[key].value,
{
}

/// What this device holds once a plan has been carried out.
pub open spec fn local_after(c: CycleV) -> Map<Seq<char>, Seq<char>> {
    c.local.union_prefer_right(values_accepted(c))
}

/// Where nothing else has changed, the next cycle does nothing at all: what was published prevails,
/// what was accepted is held, and both are agreed.
pub proof fn the_next_cycle_is_quiet(c: CycleV, next: CycleV)
    requires
        next.local == local_after(c),
        next.applied == agreed(c),
        forall|key: Seq<char>| #[trigger]
            publishes(c, key) ==> merged_value(next.merged, key) == Some(c.local[key]),
        forall|key: Seq<char>|
            !#[trigger] publishes(c, key) ==> merged_value(next.merged, key) == merged_value(
                c.merged,
                key,
            ),
    ensures
        forall|key: Seq<char>| !#[trigger] publishes(next, key),
        values_accepted(next) == Map::<Seq<char>, Seq<char>>::empty(),
        forall|now: Seq<char>, author: Seq<char>, lines: Seq<SettingV>| #[trigger]
            lines_published(next, now, author, lines) ==> lines.len() == 0,
{
    assert forall|key: Seq<char>| !#[trigger] publishes(next, key) && !values_accepted(
        next,
    ).contains_key(key) by {
        let p = publishes(c, key);
        assert(merged_value(next.merged, key) == if p {
            Some(c.local[key])
        } else {
            merged_value(c.merged, key)
        });
    }
    assert(values_accepted(next) =~= Map::<Seq<char>, Seq<char>>::empty());
    assert forall|now: Seq<char>, author: Seq<char>, lines: Seq<SettingV>| #[trigger]
        lines_published(next, now, author, lines) implies lines.len() == 0 by {
        if lines.len() > 0 {
            assert(publishes(next, lines[0].key));
        }
    }
}

/// The loser of a simultaneous edit converges in the next cycle: a device that published its own
/// value and finds another one prevailing accepts that one, and does not publish its own again.
pub proof fn the_loser_of_an_edit_accepts_the_winner(c: CycleV, next: CycleV, key: Seq<char>)
    requires
        publishes(c, key),
        next.local == local_after(c),
        next.applied == agreed(c),
        next.merged.contains_key(key),
        next.merged[key].value != c.local[key],
    ensures
        !publishes(next, key),
        values_accepted(next).contains_key(key),
        values_accepted(next)[key] == next.merged[key].value,
        agreed(next)[key] == next.merged[key].value,
{
}

/// The setting a JSON value writes: an object of type `setting` with a key. A field that is
/// missing, null or no string reads as the empty text.
pub open spec fn setting_of(json: Json) -> Option<SettingV> {
    if text_at(json, "type"@) == "setting"@ && text_at(json, "key"@).len() > 0 {
        Some(
            SettingV {
                key: text_at(json, "key"@),
                value: text_at(json, "value"@),
                updated_at: text_at(json, "updated_at"@),
                updated_by: text_at(json, "updated_by"@),
            },
        )
    } else {
        None
    }
}

/// The setting a line writes.
pub open spec fn setting_in(line: Seq<char>) -> Option<SettingV> {
    match value_in(text::trimmed(line)) {
        Some(json) => setting_of(json),
        None => None,
    }
}

/// The settings of the first `n` lines.
pub open spec fn settings_in(lines: Seq<Seq<char>>, n: int) -> Seq<SettingV>
    decreases n,
{
    if n <= 0 {
        Seq::empty()
    } else {
        match setting_in(lines[n - 1]) {
            Some(s) => settings_in(lines, n - 1).push(s),
            None => settings_in(lines, n - 1),
        }
    }
}

/// The setting a JSON value writes, if it writes one.
pub fn setting_from(json: &Json) -> (r: Option<Setting>)
    ensures
        r.deep_view() == setting_of(*json),
{
    if !text::same(json.text("type").as_str(), "setting") {
        return None;
    }
    let key = json.text("key");
    if key.as_str().is_empty() {
        return None;
    }
    Some(
        Setting {
            key,
            value: json.text("value"),
            updated_at: json.text("updated_at"),
            updated_by: json.text("updated_by"),
        },
    )
}

/// Read a setting line. `None` for anything that is not one.
pub fn parse_setting_line(line: &str) -> (r: Option<Setting>)
    ensures
        r.deep_view() == setting_in(line@),
{
    match read_document(text::trim(line).as_str()) {
        Some(d) => setting_from(&d.value),
        None => None,
    }
}

/// Every setting line in a file.
pub fn parse_settings(text: &str) -> (r: Vec<Setting>)
    ensures
        r.deep_view() == settings_in(text::lines_of(text@), text::lines_of(text@).len() as int),
{
    let lines = text::lines(text);
    let ghost ls = lines.deep_view();
    assert(ls.len() == lines.len());
    let mut out: Vec<Setting> = Vec::new();
    assert(out.deep_view() =~= Seq::empty());
    let mut i: usize = 0;
    while i < lines.len()
        invariant
            i <= lines.len(),
            ls == lines.deep_view(),
            out.deep_view() == settings_in(ls, i as int),
        decreases lines.len() - i,
    {
        assert(ls[i as int] == lines@[i as int]@);
        match parse_setting_line(lines[i].as_str()) {
            Some(s) => {
                list::push(&mut out, s);
            },
            None => {},
        }
        i = i + 1;
    }
    out
}

/// The fields of a setting line, in the order they are written.
pub open spec fn setting_fields(s: SettingV) -> Seq<(Seq<char>, Seq<char>)> {
    seq![
        ("type"@, "setting"@),
        ("key"@, s.key),
        ("value"@, s.value),
        ("updated_at"@, s.updated_at),
        ("updated_by"@, s.updated_by),
    ]
}

proof fn setting_names_differ(s: SettingV)
    ensures
        distinct_names(setting_fields(s)),
{
    reveal_strlit("type");
    reveal_strlit("key");
    reveal_strlit("value");
    reveal_strlit("updated_at");
    reveal_strlit("updated_by");
    assert("type"@.len() == 4 && "key"@.len() == 3 && "value"@.len() == 5);
    assert("updated_at"@[8] == 'a' && "updated_by"@[8] == 'b');
}

/// Write a setting as exactly one line, its fields always in the same order: a file that several
/// devices append to is a file a person will read.
///
/// Reading the line gives the setting back, as long as it has a key.
pub fn setting_to_json_line(setting: &Setting) -> (r: String)
    ensures
        r@ == object_text(setting_fields(setting.deep_view())),
        text::lines_of(r@) == seq![r@],
        setting.key@.len() > 0 ==> setting_in(r@) == Some(setting.deep_view()),
{
    let mut fields: Vec<(String, String)> = Vec::new();
    fields.push(("type".to_owned(), "setting".to_owned()));
    fields.push(("key".to_owned(), setting.key.clone()));
    fields.push(("value".to_owned(), setting.value.clone()));
    fields.push(("updated_at".to_owned(), setting.updated_at.clone()));
    fields.push(("updated_by".to_owned(), setting.updated_by.clone()));
    let ghost fv = fields.deep_view();
    assert(fv =~= setting_fields(setting.deep_view()));
    proof {
        setting_names_differ(setting.deep_view());
    }
    let line = write_object(&fields);
    proof {
        text::plain_line(line@);
        let d = document(line@)->0;
        assert(text_member(d.value, fv[0].0, fv[0].1));
        assert(text_member(d.value, fv[1].0, fv[1].1));
        assert(text_member(d.value, fv[2].0, fv[2].1));
        assert(text_member(d.value, fv[3].0, fv[3].1));
        assert(text_member(d.value, fv[4].0, fv[4].1));
    }
    line
}

} // verus!
