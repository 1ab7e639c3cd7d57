//! Taking activity that never counts out of the competition.
//!
//! A standing rule, written the way a category rule is written, removes an activity from the day
//! wherever it appears. It runs before classification: an excluded activity was never a competitor,
//! so no question is asked about it. Nothing is deleted. A segment left with no counted activity
//! keeps every slice it had and is marked, so that the block still draws while the totals leave it
//! out.

use vstd::prelude::*;

use crate::list;
use crate::model::{
    activity_label, label, string_at, ActiveSlice, Data, DataV, Segment, SegmentV, SliceV,
};
use crate::order::{arranged, sort};
use crate::pattern::{is_sound, sound_pattern};
use crate::text;

verus! {

/// What `fancy_regex::Regex::new` objects to in a sound pattern; nothing where it compiles.
pub uninterp spec fn regex_error(pattern: Seq<char>) -> Option<Seq<char>>;

/// What `fancy_regex::Regex::is_match` answers for a sound pattern and a text; nothing where the
/// pattern does not compile or the search gives up.
pub uninterp spec fn regex_match(pattern: Seq<char>, text: Seq<char>) -> Option<bool>;

/// `fancy_regex::Regex::new`, as the message of the error it returns. Only for a sound pattern: on
/// some others it counts past what a word holds, or asks for more memory than there is.
#[verifier::external_body]
fn pattern_error(pattern: &str) -> (r: Option<String>)
    requires
        sound_pattern(pattern@),
    ensures
        r.deep_view() == regex_error(pattern@),
{
    match fancy_regex::Regex::new(pattern) {
        Ok(_) => None,
        Err(e) => Some(e.to_string()),
    }
}

/// `fancy_regex::Regex::is_match` for a pattern and a text. Only for a sound pattern: on some others
/// it cuts the text between an end and a later start, or goes on for ever.
#[verifier::external_body]
fn pattern_matches(pattern: &str, text: &str) -> (r: Option<bool>)
    requires
        sound_pattern(pattern@),
    ensures
        r == regex_match(pattern@, text@),
{
    match fancy_regex::Regex::new(pattern) {
        Ok(regex) => regex.is_match(text).ok(),
        Err(_) => None,
    }
}

/// Why a rule was refused.
#[derive(Debug)]
pub enum RuleError {
    /// A rule that looks at no field would match nothing at all.
    NoKeys,
    /// The pattern does not compile; the message says why.
    Pattern(String),
    /// The pattern is not sound: it refers back to a group from inside that group, or asks for more
    /// than can be counted.
    Unsound,
}

/// One "never count this" rule: a pattern, and the fields it is tested on (every string field
/// where none are named).
#[derive(Debug)]
pub struct NotCountedRule {
    pub pattern: String,
    pub select_keys: Option<Vec<String>>,
}

#[verifier::ext_equal]
pub struct RuleV {
    pub pattern: Seq<char>,
    pub select_keys: Option<Seq<Seq<char>>>,
}

impl DeepView for NotCountedRule {
    type V = RuleV;

    open spec fn deep_view(&self) -> RuleV {
        RuleV { pattern: self.pattern@, select_keys: self.select_keys.deep_view() }
    }
}

/// The pattern a rule is compiled from. There is no switch for ignoring case, so it goes into the
/// pattern.
pub open spec fn full_pattern(regex: Seq<char>, ignore_case: bool) -> Seq<char> {
    if ignore_case {
        "(?i)"@ + regex
    } else {
        regex
    }
}

/// Whether a rule can be made of a pattern: it is sound and it compiles.
pub open spec fn usable(pattern: Seq<char>) -> bool {
    sound_pattern(pattern) && regex_error(pattern) is None
}

/// Whether a pattern hits a text. A search that gives up hits nothing, and nor does a pattern that
/// is not sound.
pub open spec fn hits(pattern: Seq<char>, s: Seq<char>) -> bool {
    sound_pattern(pattern) && regex_match(pattern, s) == Some(true)
}

/// Whether a rule matches one activity's data.
pub open spec fn rule_matches(rule: RuleV, data: DataV) -> bool {
    match rule.select_keys {
        Some(keys) => exists|i: int|
            0 <= i < keys.len() && selected_hit(rule.pattern, data, #[trigger] keys[i]),
        None => exists|i: int|
            0 <= i < data.strings.len() && hits(rule.pattern, (#[trigger] data.strings[i]).1),
    }
}

/// Whether the field `key` is a text that the pattern hits.
pub open spec fn selected_hit(pattern: Seq<char>, data: DataV, key: Seq<char>) -> bool {
    match string_at(data, key) {
        Some(s) => hits(pattern, s),
        None => false,
    }
}

impl NotCountedRule {
    pub fn new(regex: &str, ignore_case: bool, select_keys: Option<Vec<String>>) -> (r: Result<
        NotCountedRule,
        RuleError,
    >)
        ensures
            match r {
                Ok(rule) => usable(full_pattern(regex@, ignore_case)) && !(select_keys matches Some(
                    keys,
                ) && keys.len() == 0) && rule.deep_view() == (RuleV {
                    pattern: full_pattern(regex@, ignore_case),
                    select_keys: select_keys.deep_view(),
                }),
                Err(RuleError::NoKeys) => select_keys matches Some(keys) && keys.len() == 0,
                Err(RuleError::Unsound) => !(select_keys matches Some(keys) && keys.len() == 0)
                    && !sound_pattern(full_pattern(regex@, ignore_case)),
                Err(RuleError::Pattern(message)) => !(select_keys matches Some(keys) && keys.len()
                    == 0) && sound_pattern(full_pattern(regex@, ignore_case)) && regex_error(
                    full_pattern(regex@, ignore_case),
                ) == Some(message@),
            },
    {
        match &select_keys {
            Some(keys) => if keys.len() == 0 {
                return Err(RuleError::NoKeys);
            },
            None => {},
        }
        let mut pattern = String::new();
        if ignore_case {
            pattern.append("(?i)");
        }
        pattern.append(regex);
        assert(pattern@ =~= full_pattern(regex@, ignore_case));
        if !is_sound(pattern.as_str()) {
            return Err(RuleError::Unsound);
        }
        match pattern_error(pattern.as_str()) {
            Some(message) => Err(RuleError::Pattern(message)),
            None => Ok(NotCountedRule { pattern, select_keys }),
        }
    }

    /// Whether this rule matches one activity's data. With `select_keys` only those fields are
    /// tested; without, every string field is.
    pub fn matches(&self, data: &Data) -> (r: bool)
        ensures
            r == rule_matches(self.deep_view(), data.deep_view()),
    {
        if !is_sound(self.pattern.as_str()) {
            return false;
        }
        match &self.select_keys {
            Some(keys) => {
                let mut i: usize = 0;
                while i < keys.len()
                    invariant
                        i <= keys.len(),
                        sound_pattern(self.pattern@),
                        self.select_keys == Some(*keys),
                        forall|j: int|
                            0 <= j < i ==> !selected_hit(
                                self.pattern@,
                                data.deep_view(),
                                #[trigger] keys.deep_view()[j],
                            ),
                    decreases keys.len() - i,
                {
                    assert(keys.deep_view()[i as int] == keys@[i as int]@);
                    match data.get(keys[i].as_str()) {
                        Some(s) => {
                            if pattern_matches(self.pattern.as_str(), s.as_str()) == Some(true) {
                                assert(selected_hit(
                                    self.pattern@,
                                    data.deep_view(),
                                    keys.deep_view()[i as int],
                                ));
                                assert(self.deep_view().select_keys->0 == keys.deep_view());
                                return true;
                            }
                        },
                        None => {},
                    }
                    i = i + 1;
                }
                false
            },
            None => {
                let mut i: usize = 0;
                while i < data.strings.len()
                    invariant
                        i <= data.strings.len(),
                        sound_pattern(self.pattern@),
                        self.select_keys is None,
                        forall|j: int|
                            0 <= j < i ==> !hits(
                                self.pattern@,
                                (#[trigger] data.strings.deep_view()[j]).1,
                            ),
                    decreases data.strings.len() - i,
                {
                    assert(data.strings.deep_view()[i as int] == data.strings@[i as int].deep_view());
                    if pattern_matches(self.pattern.as_str(), data.strings[i].1.as_str()) == Some(
                        true,
                    ) {
                        assert(hits(self.pattern@, data.deep_view().strings[i as int].1));
                        return true;
                    }
                    i = i + 1;
                }
                false
            },
        }
    }
}

/// The labels of those among the first `n` slices that are marked.
pub open spec fn marked_labels(slices: Seq<SliceV>, marks: Seq<bool>, n: int) -> Seq<Seq<char>>
    decreases n,
{
    if n <= 0 {
        Seq::empty()
    } else if marks[n - 1] {
        marked_labels(slices, marks, n - 1).push(label(slices[n - 1].data))
    } else {
        marked_labels(slices, marks, n - 1)
    }
}

/// Those among the first `n` slices that are not marked.
pub open spec fn unmarked(slices: Seq<SliceV>, marks: Seq<bool>, n: int) -> Seq<SliceV>
    decreases n,
{
    if n <= 0 {
        Seq::empty()
    } else if marks[n - 1] {
        unmarked(slices, marks, n - 1)
    } else {
        unmarked(slices, marks, n - 1).push(slices[n - 1])
    }
}

/// A segment without its marked slices. Where nothing is marked it stays as it is; where
/// everything is, it keeps every slice and stops counting.
pub open spec fn taken_out(seg: SegmentV, marks: Seq<bool>) -> SegmentV {
    let n = seg.active.len() as int;
    let labels = list::deduped(arranged::<String>(marked_labels(seg.active, marks, n)));
    if !marks.contains(true) {
        seg
    } else if !marks.contains(false) {
        SegmentV { excluded_labels: labels, ignored: true, not_counted: true, ..seg }
    } else {
        SegmentV { excluded_labels: labels, active: unmarked(seg.active, marks, n), ..seg }
    }
}

/// Whether any rule matches an activity's data.
pub open spec fn never_counts(rules: Seq<RuleV>, data: DataV) -> bool {
    exists|r: int| 0 <= r < rules.len() && rule_matches(#[trigger] rules[r], data)
}

/// Which slices a rule takes out.
pub open spec fn marks_of(rules: Seq<RuleV>, slices: Seq<SliceV>) -> Seq<bool> {
    Seq::new(slices.len(), |i: int| never_counts(rules, slices[i].data))
}

/// The segments without what never counts.
pub open spec fn excluded(segs: Seq<SegmentV>, rules: Seq<RuleV>) -> Seq<SegmentV> {
    Seq::new(segs.len(), |i: int| taken_out(segs[i], marks_of(rules, segs[i].active)))
}

/// Take the marked slices out of one segment.
///
/// Two outcomes. Where some counted activity remains, the marked slices leave the competition and
/// the block goes on counting; their labels are kept, so that a competitor does not vanish without
/// a trace. Where none remains, every slice is kept so that the block still draws, and its time
/// counts toward nothing.
pub fn take_out(seg: &mut Segment, marks: &Vec<bool>)
    requires
        marks.len() == old(seg).active.len(),
    ensures
        final(seg).deep_view() == taken_out(old(seg).deep_view(), marks@),
{
    let ghost before = seg.deep_view();
    let ghost slices = seg.active.deep_view();
    let mut labels: Vec<String> = Vec::new();
    let mut kept: Vec<ActiveSlice> = Vec::new();
    assert(labels.deep_view() =~= Seq::empty());
    assert(kept.deep_view() =~= Seq::empty());
    let mut any: bool = false;
    let mut all: bool = true;
    let mut i: usize = 0;
    while i < marks.len()
        invariant
            i <= marks.len(),
            marks.len() == seg.active.len(),
            slices == seg.active.deep_view(),
            labels.deep_view() == marked_labels(slices, marks@, i as int),
            kept.deep_view() == unmarked(slices, marks@, i as int),
            any <==> exists|j: int| 0 <= j < i && #[trigger] marks@[j],
            all <==> forall|j: int| 0 <= j < i ==> #[trigger] marks@[j],
        decreases marks.len() - i,
    {
        assert(slices[i as int] == seg.active@[i as int].deep_view());
        if marks[i] {
            list::push(&mut labels, activity_label(&seg.active[i].data));
            any = true;
        } else {
            list::push(&mut kept, seg.active[i].clone());
            all = false;
        }
        i = i + 1;
    }
    assert(any <==> marks@.contains(true));
    assert(all <==> !marks@.contains(false));
    if any {
        sort(&mut labels);
        seg.excluded_labels = list::dedup_texts(&labels);
        if all {
            seg.ignored = true;
            seg.not_counted = true;
        } else {
            seg.active = kept;
        }
        assert(seg.deep_view() =~= taken_out(before, marks@));
    }
}

/// Whether any rule matches an activity's data.
fn matches_any(rules: &Vec<NotCountedRule>, data: &Data) -> (r: bool)
    ensures
        r == never_counts(rules.deep_view(), data.deep_view()),
{
    let mut i: usize = 0;
    while i < rules.len()
        invariant
            i <= rules.len(),
            forall|j: int|
                0 <= j < i ==> !rule_matches(#[trigger] rules.deep_view()[j], data.deep_view()),
        decreases rules.len() - i,
    {
        assert(rules.deep_view()[i as int] == rules@[i as int].deep_view());
        if rules[i].matches(data) {
            return true;
        }
        i = i + 1;
    }
    false
}

/// Take what never counts out of every segment.
pub fn exclude(segments: &mut Vec<Segment>, rules: &Vec<NotCountedRule>)
    ensures
        final(segments).deep_view() == excluded(old(segments).deep_view(), rules.deep_view()),
{
    let ghost segs = segments.deep_view();
    let ghost rv = rules.deep_view();
    let mut i: usize = 0;
    while i < segments.len()
        invariant
            i <= segments.len(),
            segments.len() == segs.len(),
            rv == rules.deep_view(),
            forall|j: int|
                0 <= j < i ==> #[trigger] segments.deep_view()[j] == excluded(segs, rv)[j],
            forall|j: int| i <= j < segs.len() ==> #[trigger] segments.deep_view()[j] == segs[j],
        decreases segments.len() - i,
    {
        let ghost before = segments.deep_view();
        assert(before[i as int] == segments@[i as int].deep_view());
        let mut marks: Vec<bool> = Vec::new();
        let mut k: usize = 0;
        while k < segments[i].active.len()
            invariant
                i < segments.len(),
                k <= segments[i as int].active.len(),
                rv == rules.deep_view(),
                segments.deep_view() == before,
                before[i as int] == segments@[i as int].deep_view(),
                marks@ =~= marks_of(rv, before[i as int].active).take(k as int),
            decreases segments[i as int].active.len() - k,
        {
            assert(before[i as int].active[k as int] == segments@[i as int].active@[k as int].deep_view());
            marks.push(matches_any(rules, &segments[i].active[k].data));
            k = k + 1;
        }
        assert(before[i as int].active.len() == segments@[i as int].active.len());
        assert(marks@ =~= marks_of(rv, before[i as int].active));
        take_out(&mut segments[i], &marks);
        assert(segments.deep_view() =~= before.update(i as int, excluded(segs, rv)[i as int]));
        i = i + 1;
    }
    assert(segments.deep_view() =~= excluded(segs, rv));
}

} // verus!
