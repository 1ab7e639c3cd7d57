//! The combined timeline of a day: which buckets it is made of, what each row says, and the totals.

use vstd::prelude::*;

use crate::coalesce::{
    all_seeded, block_ms, coalesce, coalesce_fits, coalesced, coalescing_keeps_every_millisecond,
    folded_groups, folded_has_shares, load, load_is_positive, loads, share_size, size,
};
use crate::decision::{merge_decisions, merged, value_in, RecordV, SharedRecord};
use crate::exclude::{full_pattern, usable, NotCountedRule, RuleV};
use crate::json::{member, read_document, remove_member, text_of, text_without, Json};
use crate::list;
use crate::model::{
    activity_label, attributed, counted, events_end, foreground_of, label, others, share_ms,
    string_at, summable, uncounted, under, BucketEvents, BucketV, Data, DataV, Event, EventV,
    InputV, PipelineInput, Segment, SegmentState, SegmentV, ShareV, SliceV, EVENT_ORIGIN_KEY,
};
use crate::normalise::{bucket_device, peer_in, resolve_bucket_device, synced_from_hostname};
use crate::order::{arranged, arranged_contains, sort, Sortable};
use crate::pipeline::{
    compute_segments, computed, default_min_contention, one_activity_counts_at_any_instant,
    DEFAULT_MIN_CONTENTION_SECS,
};
use crate::smooth::{
    has_room, ready, ready_is_seeded, rounded, seeded_is_ready, smooth_fits, smoothed, try_smooth,
    SmoothOptions, DEFAULT_SLIVER_SECS, NOISE_FLOOR_SECS,
};
use crate::smooth_laws::{rounding_finishes, smoothing_keeps_every_millisecond};
use crate::text;
use crate::textmap::TextMap;
use crate::time::{countable, in_range, whole_seconds, Duration, Instant};
use crate::tracks::{device_tracks, totals_fit, tracks_of, DeviceTrack, DeviceTrackV};

verus! {

/// The bucket type that counts as activity. A browser's tabs are deliberately left out: they
/// overlap the window bucket for the same instants, and would put a tab in contention with its own
/// window.
pub const ACTIVITY_TYPE: &'static str = "currentwindow";

/// The bucket type that tells idle time from activity.
pub const AFK_TYPE: &'static str = "afkstatus";

pub const AFK_STATUS_KEY: &'static str = "status";

pub const AFK_STATUS_IDLE: &'static str = "afk";

/// What is asked for.
#[derive(Debug)]
pub struct TimelineRequest {
    pub start: Instant,
    pub end: Instant,
    pub own_device: String,
    pub hostname_to_uuid: TextMap<String>,
    /// This machine's hostname, for naming the own device where a peer is named by its bucket ids.
    pub own_hostname: String,
    /// The sliver threshold in seconds. `None` is the default, `Some(0)` is off.
    pub sliver_secs: Option<i64>,
}

/// A bucket as it is stored, with its events in the asked span.
#[derive(Debug)]
pub struct StoredBucket {
    pub bucket_id: String,
    pub bucket_type: String,
    pub events: Vec<Event>,
}

#[verifier::ext_equal]
pub struct StoredV {
    pub bucket_id: Seq<char>,
    pub bucket_type: Seq<char>,
    pub events: Seq<EventV>,
}

impl DeepView for StoredBucket {
    type V = StoredV;

    open spec fn deep_view(&self) -> StoredV {
        StoredV {
            bucket_id: self.bucket_id@,
            bucket_type: self.bucket_type@,
            events: self.events.deep_view(),
        }
    }
}

/// By id.
impl Sortable for StoredBucket {
    open spec fn precedes(a: StoredV, b: StoredV) -> bool {
        text::before(a.bucket_id, b.bucket_id)
    }

    proof fn weak_order(a: StoredV, b: StoredV, c: StoredV) {
        text::before_is_weak_order(a.bucket_id, b.bucket_id, c.bucket_id);
    }

    fn sorts_before(&self, other: &Self) -> (r: bool) {
        text::is_before(self.bucket_id.as_str(), other.bucket_id.as_str())
    }
}

/// Whether an event is an idle period.
pub open spec fn idle_event(e: EventV) -> bool {
    string_at(e.data, AFK_STATUS_KEY@) == Some(AFK_STATUS_IDLE@)
}

/// Whether an event is an idle period.
pub fn is_idle(event: &Event) -> (r: bool)
    ensures
        r == idle_event(event.deep_view()),
{
    match event.data.get(AFK_STATUS_KEY) {
        Some(status) => text::same(status.as_str(), AFK_STATUS_IDLE),
        None => false,
    }
}

/// The activity buckets among the first `n`.
pub open spec fn activity_in(stored: Seq<StoredV>, n: int) -> Seq<BucketV>
    decreases n,
{
    if n <= 0 {
        Seq::empty()
    } else if stored[n - 1].bucket_type == ACTIVITY_TYPE@ {
        activity_in(stored, n - 1).push(
            BucketV { bucket_id: stored[n - 1].bucket_id, events: stored[n - 1].events },
        )
    } else {
        activity_in(stored, n - 1)
    }
}

/// Those of the first `n` events that are idle periods.
pub open spec fn idle_events(events: Seq<EventV>, n: int) -> Seq<EventV>
    decreases n,
{
    if n <= 0 {
        Seq::empty()
    } else if idle_event(events[n - 1]) {
        idle_events(events, n - 1).push(events[n - 1])
    } else {
        idle_events(events, n - 1)
    }
}

/// The idle buckets among the first `n`, with only their idle periods.
pub open spec fn idle_in(stored: Seq<StoredV>, n: int) -> Seq<BucketV>
    decreases n,
{
    if n <= 0 {
        Seq::empty()
    } else if stored[n - 1].bucket_type == AFK_TYPE@ {
        idle_in(stored, n - 1).push(
            BucketV {
                bucket_id: stored[n - 1].bucket_id,
                events: idle_events(stored[n - 1].events, stored[n - 1].events.len() as int),
            },
        )
    } else {
        idle_in(stored, n - 1)
    }
}

/// The names that the first `n` activity buckets add to those asked with: a peer names itself in
/// the ids of its buckets. A name that is known already stays as it is.
pub open spec fn named_by_buckets(
    asked: Map<Seq<char>, Seq<char>>,
    own: Seq<char>,
    activity: Seq<BucketV>,
    n: int,
) -> Map<Seq<char>, Seq<char>>
    decreases n,
{
    if n <= 0 {
        asked
    } else {
        let rest = named_by_buckets(asked, own, activity, n - 1);
        let b = activity[n - 1];
        match peer_in(b.bucket_id) {
            Some(peer) => if rest.contains_key(peer) {
                rest
            } else {
                rest.insert(peer, bucket_device(b.events, b.bucket_id, own, asked))
            },
            None => rest,
        }
    }
}

/// Every name known for a device: those asked with, those of the buckets, and the own one.
pub open spec fn names_known(
    asked: Map<Seq<char>, Seq<char>>,
    own: Seq<char>,
    own_hostname: Seq<char>,
    activity: Seq<BucketV>,
) -> Map<Seq<char>, Seq<char>> {
    let named = named_by_buckets(asked, own, activity, activity.len() as int);
    if own_hostname.len() > 0 && !named.contains_key(own_hostname) {
        named.insert(own_hostname, own)
    } else {
        named
    }
}

/// What a category rule says of itself: the pattern, whether case is ignored, and the fields it is
/// tested on.
#[verifier::ext_equal]
pub struct CandidateV {
    pub regex: Seq<char>,
    pub ignore_case: bool,
    pub select_keys: Option<Seq<Seq<char>>>,
}

/// The texts among the first `n` items.
pub open spec fn texts_in(items: Seq<Json>, n: int) -> Seq<Seq<char>>
    decreases n,
{
    if n <= 0 {
        Seq::empty()
    } else {
        match text_of(items[n - 1]) {
            Some(t) => texts_in(items, n - 1).push(t),
            None => texts_in(items, n - 1),
        }
    }
}

/// The member two names down.
pub open spec fn member_of(json: Json, outer: Seq<char>, inner: Seq<char>) -> Option<Json> {
    match member(json, outer) {
        Some(v) => member(v, inner),
        None => None,
    }
}

/// The rule a category writes, where the category opts in with `data.not_counted: true` and has a
/// pattern. A list of fields that names none is no list.
pub open spec fn candidate_in(class: Json) -> Option<CandidateV> {
    if member_of(class, "data"@, "not_counted"@) != Some(Json::Bool(true)) {
        None
    } else {
        match member_of(class, "rule"@, "regex"@) {
            Some(r) => match text_of(r) {
                Some(regex) => Some(
                    CandidateV {
                        regex,
                        ignore_case: member_of(class, "rule"@, "ignore_case"@) == Some(
                            Json::Bool(true),
                        ),
                        select_keys: match member_of(class, "rule"@, "select_keys"@) {
                            Some(Json::List(items)) => {
                                let keys = texts_in(items@, items@.len() as int);
                                if keys.len() > 0 {
                                    Some(keys)
                                } else {
                                    None
                                }
                            },
                            _ => None,
                        },
                    },
                ),
                None => None,
            },
            None => None,
        }
    }
}

/// The rules of the first `n` categories. One whose pattern is not sound or does not compile is
/// skipped.
pub open spec fn rules_in(classes: Seq<Json>, n: int) -> Seq<RuleV>
    decreases n,
{
    if n <= 0 {
        Seq::empty()
    } else {
        let rest = rules_in(classes, n - 1);
        match candidate_in(classes[n - 1]) {
            Some(c) => if usable(full_pattern(c.regex, c.ignore_case)) {
                rest.push(
                    RuleV {
                        pattern: full_pattern(c.regex, c.ignore_case),
                        select_keys: c.select_keys,
                    },
                )
            } else {
                rest
            },
            None => rest,
        }
    }
}

/// The rules that a stored categorisation writes; none where it is no list.
pub open spec fn rules_of(json: Option<Json>) -> Seq<RuleV> {
    match json {
        Some(Json::List(classes)) => rules_in(classes@, classes@.len() as int),
        _ => Seq::empty(),
    }
}

fn nested<'a>(json: &'a Json, outer: &str, inner: &str) -> (r: Option<&'a Json>)
    ensures
        r == match member_of(*json, outer@, inner@) {
            Some(v) => Some(&v),
            None => None,
        },
{
    match json.get(outer) {
        Some(v) => v.get(inner),
        None => None,
    }
}

fn is_true(json: Option<&Json>) -> (r: bool)
    ensures
        r == (match json {
            Some(v) => *v == Json::Bool(true),
            None => false,
        }),
{
    match json {
        Some(v) => match v {
            Json::Bool(b) => *b,
            _ => false,
        },
        None => false,
    }
}

/// The rule a category writes, if it writes one that compiles.
fn rule_from(class: &Json) -> (r: Option<NotCountedRule>)
    ensures
        match candidate_in(*class) {
            Some(c) => if usable(full_pattern(c.regex, c.ignore_case)) {
                r.deep_view() == Some(
                    RuleV {
                        pattern: full_pattern(c.regex, c.ignore_case),
                        select_keys: c.select_keys,
                    },
                )
            } else {
                r is None
            },
            None => r is None,
        },
{
    if !is_true(nested(class, "data", "not_counted")) {
        return None;
    }
    let regex: &String = match nested(class, "rule", "regex") {
        Some(v) => match v.as_text() {
            Some(t) => t,
            None => {
                return None;
            },
        },
        None => {
            return None;
        },
    };
    let ignore_case = is_true(nested(class, "rule", "ignore_case"));
    let mut keys: Vec<String> = Vec::new();
    assert(keys.deep_view() =~= Seq::empty());
    let mut listed: bool = false;
    match nested(class, "rule", "select_keys") {
        Some(v) => match v {
            Json::List(items) => {
                listed = true;
                let mut i: usize = 0;
                while i < items.len()
                    invariant
                        i <= items.len(),
                        keys.deep_view() == texts_in(items@, i as int),
                    decreases items.len() - i,
                {
                    match items[i].as_text() {
                        Some(t) => {
                            list::push(&mut keys, t.clone());
                        },
                        None => {},
                    }
                    i = i + 1;
                }
            },
            _ => {},
        },
        None => {},
    }
    assert(keys.deep_view().len() == keys.len());
    let select_keys: Option<Vec<String>> = if keys.len() > 0 {
        Some(keys)
    } else {
        None
    };
    assert(candidate_in(*class) matches Some(c) && c.regex == regex@ && c.ignore_case == ignore_case
        && c.select_keys == select_keys.deep_view());
    match NotCountedRule::new(regex.as_str(), ignore_case, select_keys) {
        Ok(rule) => Some(rule),
        Err(_) => None,
    }
}

/// The rules of a categorisation: a list of categories.
pub fn rules_from(json: Option<&Json>) -> (r: Vec<NotCountedRule>)
    ensures
        r.deep_view() == rules_of(
            match json {
                Some(j) => Some(*j),
                None => None,
            },
        ),
{
    let mut rules: Vec<NotCountedRule> = Vec::new();
    assert(rules.deep_view() =~= Seq::empty());
    match json {
        Some(j) => match j {
            Json::List(classes) => {
                let mut i: usize = 0;
                while i < classes.len()
                    invariant
                        i <= classes.len(),
                        rules.deep_view() == rules_in(classes@, i as int),
                    decreases classes.len() - i,
                {
                    match rule_from(&classes[i]) {
                        Some(rule) => {
                            list::push(&mut rules, rule);
                        },
                        None => {},
                    }
                    i = i + 1;
                }
            },
            _ => {},
        },
        None => {},
    }
    rules
}

/// The rules for what never counts, read off the stored categories. A broken rule is skipped,
/// never fatal; and so is a categorisation that cannot be read.
pub fn not_counted_rules(stored: Option<&str>) -> (r: Vec<NotCountedRule>)
    ensures
        r.deep_view() == rules_of(
            match stored {
                Some(s) => value_in(s@),
                None => None,
            },
        ),
{
    match stored {
        Some(s) => match read_document(s) {
            Some(d) => rules_from(Some(&d.value)),
            None => rules_from(None),
        },
        None => rules_from(None),
    }
}

/// One activity running behind the winner.
#[derive(Debug)]
pub struct BackgroundRow {
    pub device: String,
    pub label: String,
}

#[verifier::ext_equal]
pub struct BackgroundV {
    pub device: Seq<char>,
    pub label: Seq<char>,
}

impl DeepView for BackgroundRow {
    type V = BackgroundV;

    open spec fn deep_view(&self) -> BackgroundV {
        BackgroundV { device: self.device@, label: self.label@ }
    }
}

/// One share of a row.
#[derive(Debug)]
pub struct ShareRow {
    /// The activity's fields, without the origin tag, as JSON text.
    pub detail: String,
    pub label: String,
    pub ms: i64,
    pub not_counted: bool,
}

#[verifier::ext_equal]
pub struct ShareRowV {
    pub detail: Seq<char>,
    pub label: Seq<char>,
    pub ms: int,
    pub not_counted: bool,
}

impl DeepView for ShareRow {
    type V = ShareRowV;

    open spec fn deep_view(&self) -> ShareRowV {
        ShareRowV {
            detail: self.detail@,
            label: self.label@,
            ms: self.ms as int,
            not_counted: self.not_counted,
        }
    }
}

/// One row of the combined track: what counted, and whether the view must shade it.
#[derive(Debug)]
pub struct CombinedRow {
    pub start: Instant,
    pub end: Instant,
    /// What a watcher recorded inside this block and counts, which is not its span.
    pub seconds: i64,
    pub bridged_seconds: i64,
    /// Milliseconds drawn inside this block that count toward nothing.
    pub uncounted_ms: i64,
    /// The owner's own words, where they gave any.
    pub label: String,
    pub device: String,
    pub state: SegmentState,
    pub unresolved: bool,
    pub absorbed_short_contention: bool,
    pub resolved_by: Option<String>,
    pub auto_resolved: bool,
    /// The fields of the activity that held longest, without the origin tag, as JSON text.
    pub detail: String,
    pub shares: Vec<ShareRow>,
    pub ignored: bool,
    pub not_counted: bool,
    pub excluded_labels: Vec<String>,
    pub relabelled: bool,
    pub deliberate_background: Vec<String>,
    pub smoothed_seconds: i64,
    pub absorbed_labels: Vec<String>,
    pub background: Vec<BackgroundRow>,
}

#[verifier::ext_equal]
pub struct CombinedRowV {
    pub start: int,
    pub end: int,
    pub seconds: int,
    pub bridged_seconds: int,
    pub uncounted_ms: int,
    pub label: Seq<char>,
    pub device: Seq<char>,
    pub state: SegmentState,
    pub unresolved: bool,
    pub absorbed_short_contention: bool,
    pub resolved_by: Option<Seq<char>>,
    pub auto_resolved: bool,
    pub detail: Seq<char>,
    pub shares: Seq<ShareRowV>,
    pub ignored: bool,
    pub not_counted: bool,
    pub excluded_labels: Seq<Seq<char>>,
    pub relabelled: bool,
    pub deliberate_background: Seq<Seq<char>>,
    pub smoothed_seconds: int,
    pub absorbed_labels: Seq<Seq<char>>,
    pub background: Seq<BackgroundV>,
}

impl DeepView for CombinedRow {
    type V = CombinedRowV;

    open spec fn deep_view(&self) -> CombinedRowV {
        CombinedRowV {
            start: self.start@,
            end: self.end@,
            seconds: self.seconds as int,
            bridged_seconds: self.bridged_seconds as int,
            uncounted_ms: self.uncounted_ms as int,
            label: self.label@,
            device: self.device@,
            state: self.state,
            unresolved: self.unresolved,
            absorbed_short_contention: self.absorbed_short_contention,
            resolved_by: self.resolved_by.deep_view(),
            auto_resolved: self.auto_resolved,
            detail: self.detail@,
            shares: self.shares.deep_view(),
            ignored: self.ignored,
            not_counted: self.not_counted,
            excluded_labels: self.excluded_labels.deep_view(),
            relabelled: self.relabelled,
            deliberate_background: self.deliberate_background.deep_view(),
            smoothed_seconds: self.smoothed_seconds as int,
            absorbed_labels: self.absorbed_labels.deep_view(),
            background: self.background.deep_view(),
        }
    }
}

/// An activity's fields without the origin tag, as JSON text.
pub open spec fn detail_of(data: DataV) -> Seq<char> {
    match text_without(data.text, EVENT_ORIGIN_KEY@) {
        Some(t) => t,
        None => data.text,
    }
}

/// The data of the activity that held a block longest.
pub open spec fn dominant(seg: SegmentV) -> DataV {
    if seg.foreground_shares.len() > 0 {
        seg.foreground_shares[0].data
    } else {
        foreground_of(seg).data
    }
}

/// What else was running behind the winner, among the first `n` slices: each device and label
/// once, and never the winner's own.
pub open spec fn behind(slices: Seq<SliceV>, own: BackgroundV, n: int) -> Seq<BackgroundV>
    decreases n,
{
    if n <= 0 {
        Seq::empty()
    } else {
        let rest = behind(slices, own, n - 1);
        let row = BackgroundV {
            device: slices[n - 1].device,
            label: label(slices[n - 1].data),
        };
        if row == own || rest.contains(row) {
            rest
        } else {
            rest.push(row)
        }
    }
}

/// What else was running behind a block's winner.
pub open spec fn background_of(seg: SegmentV) -> Seq<BackgroundV> {
    let slices = others(seg.active, seg.foreground, seg.active.len() as int);
    let own = BackgroundV {
        device: foreground_of(seg).device,
        label: label(foreground_of(seg).data),
    };
    behind(slices, own, slices.len() as int)
}

pub open spec fn share_row(s: ShareV) -> ShareRowV {
    ShareRowV {
        detail: detail_of(s.data),
        label: label(s.data),
        ms: s.ms,
        not_counted: s.not_counted,
    }
}

/// The row of one block.
pub open spec fn row_for(seg: SegmentV) -> CombinedRowV {
    CombinedRowV {
        start: seg.start,
        end: seg.end,
        seconds: whole_seconds(counted(seg)),
        bridged_seconds: whole_seconds(seg.bridged_ms * 1_000_000),
        uncounted_ms: share_ms(seg.foreground_shares, true),
        label: match seg.label_override {
            Some(l) => l,
            None => label(foreground_of(seg).data),
        },
        device: foreground_of(seg).device,
        state: seg.state,
        unresolved: seg.unresolved,
        absorbed_short_contention: seg.absorbed_short_contention,
        resolved_by: seg.resolved_by,
        auto_resolved: seg.auto_resolved,
        detail: detail_of(dominant(seg)),
        shares: Seq::new(
            seg.foreground_shares.len(),
            |i: int| share_row(seg.foreground_shares[i]),
        ),
        ignored: seg.ignored,
        not_counted: seg.not_counted,
        excluded_labels: seg.excluded_labels,
        relabelled: seg.label_override is Some,
        deliberate_background: seg.deliberate_background,
        smoothed_seconds: seg.smoothed_seconds,
        absorbed_labels: seg.absorbed_labels,
        background: background_of(seg),
    }
}

/// An activity's fields without the origin tag, as JSON text.
fn detail(data: &Data) -> (r: String)
    ensures
        r@ == detail_of(data.deep_view()),
{
    match remove_member(data.text.as_str(), EVENT_ORIGIN_KEY) {
        Some(t) => t,
        None => data.text.clone(),
    }
}

/// What else was running behind the winner, each device and label once.
///
/// A merged block may hold the winner's own app twice, on two screens; listing it would say that
/// the app was running behind itself.
fn background_rows(seg: &Segment) -> (r: Vec<BackgroundRow>)
    requires
        attributed(seg.deep_view()),
    ensures
        r.deep_view() == background_of(seg.deep_view()),
{
    assert(seg.active.deep_view().len() == seg.active.len());
    let fg = seg.foreground_slice();
    let own_label = activity_label(&fg.data);
    let slices = seg.background_slices();
    let ghost sv = slices.deep_view();
    assert(sv.len() == slices.len());
    let ghost own = BackgroundV { device: fg.device@, label: own_label@ };
    let mut out: Vec<BackgroundRow> = Vec::new();
    assert(out.deep_view() =~= Seq::empty());
    let mut i: usize = 0;
    while i < slices.len()
        invariant
            i <= slices.len(),
            sv == slices.deep_view(),
            sv.len() == slices.len(),
            own == (BackgroundV { device: fg.device@, label: own_label@ }),
            out.deep_view() == behind(sv, own, i as int),
        decreases slices.len() - i,
    {
        assert(sv[i as int] == slices@[i as int].deep_view());
        let name = activity_label(&slices[i].data);
        let ghost row = BackgroundV { device: slices@[i as int].device@, label: name@ };
        let ghost rest = out.deep_view();
        assert(rest.len() == out.len());
        let mut known: bool = slices[i].device == fg.device && name == own_label;
        assert(known == (row == own));
        let mut k: usize = 0;
        while k < out.len()
            invariant
                k <= out.len(),
                rest == out.deep_view(),
                rest.len() == out.len(),
                i < slices.len(),
                row == (BackgroundV { device: slices@[i as int].device@, label: name@ }),
                known <==> (row == own || exists|j: int| 0 <= j < k && #[trigger] rest[j] == row),
            decreases out.len() - k,
        {
            assert(rest[k as int] == out@[k as int].deep_view());
            if out[k].device == slices[i].device && out[k].label == name {
                assert(rest[k as int] == row);
                known = true;
            }
            k = k + 1;
        }
        assert(known <==> (row == own || rest.contains(row)));
        if !known {
            list::push(
                &mut out,
                BackgroundRow { device: slices[i].device.clone(), label: name },
            );
        }
        i = i + 1;
    }
    out
}

/// The numbers of a block whose sizes fit `i64` can be summed and counted.
proof fn block_fits(seg: SegmentV)
    requires
        load(seg) <= i64::MAX,
        seg.foreground_shares.len() > 0,
    ensures
        summable(seg.foreground_shares, false),
        summable(seg.foreground_shares, true),
        countable(counted(seg)),
        countable(uncounted(seg)),
        countable(seg.bridged_ms * 1_000_000),
        size(share_ms(seg.foreground_shares, false)) <= load(seg),
        size(share_ms(seg.foreground_shares, true)) <= load(seg),
{
    let shares = seg.foreground_shares;
    load_is_positive(seg);
    assert forall|n: int| 0 <= n <= shares.len() implies i64::MIN <= #[trigger] list::sum(
        shares,
        under(false),
        n,
    ) <= i64::MAX by {
        crate::smooth::shares_summable(shares, false, n);
        list::sum_bounds(shares, share_size(), n);
    }
    assert forall|n: int| 0 <= n <= shares.len() implies i64::MIN <= #[trigger] list::sum(
        shares,
        under(true),
        n,
    ) <= i64::MAX by {
        crate::smooth::shares_summable(shares, true, n);
        list::sum_bounds(shares, share_size(), n);
    }
    crate::smooth::shares_summable(shares, false, shares.len() as int);
    crate::smooth::shares_summable(shares, true, shares.len() as int);
}

/// One row of the combined track.
fn combined_row(seg: &Segment) -> (r: CombinedRow)
    requires
        attributed(seg.deep_view()),
        seg.foreground_shares.len() > 0,
        load(seg.deep_view()) <= i64::MAX,
    ensures
        r.deep_view() == row_for(seg.deep_view()),
{
    let ghost sv = seg.deep_view();
    assert(sv.active.len() == seg.active.len());
    assert(sv.foreground_shares.len() == seg.foreground_shares.len());
    proof {
        block_fits(sv);
    }
    let fg = seg.foreground_slice();
    let mut shares: Vec<ShareRow> = Vec::new();
    assert(shares.deep_view() =~= Seq::empty());
    let mut i: usize = 0;
    while i < seg.foreground_shares.len()
        invariant
            i <= seg.foreground_shares.len(),
            sv == seg.deep_view(),
            sv.foreground_shares.len() == seg.foreground_shares.len(),
            shares.deep_view() =~= row_for(sv).shares.take(i as int),
        decreases seg.foreground_shares.len() - i,
    {
        let s = &seg.foreground_shares[i];
        assert(sv.foreground_shares[i as int] == s.deep_view());
        let row = ShareRow {
            detail: detail(&s.data),
            label: activity_label(&s.data),
            ms: s.ms,
            not_counted: s.not_counted,
        };
        assert(row.deep_view() =~= share_row(sv.foreground_shares[i as int]));
        list::push(&mut shares, row);
        i = i + 1;
    }
    assert(shares.deep_view() =~= row_for(sv).shares);
    assert(sv.foreground_shares[0] == seg.foreground_shares@[0].deep_view());
    let uncounted_ms = seg.uncounted_span().num_milliseconds();
    proof {
        let u = share_ms(sv.foreground_shares, true);
        assert(crate::time::whole_millis(u * 1_000_000) == u);
    }
    let row = CombinedRow {
        start: seg.start,
        end: seg.end,
        seconds: seg.counted_span().num_seconds(),
        bridged_seconds: Duration::milliseconds(seg.bridged_ms).num_seconds(),
        uncounted_ms,
        label: match &seg.label_override {
            Some(l) => l.clone(),
            None => activity_label(&fg.data),
        },
        device: fg.device.clone(),
        state: seg.state,
        unresolved: seg.unresolved,
        absorbed_short_contention: seg.absorbed_short_contention,
        resolved_by: list::copied_option(&seg.resolved_by),
        auto_resolved: seg.auto_resolved,
        detail: detail(&seg.foreground_shares[0].data),
        shares,
        ignored: seg.ignored,
        not_counted: seg.not_counted,
        excluded_labels: list::copied(&seg.excluded_labels),
        relabelled: seg.label_override.is_some(),
        deliberate_background: list::copied(&seg.deliberate_background),
        smoothed_seconds: seg.smoothed_seconds,
        absorbed_labels: list::copied(&seg.absorbed_labels),
        background: background_rows(seg),
    };
    assert(row.deep_view() =~= row_for(sv));
    row
}

/// Every event of these buckets ends at an instant that exists.
pub open spec fn stored_end(stored: Seq<StoredV>) -> bool {
    forall|b: int, e: int|
        0 <= b < stored.len() && 0 <= e < stored[b].events.len() ==> in_range(
            (#[trigger] stored[b].events[e]).timestamp + stored[b].events[e].duration,
        )
}

proof fn arranged_end(stored: Seq<StoredV>)
    requires
        stored_end(stored),
    ensures
        stored_end(arranged::<StoredBucket>(stored)),
{
    let s = arranged::<StoredBucket>(stored);
    assert forall|b: int, e: int| 0 <= b < s.len() && 0 <= e < s[b].events.len() implies in_range(
        (#[trigger] s[b].events[e]).timestamp + s[b].events[e].duration,
    ) by {
        arranged_contains::<StoredBucket>(stored, s[b]);
        assert(s.contains(s[b]));
        let k = choose|k: int| 0 <= k < stored.len() && stored[k] == s[b];
        assert(stored[k].events[e] == s[b].events[e]);
    }
}

proof fn activity_ends(stored: Seq<StoredV>, n: int)
    requires
        stored_end(stored),
        0 <= n <= stored.len(),
    ensures
        events_end(activity_in(stored, n)),
    decreases n,
{
    if n > 0 {
        activity_ends(stored, n - 1);
        let rest = activity_in(stored, n - 1);
        let all = activity_in(stored, n);
        assert forall|b: int, e: int| 0 <= b < all.len() && 0 <= e < all[b].events.len() implies in_range(
            (#[trigger] all[b].events[e]).timestamp + all[b].events[e].duration,
        ) by {
            if b < rest.len() {
                assert(all[b] == rest[b]);
                assert(in_range(rest[b].events[e].timestamp + rest[b].events[e].duration));
            } else {
                assert(all[b].events[e] == stored[n - 1].events[e]);
            }
        }
    }
}

proof fn idle_events_kept(events: Seq<EventV>, n: int)
    requires
        0 <= n <= events.len(),
    ensures
        forall|k: int|
            0 <= k < idle_events(events, n).len() ==> events.contains(
                #[trigger] idle_events(events, n)[k],
            ),
    decreases n,
{
    if n > 0 {
        idle_events_kept(events, n - 1);
        let rest = idle_events(events, n - 1);
        let all = idle_events(events, n);
        assert forall|k: int| 0 <= k < all.len() implies events.contains(#[trigger] all[k]) by {
            if k < rest.len() {
                assert(all[k] == rest[k]);
            } else {
                assert(events[n - 1] == all[k]);
            }
        }
    }
}

proof fn idle_ends(stored: Seq<StoredV>, n: int)
    requires
        stored_end(stored),
        0 <= n <= stored.len(),
    ensures
        events_end(idle_in(stored, n)),
    decreases n,
{
    if n > 0 {
        idle_ends(stored, n - 1);
        let rest = idle_in(stored, n - 1);
        let all = idle_in(stored, n);
        let events = stored[n - 1].events;
        idle_events_kept(events, events.len() as int);
        assert forall|b: int, e: int| 0 <= b < all.len() && 0 <= e < all[b].events.len() implies in_range(
            (#[trigger] all[b].events[e]).timestamp + all[b].events[e].duration,
        ) by {
            if b < rest.len() {
                assert(all[b] == rest[b]);
                assert(in_range(rest[b].events[e].timestamp + rest[b].events[e].duration));
            } else {
                let x = all[b].events[e];
                assert(idle_events(events, events.len() as int)[e] == x);
                assert(events.contains(x));
                let k = choose|k: int| 0 <= k < events.len() && events[k] == x;
                assert(stored[n - 1].events[k] == x);
            }
        }
    }
}

/// The activity buckets and the idle buckets among those stored, by id. Of an idle bucket only the
/// idle periods are kept; buckets of other types are left out.
pub fn split_buckets(stored: Vec<StoredBucket>) -> (r: (Vec<BucketEvents>, Vec<BucketEvents>))
    ensures
        ({
            let sorted = arranged::<StoredBucket>(stored.deep_view());
            &&& r.0.deep_view() == activity_in(sorted, sorted.len() as int)
            &&& r.1.deep_view() == idle_in(sorted, sorted.len() as int)
        }),
{
    let mut stored = stored;
    sort(&mut stored);
    let ghost sorted = stored.deep_view();
    let ghost all = stored@;
    assert(sorted.len() == stored.len());
    let mut activity: Vec<BucketEvents> = Vec::new();
    let mut idle: Vec<BucketEvents> = Vec::new();
    assert(activity.deep_view() =~= Seq::empty());
    assert(idle.deep_view() =~= Seq::empty());
    for bucket in it: stored
        invariant
            it.seq() == all,
            all.len() == sorted.len(),
            forall|i: int| 0 <= i < all.len() ==> (#[trigger] all[i]).deep_view() == sorted[i],
            activity.deep_view() == activity_in(sorted, it.index() as int),
            idle.deep_view() == idle_in(sorted, it.index() as int),
    {
        let ghost i = it.index() as int;
        assert(bucket.deep_view() == sorted[i]);
        if text::same(bucket.bucket_type.as_str(), ACTIVITY_TYPE) {
            proof {
                types_differ();
            }
            list::push(
                &mut activity,
                BucketEvents { bucket_id: bucket.bucket_id, events: bucket.events },
            );
        } else if text::same(bucket.bucket_type.as_str(), AFK_TYPE) {
            let ghost given = bucket.events@;
            let ghost ev = bucket.events.deep_view();
            assert(ev.len() == given.len());
            let mut kept: Vec<Event> = Vec::new();
            assert(kept.deep_view() =~= Seq::empty());
            for event in inner: bucket.events
                invariant
                    inner.seq() == given,
                    given.len() == ev.len(),
                    forall|k: int| 0 <= k < given.len() ==> (#[trigger] given[k]).deep_view() == ev[k],
                    kept.deep_view() == idle_events(ev, inner.index() as int),
            {
                let ghost k = inner.index() as int;
                assert(event.deep_view() == ev[k]);
                if is_idle(&event) {
                    list::push(&mut kept, event);
                }
            }
            list::push(&mut idle, BucketEvents { bucket_id: bucket.bucket_id, events: kept });
        }
    }
    (activity, idle)
}

proof fn types_differ()
    ensures
        ACTIVITY_TYPE@ != AFK_TYPE@,
{
    reveal_strlit("currentwindow");
    reveal_strlit("afkstatus");
    assert(ACTIVITY_TYPE@.len() == 13);
    assert(AFK_TYPE@.len() == 9);
}

/// Every name known for a device.
fn known_names(req: &TimelineRequest, activity: &Vec<BucketEvents>) -> (r: TextMap<String>)
    ensures
        r.deep_view() == names_known(
            req.hostname_to_uuid.deep_view(),
            req.own_device@,
            req.own_hostname@,
            activity.deep_view(),
        ),
{
    let ghost asked = req.hostname_to_uuid.deep_view();
    let ghost av = activity.deep_view();
    assert(av.len() == activity.len());
    let probe = PipelineInput {
        own_device: req.own_device.clone(),
        hostname_to_uuid: req.hostname_to_uuid.copied(),
        activity: Vec::new(),
        idle: Vec::new(),
        min_contention: default_min_contention(),
        not_counted: Vec::new(),
        decisions: Vec::new(),
    };
    let mut names = req.hostname_to_uuid.copied();
    let mut i: usize = 0;
    while i < activity.len()
        invariant
            i <= activity.len(),
            av == activity.deep_view(),
            av.len() == activity.len(),
            asked == req.hostname_to_uuid.deep_view(),
            probe.deep_view().own_device == req.own_device@,
            probe.deep_view().hostname_to_uuid == asked,
            names.deep_view() == named_by_buckets(asked, req.own_device@, av, i as int),
        decreases activity.len() - i,
    {
        let bucket = &activity[i];
        assert(av[i as int] == bucket.deep_view());
        match synced_from_hostname(bucket.bucket_id.as_str()) {
            Some(peer) => {
                if !names.contains_key(peer.as_str()) {
                    let device = resolve_bucket_device(
                        &bucket.events,
                        bucket.bucket_id.as_str(),
                        &probe,
                    );
                    let ghost before = names.deep_view();
                    names.insert(peer, device);
                    assert(names.deep_view() =~= before.insert(peer@, device@));
                }
            },
            None => {},
        }
        i = i + 1;
    }
    if !req.own_hostname.as_str().is_empty() && !names.contains_key(req.own_hostname.as_str()) {
        let ghost before = names.deep_view();
        names.insert(req.own_hostname.clone(), req.own_device.clone());
        assert(names.deep_view() =~= before.insert(req.own_hostname@, req.own_device@));
    }
    names
}

/// The pipeline input of a request.
pub open spec fn input_for(
    req: TimelineRequest,
    stored: Seq<StoredV>,
    records: Seq<RecordV>,
    classes: Option<Json>,
) -> InputV {
    let sorted = arranged::<StoredBucket>(stored);
    let activity = activity_in(sorted, sorted.len() as int);
    InputV {
        own_device: req.own_device@,
        hostname_to_uuid: names_known(
            req.hostname_to_uuid.deep_view(),
            req.own_device@,
            req.own_hostname@,
            activity,
        ),
        activity,
        idle: idle_in(sorted, sorted.len() as int),
        min_contention: DEFAULT_MIN_CONTENTION_SECS * 1_000_000_000,
        not_counted: rules_of(classes),
        decisions: merged(records),
    }
}

/// The sliver threshold asked for, in nanoseconds.
pub open spec fn sliver_asked(secs: Option<i64>) -> int {
    match secs {
        Some(s) => if s > 0 {
            s * 1_000_000_000
        } else {
            0
        },
        None => DEFAULT_SLIVER_SECS * 1_000_000_000,
    }
}

/// The blocks of a day: the segments merged, then smoothed.
pub open spec fn blocks_of(input: InputV, sliver: int) -> Seq<SegmentV> {
    smoothed(coalesced(computed(input)), sliver, NOISE_FLOOR_SECS * 1_000_000_000)
}

pub open spec fn counts() -> spec_fn(SegmentV) -> int {
    |s: SegmentV| counted(s)
}

pub open spec fn uncounts() -> spec_fn(SegmentV) -> int {
    |s: SegmentV| uncounted(s)
}

/// A day as it is shown.
#[derive(Debug)]
pub struct Timeline {
    pub start: Instant,
    pub end: Instant,
    pub own_device: String,
    /// Everything that counts, summed exactly and rounded down once.
    pub combined_seconds: i64,
    /// Everything that counts toward nothing.
    pub excluded_seconds: i64,
    pub combined: Vec<CombinedRow>,
    pub devices: Vec<DeviceTrack>,
}

#[verifier::ext_equal]
pub struct TimelineV {
    pub start: int,
    pub end: int,
    pub own_device: Seq<char>,
    pub combined_seconds: int,
    pub excluded_seconds: int,
    pub combined: Seq<CombinedRowV>,
    pub devices: Seq<DeviceTrackV>,
}

impl DeepView for Timeline {
    type V = TimelineV;

    open spec fn deep_view(&self) -> TimelineV {
        TimelineV {
            start: self.start@,
            end: self.end@,
            own_device: self.own_device@,
            combined_seconds: self.combined_seconds as int,
            excluded_seconds: self.excluded_seconds as int,
            combined: self.combined.deep_view(),
            devices: self.devices.deep_view(),
        }
    }
}

/// The rows of the blocks.
pub open spec fn rows_for(blocks: Seq<SegmentV>) -> Seq<CombinedRowV> {
    Seq::new(blocks.len(), |i: int| row_for(blocks[i]))
}

/// The day of an input.
pub open spec fn timeline_of(req: TimelineRequest, input: InputV) -> TimelineV {
    let blocks = blocks_of(input, sliver_asked(req.sliver_secs));
    TimelineV {
        start: req.start@,
        end: req.end@,
        own_device: req.own_device@,
        combined_seconds: whole_seconds(list::total(blocks, counts())),
        excluded_seconds: whole_seconds(list::total(blocks, uncounts())),
        combined: rows_for(blocks),
        devices: tracks_of(input),
    }
}

/// Whether `i64` holds what a day adds up: the length of each device's track, and what merging and
/// smoothing keep.
pub open spec fn day_fits(input: InputV, sliver: int) -> bool {
    &&& totals_fit(tracks_of(input))
    &&& coalesce_fits(computed(input))
    &&& smooth_fits(coalesced(computed(input)), sliver, NOISE_FLOOR_SECS * 1_000_000_000)
}

/// The counted time of the first `n` blocks stays within their sizes.
proof fn totals_within(blocks: Seq<SegmentV>, n: int)
    requires
        ready(blocks),
        0 <= n <= blocks.len(),
        list::total(blocks, loads()) <= i64::MAX,
    ensures
        size(list::sum(blocks, counts(), n)) <= list::sum(blocks, loads(), n) * 1_000_000,
        size(list::sum(blocks, uncounts(), n)) <= list::sum(blocks, loads(), n) * 1_000_000,
        0 <= list::sum(blocks, loads(), n) <= i64::MAX,
    decreases n,
{
    assert forall|s: SegmentV| #[trigger] loads()(s) >= 0 by {
        load_is_positive(s);
    }
    list::sum_bounds(blocks, loads(), n);
    if n > 0 {
        totals_within(blocks, n - 1);
        let b = blocks[n - 1];
        assert(b.foreground_shares.len() > 0);
        assert(loads()(b) <= list::sum(blocks, loads(), n));
        block_fits(b);
        assert(counts()(b) == share_ms(b.foreground_shares, false) * 1_000_000);
        assert(uncounts()(b) == share_ms(b.foreground_shares, true) * 1_000_000);
    }
}

/// The rows of the blocks, and what they count and do not count, in nanoseconds.
fn rows_and_totals(segments: &Vec<Segment>) -> (r: (Vec<CombinedRow>, i128, i128))
    requires
        ready(segments.deep_view()),
        list::total(segments.deep_view(), loads()) <= i64::MAX,
    ensures
        r.0.deep_view() == rows_for(segments.deep_view()),
        r.1 == list::total(segments.deep_view(), counts()),
        r.2 == list::total(segments.deep_view(), uncounts()),
        countable(r.1 as int),
        countable(r.2 as int),
{
    let ghost blocks = segments.deep_view();
    assert(blocks.len() == segments.len());
    let mut rows: Vec<CombinedRow> = Vec::new();
    assert(rows.deep_view() =~= Seq::empty());
    let mut counted_sum: i128 = 0;
    let mut uncounted_sum: i128 = 0;
    let mut i: usize = 0;
    while i < segments.len()
        invariant
            i <= segments.len(),
            blocks == segments.deep_view(),
            blocks.len() == segments.len(),
            ready(blocks),
            list::total(blocks, loads()) <= i64::MAX,
            rows.deep_view() =~= rows_for(blocks).take(i as int),
            counted_sum == list::sum(blocks, counts(), i as int),
            uncounted_sum == list::sum(blocks, uncounts(), i as int),
        decreases segments.len() - i,
    {
        let seg = &segments[i];
        assert(blocks[i as int] == seg.deep_view());
        assert(blocks[i as int].foreground_shares.len() == seg.foreground_shares.len());
        assert(attributed(blocks[i as int]));
        proof {
            totals_within(blocks, i as int);
            totals_within(blocks, i + 1);
            assert forall|s: SegmentV| #[trigger] loads()(s) >= 0 by {
                load_is_positive(s);
            }
            list::sum_bounds(blocks, loads(), blocks.len() as int);
            assert(loads()(blocks[i as int]) <= i64::MAX);
            block_fits(blocks[i as int]);
        }
        list::push(&mut rows, combined_row(seg));
        counted_sum = counted_sum + seg.counted_span().nanos;
        uncounted_sum = uncounted_sum + seg.uncounted_span().nanos;
        i = i + 1;
    }
    proof {
        totals_within(blocks, blocks.len() as int);
        assert(rows.deep_view() =~= rows_for(blocks));
    }
    (rows, counted_sum, uncounted_sum)
}

/// Why a day could not be shown.
#[derive(Clone, Copy, Debug, PartialEq, Eq, Structural)]
pub enum TimelineError {
    /// The recorded time adds up to more than the totals can hold.
    TooLong,
}

/// The combined track, the per-device tracks and the totals of a span of time, out of the buckets,
/// the decision records and the categories that are stored.
///
/// The per-device tracks are the raw events, before idle time is taken out and before anything is
/// cut or merged: they are what was recorded.
pub fn combined_timeline(
    req: &TimelineRequest,
    stored: Vec<StoredBucket>,
    records: &Vec<SharedRecord>,
    classes: Option<&str>,
) -> (r: Result<Timeline, TimelineError>)
    requires
        stored_end(stored.deep_view()),
    ensures
        ({
            let input = input_for(
                *req,
                stored.deep_view(),
                records.deep_view(),
                match classes {
                    Some(s) => value_in(s@),
                    None => None,
                },
            );
            match r {
                Ok(t) => day_fits(input, sliver_asked(req.sliver_secs)) && t.deep_view()
                    == timeline_of(*req, input),
                Err(TimelineError::TooLong) => !day_fits(input, sliver_asked(req.sliver_secs)),
            }
        }),
{
    let ghost sv = stored.deep_view();
    proof {
        let sorted = arranged::<StoredBucket>(sv);
        arranged_end(sv);
        activity_ends(sorted, sorted.len() as int);
        idle_ends(sorted, sorted.len() as int);
    }
    let (activity, idle) = split_buckets(stored);
    let hostname_to_uuid = known_names(req, &activity);
    let input = PipelineInput {
        own_device: req.own_device.clone(),
        hostname_to_uuid,
        activity,
        idle,
        min_contention: default_min_contention(),
        not_counted: not_counted_rules(classes),
        decisions: merge_decisions(records),
    };
    let ghost iv = input.deep_view();
    assert(iv =~= input_for(
        *req,
        sv,
        records.deep_view(),
        match classes {
            Some(s) => value_in(s@),
            None => None,
        },
    ));
    let devices = match device_tracks(&input) {
        Some(tracks) => tracks,
        None => {
            return Err(TimelineError::TooLong);
        },
    };
    let segments = compute_segments(input);
    proof {
        one_activity_counts_at_any_instant(iv);
        assert(segments.deep_view().len() == segments.len());
    }
    if !has_room(&segments) {
        return Err(TimelineError::TooLong);
    }
    proof {
        blocks_are_ready(iv, sliver_asked(req.sliver_secs));
    }
    let opts = SmoothOptions::from_sliver_secs(
        match req.sliver_secs {
            Some(s) => s,
            None => DEFAULT_SLIVER_SECS,
        },
    );
    let merged = coalesce(segments);
    assert(merged.deep_view().len() == merged.len());
    let blocks = match try_smooth(merged, opts) {
        Some(blocks) => blocks,
        None => {
            return Err(TimelineError::TooLong);
        },
    };
    let (combined, counted_sum, uncounted_sum) = rows_and_totals(&blocks);
    let timeline = Timeline {
        start: req.start,
        end: req.end,
        own_device: req.own_device.clone(),
        combined_seconds: Duration { nanos: counted_sum }.num_seconds(),
        excluded_seconds: Duration { nanos: uncounted_sum }.num_seconds(),
        combined,
        devices,
    };
    assert(timeline.deep_view() =~= timeline_of(*req, iv));
    Ok(timeline)
}

/// Merging and smoothing leave every block with its foreground and its shares.
proof fn blocks_are_ready(input: InputV, sliver: int)
    ensures
        ready(coalesced(computed(input))),
        ready(blocks_of(input, sliver)),
{
    let segs = computed(input);
    one_activity_counts_at_any_instant(input);
    let given = all_seeded(segs);
    seeded_is_ready(segs);
    folded_groups(given, given.len() as int);
    folded_has_shares(given, given.len() as int);
    let merged = coalesced(segs);
    assert(ready(merged));
    ready_is_seeded(merged);
    let noise = NOISE_FLOOR_SECS * 1_000_000_000;
    rounding_finishes(merged, sliver, noise);
    let r = rounded(merged, sliver, noise);
    ready_is_seeded(r);
    folded_groups(r, r.len() as int);
    folded_has_shares(r, r.len() as int);
}

proof fn totals_in_millis(blocks: Seq<SegmentV>, n: int)
    requires
        ready(blocks),
        0 <= n <= blocks.len(),
    ensures
        list::sum(blocks, counts(), n) == list::sum(blocks, block_ms(false), n) * 1_000_000,
        list::sum(blocks, uncounts(), n) == list::sum(blocks, block_ms(true), n) * 1_000_000,
    decreases n,
{
    if n > 0 {
        totals_in_millis(blocks, n - 1);
        assert(blocks[n - 1].foreground_shares.len() > 0);
    }
}

/// How a day is drawn never changes what it counts: whatever the threshold, the counted time and the
/// uncounted time of a day are those of its segments.
pub proof fn the_totals_do_not_depend_on_the_threshold(input: InputV, sliver: int)
    ensures
        list::total(blocks_of(input, sliver), counts()) == list::total(
            all_seeded(computed(input)),
            counts(),
        ),
        list::total(blocks_of(input, sliver), uncounts()) == list::total(
            all_seeded(computed(input)),
            uncounts(),
        ),
{
    let segs = computed(input);
    let given = all_seeded(segs);
    let blocks = blocks_of(input, sliver);
    let noise = NOISE_FLOOR_SECS * 1_000_000_000;
    one_activity_counts_at_any_instant(input);
    blocks_are_ready(input, sliver);
    seeded_is_ready(segs);
    ready_is_seeded(coalesced(segs));
    smoothing_keeps_every_millisecond(coalesced(segs), sliver, noise, false);
    smoothing_keeps_every_millisecond(coalesced(segs), sliver, noise, true);
    coalescing_keeps_every_millisecond(segs, false);
    coalescing_keeps_every_millisecond(segs, true);
    totals_in_millis(blocks, blocks.len() as int);
    totals_in_millis(given, given.len() as int);
}

/// The names that own buckets go by: those among the first `n` buckets that were not synced from a
/// peer, without the names that say nothing.
pub open spec fn own_names(buckets: Seq<(Seq<char>, Seq<char>)>, n: int) -> Seq<Seq<char>>
    decreases n,
{
    if n <= 0 {
        Seq::empty()
    } else {
        let rest = own_names(buckets, n - 1);
        let name = text::trimmed(buckets[n - 1].1);
        if peer_in(buckets[n - 1].0) is None && name.len() > 0 && name != "localhost"@ && name
            != "unknown"@ {
            rest.push(name)
        } else {
            rest
        }
    }
}

/// The one name this device's own buckets agree on, if there is one. `buckets` lists each bucket's
/// id and hostname.
///
/// `localhost` and `unknown` are what a component says when it does not know the name, and neither
/// identifies a device to a peer. Several names mean that this device does not know its own.
pub fn own_name_from(buckets: &Vec<(String, String)>) -> (r: Option<String>)
    ensures
        ({
            let names = own_names(buckets.deep_view(), buckets.len() as int);
            match r {
                Some(name) => names.len() > 0 && forall|i: int|
                    0 <= i < names.len() ==> #[trigger] names[i] == name@,
                None => names.len() == 0 || exists|i: int, j: int|
                    0 <= i < names.len() && 0 <= j < names.len() && #[trigger] names[i]
                        != #[trigger] names[j],
            }
        }),
{
    let ghost bv = buckets.deep_view();
    let mut names: Vec<String> = Vec::new();
    assert(names.deep_view() =~= Seq::empty());
    let mut i: usize = 0;
    while i < buckets.len()
        invariant
            i <= buckets.len(),
            bv == buckets.deep_view(),
            names.deep_view() == own_names(bv, i as int),
        decreases buckets.len() - i,
    {
        assert(bv[i as int] == buckets@[i as int].deep_view());
        let name = text::trim(buckets[i].1.as_str());
        if synced_from_hostname(buckets[i].0.as_str()).is_none() && !name.as_str().is_empty()
            && !text::same(name.as_str(), "localhost") && !text::same(name.as_str(), "unknown") {
            list::push(&mut names, name);
        }
        i = i + 1;
    }
    let ghost nv = names.deep_view();
    assert(nv.len() == names.len());
    if names.len() == 0 {
        return None;
    }
    let mut k: usize = 1;
    while k < names.len()
        invariant
            1 <= k <= names.len(),
            nv == names.deep_view(),
            nv.len() == names.len(),
            nv == own_names(bv, buckets.len() as int),
            bv == buckets.deep_view(),
            forall|j: int| 0 <= j < k ==> #[trigger] nv[j] == nv[0],
        decreases names.len() - k,
    {
        assert(nv[k as int] == names@[k as int]@);
        assert(nv[0] == names@[0]@);
        if names[k] != names[0] {
            assert(nv[k as int] != nv[0]);
            return None;
        }
        k = k + 1;
    }
    assert(nv[0] == names@[0]@);
    Some(names[0].clone())
}

} // verus!
