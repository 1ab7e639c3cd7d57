//! Instants and durations, in nanoseconds, and the timestamps read from text.

use vstd::prelude::*;

use crate::order::Sortable;

verus! {

/// The earliest instant there is, in nanoseconds since 1970: the start of year -262143.
pub const MIN_NANOS: i128 = -8_334_601_228_800_000_000_000;

/// The latest instant there is, in nanoseconds since 1970: the last nanosecond of year 262142.
pub const MAX_NANOS: i128 = 8_210_266_876_799_999_999_999;

pub const NANOS_PER_SECOND: i128 = 1_000_000_000;

pub const NANOS_PER_MILLI: i128 = 1_000_000;

/// Whether `n` nanoseconds since 1970 is an instant.
pub open spec fn in_range(n: int) -> bool {
    MIN_NANOS <= n <= MAX_NANOS
}

/// `a / b` rounded toward zero.
pub open spec fn toward_zero(a: int, b: int) -> int {
    if a >= 0 {
        a / b
    } else {
        -((-a) / b)
    }
}

/// A point in time: nanoseconds since the start of 1970, leap seconds left out. Its model is that
/// number.
#[derive(Clone, Copy, Debug, PartialEq, Eq, PartialOrd, Ord, Structural)]
pub struct Instant {
    pub(crate) nanos: i128,
}

impl View for Instant {
    type V = int;

    open(crate) spec fn view(&self) -> int {
        self.nanos as int
    }
}

impl DeepView for Instant {
    type V = int;

    open spec fn deep_view(&self) -> int {
        self@
    }
}

impl Instant {
    #[verifier::type_invariant]
    pub(crate) open spec fn valid(self) -> bool {
        in_range(self.nanos as int)
    }

    /// The instant `nanos` nanoseconds after the start of 1970, where there is one.
    pub fn from_nanos(nanos: i128) -> (r: Option<Instant>)
        ensures
            r is Some <==> in_range(nanos as int),
            r matches Some(t) ==> t@ == nanos,
    {
        if MIN_NANOS <= nanos && nanos <= MAX_NANOS {
            Some(Instant { nanos })
        } else {
            None
        }
    }

    /// Nanoseconds since the start of 1970.
    pub fn nanos(self) -> (r: i128)
        ensures
            r == self@,
            in_range(self@),
    {
        proof {
            use_type_invariant(&self);
        }
        self.nanos
    }

    /// How long after `other` this is; negative where it is before.
    pub fn since(self, other: Instant) -> (r: Duration)
        ensures
            r@ == self@ - other@,
    {
        proof {
            use_type_invariant(&self);
            use_type_invariant(&other);
        }
        Duration { nanos: self.nanos - other.nanos }
    }

    /// The instant `d` later, where there is one.
    pub fn plus(self, d: Duration) -> (r: Option<Instant>)
        ensures
            r is Some <==> in_range(self@ + d@),
            r matches Some(t) ==> t@ == self@ + d@,
    {
        proof {
            use_type_invariant(&self);
        }
        match self.nanos.checked_add(d.nanos) {
            Some(n) => Instant::from_nanos(n),
            None => None,
        }
    }

    pub fn earlier_than(self, other: Instant) -> (r: bool)
        ensures
            r == (self@ < other@),
    {
        self.nanos < other.nanos
    }

    pub fn earlier_of(self, other: Instant) -> (r: Instant)
        ensures
            r@ == if other@ < self@ { other@ } else { self@ },
    {
        if other.nanos < self.nanos {
            other
        } else {
            self
        }
    }

    pub fn later_of(self, other: Instant) -> (r: Instant)
        ensures
            r@ == if other@ > self@ { other@ } else { self@ },
    {
        if other.nanos > self.nanos {
            other
        } else {
            self
        }
    }
}

impl Sortable for Instant {
    open spec fn precedes(a: int, b: int) -> bool {
        a < b
    }

    proof fn weak_order(a: int, b: int, c: int) {
    }

    fn sorts_before(&self, other: &Self) -> (r: bool) {
        self.earlier_than(*other)
    }
}

/// The time from one instant up to another.
#[derive(Clone, Copy, Debug, PartialEq, Eq, Structural)]
pub struct Span {
    pub start: Instant,
    pub end: Instant,
}

#[verifier::ext_equal]
pub struct SpanV {
    pub start: int,
    pub end: int,
}

impl DeepView for Span {
    type V = SpanV;

    open spec fn deep_view(&self) -> SpanV {
        SpanV { start: self.start@, end: self.end@ }
    }
}

/// By start, then end.
impl Sortable for Span {
    open spec fn precedes(a: SpanV, b: SpanV) -> bool {
        a.start < b.start || (a.start == b.start && a.end < b.end)
    }

    proof fn weak_order(a: SpanV, b: SpanV, c: SpanV) {
    }

    fn sorts_before(&self, other: &Self) -> (r: bool) {
        self.start.earlier_than(other.start) || (self.start == other.start
            && self.end.earlier_than(other.end))
    }
}

/// A length of time in nanoseconds, of either sign.
#[derive(Clone, Copy, Debug, PartialEq, Eq, PartialOrd, Ord, Structural)]
pub struct Duration {
    pub nanos: i128,
}

impl View for Duration {
    type V = int;

    open spec fn view(&self) -> int {
        self.nanos as int
    }
}

impl DeepView for Duration {
    type V = int;

    open spec fn deep_view(&self) -> int {
        self@
    }
}

/// `a / b` rounded toward zero.
fn divide_toward_zero(a: i128, b: i128) -> (r: i128)
    requires
        b > 1,
        a > i128::MIN,
    ensures
        r == toward_zero(a as int, b as int),
        -a <= r <= a || a <= r <= -a,
{
    proof {
        if a >= 0 {
            vstd::arithmetic::div_mod::lemma_div_is_ordered_by_denominator(a as int, 1, b as int);
            vstd::arithmetic::div_mod::lemma_div_pos_is_pos(a as int, b as int);
        } else {
            vstd::arithmetic::div_mod::lemma_div_is_ordered_by_denominator(-a as int, 1, b as int);
            vstd::arithmetic::div_mod::lemma_div_pos_is_pos(-a as int, b as int);
        }
    }
    if a >= 0 {
        a / b
    } else {
        let m: i128 = -a;
        -(m / b)
    }
}

/// Whole milliseconds in `n` nanoseconds, rounded toward zero.
pub open spec fn whole_millis(n: int) -> int {
    toward_zero(n, NANOS_PER_MILLI as int)
}

/// Whole seconds in `n` nanoseconds, rounded toward zero.
pub open spec fn whole_seconds(n: int) -> int {
    toward_zero(n, NANOS_PER_SECOND as int)
}

/// The lengths whose whole milliseconds fit `i64`, as every difference of two instants does.
pub open spec fn countable(n: int) -> bool {
    -9_223_372_036_854_775_807_000_000 <= n <= 9_223_372_036_854_775_807_000_000
}

impl Duration {
    pub fn seconds(secs: i64) -> (r: Duration)
        ensures
            r@ == secs * 1_000_000_000,
    {
        Duration { nanos: secs as i128 * 1_000_000_000 }
    }

    pub fn milliseconds(ms: i64) -> (r: Duration)
        ensures
            r@ == ms * 1_000_000,
    {
        Duration { nanos: ms as i128 * 1_000_000 }
    }

    /// The whole milliseconds in this length.
    pub fn num_milliseconds(self) -> (r: i64)
        requires
            countable(self@),
        ensures
            r == whole_millis(self@),
    {
        let q = divide_toward_zero(self.nanos, NANOS_PER_MILLI);
        q as i64
    }

    /// The whole seconds in this length.
    pub fn num_seconds(self) -> (r: i64)
        requires
            countable(self@),
        ensures
            r == whole_seconds(self@),
    {
        let q = divide_toward_zero(self.nanos, NANOS_PER_SECOND);
        q as i64
    }
}

/// A moment as a timestamp writes it: whole seconds since the start of 1970 and the nanoseconds
/// into that second. The nanoseconds reach past one second inside a leap second.
#[derive(Clone, Copy, Debug, PartialEq, Eq, Structural)]
pub struct Timestamp {
    pub secs: i64,
    pub subsec: u32,
}

/// Whether `a` is strictly before `b`.
pub open spec fn stamp_before(a: Timestamp, b: Timestamp) -> bool {
    a.secs < b.secs || (a.secs == b.secs && a.subsec < b.subsec)
}

/// The timestamp of an instant.
pub open spec fn stamp_of(n: int) -> Timestamp {
    Timestamp {
        secs: (n / (NANOS_PER_SECOND as int)) as i64,
        subsec: (n % (NANOS_PER_SECOND as int)) as u32,
    }
}

impl Timestamp {
    pub fn is_before(self, other: Timestamp) -> (r: bool)
        ensures
            r == stamp_before(self, other),
    {
        self.secs < other.secs || (self.secs == other.secs && self.subsec < other.subsec)
    }

    /// The timestamp of an instant.
    pub fn of(t: Instant) -> (r: Timestamp)
        ensures
            r == stamp_of(t@),
    {
        proof {
            use_type_invariant(&t);
        }
        let n: i128 = t.nanos();
        let m: i128 = n % NANOS_PER_SECOND;
        let subsec: i128 = if m < 0 { m + NANOS_PER_SECOND } else { m };
        let secs: i128 = (n - subsec) / NANOS_PER_SECOND;
        Timestamp { secs: secs as i64, subsec: subsec as u32 }
    }
}

/// What `chrono::DateTime::parse_from_rfc3339` reads in a text: the seconds since 1970 and the
/// nanoseconds into the second, or its message where the text is no RFC 3339 timestamp.
pub uninterp spec fn rfc3339(text: Seq<char>) -> Result<(i64, u32), Seq<char>>;

/// `chrono::DateTime::parse_from_rfc3339`, as seconds since 1970 and nanoseconds into the second.
/// A timestamp's year has four digits and its offset is less than a day, which bounds the seconds;
/// the nanoseconds reach past one second only inside a leap second.
#[verifier::external_body]
fn read_rfc3339(raw: &str) -> (r: Result<(i64, u32), String>)
    ensures
        rfc3339(raw@) == match r {
            Ok(p) => Ok(p),
            Err(e) => Err(e@),
        },
        r matches Ok(p) ==> -62_167_305_600 <= p.0 < 253_402_387_200 && p.1 < 2_000_000_000,
{
    match chrono::DateTime::parse_from_rfc3339(raw) {
        Ok(t) => Ok((t.timestamp(), t.timestamp_subsec_nanos())),
        Err(e) => Err(e.to_string()),
    }
}

/// The timestamp a text writes, if it writes one.
pub open spec fn stamp_in(text: Seq<char>) -> Option<Timestamp> {
    match rfc3339(text) {
        Ok(p) => Some(Timestamp { secs: p.0, subsec: p.1 }),
        Err(_) => None,
    }
}

/// Read an RFC 3339 timestamp.
pub fn parse_stamp(raw: &str) -> (r: Option<Timestamp>)
    ensures
        r == stamp_in(raw@),
{
    match read_rfc3339(raw) {
        Ok(p) => Some(Timestamp { secs: p.0, subsec: p.1 }),
        Err(_) => None,
    }
}

/// Read an RFC 3339 timestamp, or say what is wrong with it. A timestamp that is read is an
/// instant.
pub fn read_stamp(raw: &str) -> (r: Result<Timestamp, String>)
    ensures
        match r {
            Ok(t) => rfc3339(raw@) == Ok::<(i64, u32), Seq<char>>((t.secs, t.subsec)) && in_range(
                t.secs * 1_000_000_000 + t.subsec,
            ),
            Err(e) => rfc3339(raw@) == Err::<(i64, u32), Seq<char>>(e@),
        },
{
    match read_rfc3339(raw) {
        Ok(p) => Ok(Timestamp { secs: p.0, subsec: p.1 }),
        Err(e) => Err(e),
    }
}

/// How chrono displays a moment in UTC.
pub uninterp spec fn utc_text(secs: i64, subsec: u32) -> Seq<char>;

/// `chrono::DateTime::from_timestamp`, written by the `Display` of `DateTime<Utc>`. Inside a leap
/// second the nanoseconds belong to the last second of a minute.
#[verifier::external_body]
fn display_utc(secs: i64, subsec: u32) -> (r: String)
    ensures
        r@ == utc_text(secs, subsec),
{
    match chrono::DateTime::<chrono::Utc>::from_timestamp(secs, subsec) {
        Some(t) => t.to_string(),
        None => String::new(),
    }
}

impl Timestamp {
    /// This moment, for a person to read.
    pub fn display(self) -> (r: String)
        ensures
            r@ == utc_text(self.secs, self.subsec),
    {
        display_utc(self.secs, self.subsec)
    }
}

/// How chrono writes a moment in RFC 3339: `to_rfc3339_opts` with as many decimals as the moment
/// needs and `Z` for UTC.
pub uninterp spec fn rfc3339_text(secs: i64, subsec: u32) -> Seq<char>;

/// `chrono::DateTime::from_timestamp`, which has an instant for every second in range, written by
/// `to_rfc3339_opts` with `SecondsFormat::AutoSi` and `Z`.
#[verifier::external_body]
fn write_rfc3339(secs: i64, subsec: u32) -> (r: String)
    requires
        in_range(secs * 1_000_000_000 + subsec),
        subsec < 1_000_000_000,
    ensures
        r@ == rfc3339_text(secs, subsec),
{
    match chrono::DateTime::<chrono::Utc>::from_timestamp(secs, subsec) {
        Some(t) => t.to_rfc3339_opts(chrono::SecondsFormat::AutoSi, true),
        None => String::new(),
    }
}

/// An instant in RFC 3339.
pub open spec fn written(n: int) -> Seq<char> {
    rfc3339_text(stamp_of(n).secs, stamp_of(n).subsec)
}

impl Instant {
    /// This instant in RFC 3339.
    pub fn to_rfc3339(self) -> (r: String)
        ensures
            r@ == written(self@),
    {
        proof {
            use_type_invariant(&self);
        }
        let t = Timestamp::of(self);
        write_rfc3339(t.secs, t.subsec)
    }

    /// The instant of a timestamp, where there is one. A leap second runs on into the next.
    pub fn of(t: Timestamp) -> (r: Option<Instant>)
        ensures
            r is Some <==> in_range(t.secs * 1_000_000_000 + t.subsec),
            r matches Some(i) ==> i@ == t.secs * 1_000_000_000 + t.subsec,
    {
        Instant::from_nanos(t.secs as i128 * 1_000_000_000 + t.subsec as i128)
    }
}

} // verus!
