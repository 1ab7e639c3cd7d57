//! Text as sequences of characters: the order of strings and the small string operations the rest
//! of the library is written with.

use vstd::prelude::*;

use crate::list;

verus! {

/// Whether `a` comes strictly before `b`, both read from position `i` on: at the first position
/// where they differ the smaller code point comes first, and a text comes before its own
/// extensions.
pub open spec fn before_from(a: Seq<char>, b: Seq<char>, i: int) -> bool
    decreases b.len() - i,
{
    if i < 0 || i >= b.len() {
        false
    } else if i >= a.len() {
        true
    } else if a[i] == b[i] {
        before_from(a, b, i + 1)
    } else {
        (a[i] as u32) < (b[i] as u32)
    }
}

/// The order of strings: lexicographic by code point.
pub open spec fn before(a: Seq<char>, b: Seq<char>) -> bool {
    before_from(a, b, 0)
}

/// Two different characters have different code points.
proof fn char_code_injective(a: char, b: char)
    ensures
        a as u32 == b as u32 ==> a == b,
{
}

proof fn before_from_irreflexive(a: Seq<char>, i: int)
    ensures
        !before_from(a, a, i),
    decreases a.len() - i,
{
    if 0 <= i < a.len() {
        before_from_irreflexive(a, i + 1);
    }
}

proof fn before_from_transitive(a: Seq<char>, b: Seq<char>, c: Seq<char>, i: int)
    requires
        before_from(a, b, i),
        before_from(b, c, i),
    ensures
        before_from(a, c, i),
    decreases c.len() - i,
{
    if i < a.len() && a[i] == b[i] && b[i] == c[i] {
        before_from_transitive(a, b, c, i + 1);
    }
}

proof fn before_from_total(a: Seq<char>, b: Seq<char>, i: int)
    requires
        0 <= i <= a.len(),
        i <= b.len(),
        a.take(i) == b.take(i),
    ensures
        before_from(a, b, i) || before_from(b, a, i) || a == b,
    decreases a.len() - i,
{
    if i < a.len() && i < b.len() {
        char_code_injective(a[i], b[i]);
        if a[i] == b[i] {
            assert(a.take(i + 1) =~= a.take(i).push(a[i]));
            assert(b.take(i + 1) =~= b.take(i).push(b[i]));
            before_from_total(a, b, i + 1);
        }
    } else if i == a.len() && i == b.len() {
        assert(a =~= a.take(i));
        assert(b =~= b.take(i));
    }
}

/// The order of strings is a strict total order.
pub proof fn before_is_total_order(a: Seq<char>, b: Seq<char>, c: Seq<char>)
    ensures
        !before(a, a),
        before(a, b) ==> !before(b, a),
        before(a, b) && before(b, c) ==> before(a, c),
        a == b || before(a, b) || before(b, a),
{
    before_from_irreflexive(a, 0);
    if before(a, b) && before(b, a) {
        before_from_transitive(a, b, a, 0);
    }
    if before(a, b) && before(b, c) {
        before_from_transitive(a, b, c, 0);
    }
    assert(a.take(0) =~= b.take(0));
    before_from_total(a, b, 0);
}

/// Neither preceding nor following is transitive too, since only equal texts do neither.
pub proof fn before_is_weak_order(a: Seq<char>, b: Seq<char>, c: Seq<char>)
    ensures
        !before(a, a),
        before(a, b) ==> !before(b, a),
        before(b, c) ==> !before(c, b),
        before(a, c) ==> !before(c, a),
        a == b || before(a, b) || before(b, a),
        b == c || before(b, c) || before(c, b),
        a == c || before(a, c) || before(c, a),
        before(a, b) && before(b, c) ==> before(a, c),
        !before(a, b) && !before(b, c) ==> !before(a, c),
{
    before_is_total_order(a, b, c);
    before_is_total_order(b, c, a);
    before_is_total_order(a, c, b);
    before_is_total_order(c, b, a);
}

/// The characters of a text, in order.
pub fn characters(s: &str) -> (r: Vec<char>)
    ensures
        r@ == s@,
{
    let mut out: Vec<char> = Vec::new();
    for c in it: s.chars()
        invariant
            out@ == it.seq().take(it.index() as int),
            it.seq() == s@,
    {
        out.push(c);
    }
    out
}

/// Whether two texts are the same.
pub fn same(a: &str, b: &str) -> (r: bool)
    ensures
        r == (a@ == b@),
{
    a.to_owned() == b.to_owned()
}

/// Whether `a` comes strictly before `b`.
pub fn is_before(a: &str, b: &str) -> (r: bool)
    ensures
        r == before(a@, b@),
{
    let x = characters(a);
    let y = characters(b);
    let mut i: usize = 0;
    while i < x.len() && i < y.len() && x[i] == y[i]
        invariant
            x@ == a@,
            y@ == b@,
            i <= x.len(),
            i <= y.len(),
            before(a@, b@) == before_from(a@, b@, i as int),
        decreases x.len() - i,
    {
        i = i + 1;
    }
    if i >= y.len() {
        false
    } else if i >= x.len() {
        true
    } else {
        (x[i] as u32) < (y[i] as u32)
    }
}

/// Whether `needle` stands in `hay` at position `i`.
pub open spec fn occurs_at(hay: Seq<char>, needle: Seq<char>, i: int) -> bool {
    0 <= i && i + needle.len() <= hay.len() && hay.subrange(i, i + needle.len()) == needle
}

/// The first position from `i` on where `needle` stands in `hay`.
pub open spec fn find_from(hay: Seq<char>, needle: Seq<char>, i: int) -> Option<int>
    decreases hay.len() + 1 - i,
{
    if i < 0 || i > hay.len() {
        None
    } else if occurs_at(hay, needle, i) {
        Some(i)
    } else {
        find_from(hay, needle, i + 1)
    }
}

/// The first position where `needle` stands in `hay`.
pub open spec fn first_occurrence(hay: Seq<char>, needle: Seq<char>) -> Option<int> {
    find_from(hay, needle, 0)
}

pub proof fn find_from_sound(hay: Seq<char>, needle: Seq<char>, i: int)
    requires
        0 <= i,
    ensures
        match find_from(hay, needle, i) {
            Some(k) => i <= k && occurs_at(hay, needle, k) && forall|j: int|
                i <= j < k ==> !occurs_at(hay, needle, j),
            None => forall|j: int| i <= j ==> !occurs_at(hay, needle, j),
        },
    decreases hay.len() + 1 - i,
{
    if i <= hay.len() && !occurs_at(hay, needle, i) {
        find_from_sound(hay, needle, i + 1);
    }
}

fn occurs(hay: &Vec<char>, needle: &Vec<char>, i: usize) -> (r: bool)
    requires
        i <= hay.len(),
    ensures
        r == occurs_at(hay@, needle@, i as int),
{
    if needle.len() > hay.len() - i {
        return false;
    }
    let mut j: usize = 0;
    while j < needle.len()
        invariant
            j <= needle.len(),
            i + needle.len() <= hay.len(),
            forall|k: int| 0 <= k < j ==> hay@[i + k] == needle@[k],
        decreases needle.len() - j,
    {
        if hay[i + j] != needle[j] {
            assert(hay@.subrange(i as int, i + needle@.len())[j as int] != needle@[j as int]);
            return false;
        }
        j = j + 1;
    }
    assert(hay@.subrange(i as int, i + needle@.len()) =~= needle@);
    true
}

/// The first position where `needle` stands in `hay`, in characters.
pub fn find(hay: &str, needle: &str) -> (r: Option<usize>)
    ensures
        match r {
            Some(i) => first_occurrence(hay@, needle@) == Some(i as int) && i + needle@.len()
                <= hay@.len(),
            None => first_occurrence(hay@, needle@) is None,
        },
{
    let h = characters(hay);
    let n = characters(needle);
    let mut i: usize = 0;
    while i < h.len()
        invariant
            h@ == hay@,
            n@ == needle@,
            i <= h.len(),
            first_occurrence(hay@, needle@) == find_from(hay@, needle@, i as int),
        decreases h.len() - i,
    {
        if occurs(&h, &n, i) {
            return Some(i);
        }
        i = i + 1;
    }
    if occurs(&h, &n, i) {
        Some(i)
    } else {
        assert(find_from(hay@, needle@, i + 1) is None);
        None
    }
}

pub fn contains(hay: &str, needle: &str) -> (r: bool)
    ensures
        r == first_occurrence(hay@, needle@) is Some,
{
    find(hay, needle).is_some()
}

/// Whether `s` begins with `prefix`.
pub open spec fn begins_with(s: Seq<char>, prefix: Seq<char>) -> bool {
    occurs_at(s, prefix, 0)
}

pub fn starts_with(s: &str, prefix: &str) -> (r: bool)
    ensures
        r == begins_with(s@, prefix@),
{
    let h = characters(s);
    let n = characters(prefix);
    occurs(&h, &n, 0)
}

/// Whether `s` ends with `suffix`.
pub open spec fn finishes_with(s: Seq<char>, suffix: Seq<char>) -> bool {
    occurs_at(s, suffix, s.len() - suffix.len())
}

pub fn ends_with(s: &str, suffix: &str) -> (r: bool)
    ensures
        r == finishes_with(s@, suffix@),
{
    let h = characters(s);
    let n = characters(suffix);
    if n.len() > h.len() {
        false
    } else {
        occurs(&h, &n, h.len() - n.len())
    }
}

/// The characters of `s` from `from` up to `to`.
pub fn part(s: &str, from: usize, to: usize) -> (r: String)
    requires
        from <= to <= s@.len(),
    ensures
        r@ == s@.subrange(from as int, to as int),
{
    s.substring_char(from, to).to_owned()
}

/// The characters with Unicode's `White_Space` property.
pub open spec fn white(c: char) -> bool {
    ('\u{9}' <= c && c <= '\u{D}') || c == ' ' || c == '\u{85}' || c == '\u{A0}' || c == '\u{1680}'
        || ('\u{2000}' <= c && c <= '\u{200A}') || c == '\u{2028}' || c == '\u{2029}' || c
        == '\u{202F}' || c == '\u{205F}' || c == '\u{3000}'
}

fn is_white(c: char) -> (r: bool)
    ensures
        r == white(c),
{
    ('\u{9}' <= c && c <= '\u{D}') || c == ' ' || c == '\u{85}' || c == '\u{A0}' || c == '\u{1680}'
        || ('\u{2000}' <= c && c <= '\u{200A}') || c == '\u{2028}' || c == '\u{2029}' || c
        == '\u{202F}' || c == '\u{205F}' || c == '\u{3000}'
}

/// `s` without the white space it begins with.
pub open spec fn trim_left(s: Seq<char>) -> Seq<char>
    decreases s.len(),
{
    if s.len() > 0 && white(s[0]) {
        trim_left(s.skip(1))
    } else {
        s
    }
}

/// `s` without the white space it ends with.
pub open spec fn trim_right(s: Seq<char>) -> Seq<char>
    decreases s.len(),
{
    if s.len() > 0 && white(s.last()) {
        trim_right(s.drop_last())
    } else {
        s
    }
}

/// `s` without the white space around it.
pub open spec fn trimmed(s: Seq<char>) -> Seq<char> {
    trim_right(trim_left(s))
}

/// `s` without the white space around it.
pub fn trim(s: &str) -> (r: String)
    ensures
        r@ == trimmed(s@),
{
    let cs = characters(s);
    let mut a: usize = 0;
    assert(s@.skip(0) =~= s@);
    while a < cs.len() && is_white(cs[a])
        invariant
            a <= cs.len(),
            cs@ == s@,
            trim_left(s@) == trim_left(s@.skip(a as int)),
        decreases cs.len() - a,
    {
        assert(s@.skip(a as int).skip(1) =~= s@.skip(a + 1));
        a = a + 1;
    }
    assert(trim_left(s@) == s@.skip(a as int));
    let mut b: usize = cs.len();
    assert(s@.subrange(a as int, b as int) =~= s@.skip(a as int));
    while b > a && is_white(cs[b - 1])
        invariant
            a <= b <= cs.len(),
            cs@ == s@,
            trimmed(s@) == trim_right(s@.subrange(a as int, b as int)),
        decreases b,
    {
        assert(s@.subrange(a as int, b as int).last() == cs@[b - 1]);
        assert(s@.subrange(a as int, b as int).drop_last() =~= s@.subrange(a as int, b - 1));
        b = b - 1;
    }
    if b > a {
        assert(s@.subrange(a as int, b as int).last() == cs@[b - 1]);
    }
    part(s, a, b)
}

/// A carriage return at the end is white space: without it the text is trimmed to the same.
pub proof fn trimmed_without_return(s: Seq<char>)
    ensures
        trimmed(s.push('\r')) == trimmed(s),
{
    let t = trim_left(s.push('\r'));
    trim_left_push(s);
    assert(trim_left(s).push('\r').drop_last() =~= trim_left(s));
}

proof fn trim_left_push(s: Seq<char>)
    ensures
        trim_left(s).len() > 0 ==> trim_left(s.push('\r')) == trim_left(s).push('\r'),
        trim_left(s).len() == 0 ==> trim_left(s.push('\r')).len() == 0,
        trim_left(s).len() == 0 ==> trim_left(s.push('\r')) == trim_left(s),
    decreases s.len(),
{
    let t = s.push('\r');
    if s.len() > 0 {
        if white(s[0]) {
            assert(t.skip(1) =~= s.skip(1).push('\r'));
            trim_left_push(s.skip(1));
        }
    } else {
        assert(t.skip(1) =~= s);
    }
}

/// The position of the first line feed from `i` on, or the length of the text.
pub open spec fn line_feed(s: Seq<char>, i: int) -> int
    decreases s.len() - i,
{
    if i < 0 || i >= s.len() {
        s.len() as int
    } else if s[i] == '\n' {
        i
    } else {
        line_feed(s, i + 1)
    }
}

/// The line of `s` from `i` up to the line feed at `e`, without the carriage return that may stand
/// before the line feed.
pub open spec fn line_between(s: Seq<char>, i: int, e: int) -> Seq<char> {
    if e < s.len() && e > i && s[e - 1] == '\r' {
        s.subrange(i, e - 1)
    } else {
        s.subrange(i, e)
    }
}

/// The lines of `s` from position `i` on. A line feed ends a line; the last line needs none.
pub open spec fn lines_from(s: Seq<char>, i: int) -> Seq<Seq<char>>
    decreases s.len() + 1 - i,
{
    if i < 0 || i >= s.len() {
        Seq::empty()
    } else {
        let e = line_feed(s, i);
        seq![line_between(s, i, e)] + if i <= e < s.len() {
            lines_from(s, e + 1)
        } else {
            Seq::empty()
        }
    }
}

/// The lines of a text.
pub open spec fn lines_of(s: Seq<char>) -> Seq<Seq<char>> {
    lines_from(s, 0)
}

pub proof fn line_feed_bounds(s: Seq<char>, i: int)
    requires
        0 <= i <= s.len(),
    ensures
        i <= line_feed(s, i) <= s.len(),
        line_feed(s, i) < s.len() ==> s[line_feed(s, i)] == '\n',
        forall|j: int| i <= j < line_feed(s, i) ==> s[j] != '\n',
    decreases s.len() - i,
{
    if i < s.len() && s[i] != '\n' {
        line_feed_bounds(s, i + 1);
    }
}

/// The lines of a text.
pub fn lines(s: &str) -> (r: Vec<String>)
    ensures
        r.deep_view() == lines_of(s@),
{
    let cs = characters(s);
    let mut out: Vec<String> = Vec::new();
    let mut i: usize = 0;
    assert(out.deep_view() + lines_from(s@, 0) =~= lines_of(s@));
    while i < cs.len()
        invariant
            cs@ == s@,
            i <= cs.len(),
            out.deep_view() + lines_from(s@, i as int) == lines_of(s@),
        decreases cs.len() - i,
    {
        let ghost done = out.deep_view();
        let mut e: usize = i;
        while e < cs.len() && cs[e] != '\n'
            invariant
                cs@ == s@,
                i <= e <= cs.len(),
                line_feed(s@, i as int) == line_feed(s@, e as int),
            decreases cs.len() - e,
        {
            e = e + 1;
        }
        assert(line_feed(s@, i as int) == e);
        let end: usize = if e < cs.len() && e > i && cs[e - 1] == '\r' {
            e - 1
        } else {
            e
        };
        list::push(&mut out, part(s, i, end));
        proof {
            let line = line_between(s@, i as int, e as int);
            assert(out.deep_view() == done.push(line));
            assert(lines_from(s@, e + 1) =~= Seq::empty() || e < s@.len());
            assert(lines_from(s@, i as int) =~= seq![line] + lines_from(s@, e + 1));
            assert(out.deep_view() + lines_from(s@, e + 1) =~= done + lines_from(s@, i as int));
        }
        if e < cs.len() {
            i = e + 1;
        } else {
            assert(lines_from(s@, e + 1) =~= lines_from(s@, e as int));
            i = e;
        }
    }
    assert(out.deep_view() =~= lines_of(s@));
    out
}

/// A text without line feeds that begins and ends with something visible is one line, with nothing
/// around it to trim.
pub proof fn plain_line(s: Seq<char>)
    requires
        s.len() > 0,
        !white(s[0]),
        !white(s.last()),
        forall|i: int| 0 <= i < s.len() ==> #[trigger] s[i] != '\n',
    ensures
        lines_of(s) == seq![s],
        trimmed(s) == s,
{
    line_feed_bounds(s, 0);
    let e = line_feed(s, 0);
    if e < s.len() {
        assert(s[e] != '\n');
    }
    assert(s.subrange(0, s.len() as int) =~= s);
    assert(lines_of(s) =~= seq![s]);
}

/// Whether a character is one of the ten ASCII digits.
pub open spec fn digit(c: char) -> bool {
    '0' <= c && c <= '9'
}

/// The number that the first `n` digits write.
pub open spec fn digits_value(s: Seq<char>, n: int) -> int
    decreases n,
{
    if n <= 0 {
        0
    } else {
        digits_value(s, n - 1) * 10 + (s[n - 1] as u32 - '0' as u32)
    }
}

pub open spec fn all_digits(s: Seq<char>) -> bool {
    s.len() > 0 && forall|i: int| 0 <= i < s.len() ==> digit(#[trigger] s[i])
}

/// The unsigned number a text writes: digits, with at most one plus sign before them.
pub open spec fn unsigned_in(s: Seq<char>) -> Option<int> {
    let digits = if s.len() > 0 && s[0] == '+' {
        s.skip(1)
    } else {
        s
    };
    if all_digits(digits) {
        Some(digits_value(digits, digits.len() as int))
    } else {
        None
    }
}

proof fn digits_value_grows(s: Seq<char>, i: int, n: int)
    requires
        0 <= i <= n <= s.len(),
        forall|k: int| 0 <= k < s.len() ==> digit(#[trigger] s[k]),
    ensures
        0 <= digits_value(s, i) <= digits_value(s, n),
    decreases n,
{
    if n > 0 {
        assert(digit(s[n - 1]));
        if i < n {
            digits_value_grows(s, i, n - 1);
        } else {
            digits_value_grows(s, n - 1, n - 1);
        }
    }
}

/// What a text of digits writes is never negative.
pub proof fn unsigned_is_positive(s: Seq<char>)
    ensures
        unsigned_in(s) matches Some(v) ==> v >= 0,
{
    let digits = if s.len() > 0 && s[0] == '+' {
        s.skip(1)
    } else {
        s
    };
    if all_digits(digits) {
        digits_value_grows(digits, 0, digits.len() as int);
    }
}

/// Read an unsigned number no greater than `u64` holds.
pub fn parse_u64(s: &str) -> (r: Option<u64>)
    ensures
        match r {
            Some(n) => unsigned_in(s@) == Some(n as int),
            None => unsigned_in(s@) is None || unsigned_in(s@)->0 > u64::MAX,
        },
{
    let cs = characters(s);
    let from: usize = if cs.len() > 0 && cs[0] == '+' {
        1
    } else {
        0
    };
    let ghost digits = if s@.len() > 0 && s@[0] == '+' {
        s@.skip(1)
    } else {
        s@
    };
    assert(digits =~= cs@.skip(from as int));
    if cs.len() == from {
        return None;
    }
    let mut i: usize = from;
    while i < cs.len()
        invariant
            from <= i <= cs.len(),
            digits == cs@.skip(from as int),
            digits == if s@.len() > 0 && s@[0] == '+' {
                s@.skip(1)
            } else {
                s@
            },
            forall|k: int| from <= k < i ==> digit(#[trigger] cs@[k]),
        decreases cs.len() - i,
    {
        let c: char = cs[i];
        if !('0' <= c && c <= '9') {
            assert(digits[i - from] == c);
            assert(!digit(digits[i - from]));
            return None;
        }
        i = i + 1;
    }
    assert forall|k: int| 0 <= k < digits.len() implies digit(#[trigger] digits[k]) by {
        assert(digits[k] == cs@[k + from]);
    }
    assert(all_digits(digits));
    let mut value: u64 = 0;
    let mut j: usize = from;
    while j < cs.len()
        invariant
            from <= j <= cs.len(),
            digits == cs@.skip(from as int),
            forall|k: int| 0 <= k < digits.len() ==> digit(#[trigger] digits[k]),
            all_digits(digits),
            unsigned_in(s@) == Some(digits_value(digits, digits.len() as int)),
            value == digits_value(digits, j - from),
        decreases cs.len() - j,
    {
        assert(digits[j - from] == cs@[j as int]);
        assert(digit(digits[j - from]));
        let d: u64 = cs[j] as u64 - '0' as u64;
        proof {
            digits_value_grows(digits, j - from + 1, digits.len() as int);
        }
        let wide: u128 = value as u128 * 10 + d as u128;
        if wide > u64::MAX as u128 {
            return None;
        }
        value = wide as u64;
        j = j + 1;
    }
    Some(value)
}

/// How a number is written in decimal.
pub open spec fn decimal(n: nat) -> Seq<char>
    decreases n,
{
    if n < 10 {
        seq![digit_char(n)]
    } else {
        decimal(n / 10).push(digit_char(n % 10))
    }
}

pub open spec fn digit_char(d: nat) -> char {
    if d == 0 {
        '0'
    } else if d == 1 {
        '1'
    } else if d == 2 {
        '2'
    } else if d == 3 {
        '3'
    } else if d == 4 {
        '4'
    } else if d == 5 {
        '5'
    } else if d == 6 {
        '6'
    } else if d == 7 {
        '7'
    } else if d == 8 {
        '8'
    } else {
        '9'
    }
}

fn digit_text(d: u64) -> (r: &'static str)
    requires
        d < 10,
    ensures
        r@ == seq![digit_char(d as nat)],
{
    proof {
        reveal_strlit("0");
        reveal_strlit("1");
        reveal_strlit("2");
        reveal_strlit("3");
        reveal_strlit("4");
        reveal_strlit("5");
        reveal_strlit("6");
        reveal_strlit("7");
        reveal_strlit("8");
        reveal_strlit("9");
    }
    let r = if d == 0 {
        "0"
    } else if d == 1 {
        "1"
    } else if d == 2 {
        "2"
    } else if d == 3 {
        "3"
    } else if d == 4 {
        "4"
    } else if d == 5 {
        "5"
    } else if d == 6 {
        "6"
    } else if d == 7 {
        "7"
    } else if d == 8 {
        "8"
    } else {
        "9"
    };
    assert(r@ =~= seq![digit_char(d as nat)]);
    r
}

/// A number in decimal.
pub fn to_decimal(n: u64) -> (r: String)
    ensures
        r@ == decimal(n as nat),
    decreases n,
{
    if n < 10 {
        digit_text(n).to_owned()
    } else {
        let mut out = to_decimal(n / 10);
        let ghost head = out@;
        out.append(digit_text(n % 10));
        assert(out@ =~= head.push(digit_char((n % 10) as nat)));
        out
    }
}

/// The first word of a text: what stands up to the first white space, once the white space before
/// it is left out. Nothing where there is only white space.
pub open spec fn first_word(s: Seq<char>) -> Option<Seq<char>> {
    let t = trim_left(s);
    if t.len() == 0 {
        None
    } else {
        Some(t.take(word_end(t, 0)))
    }
}

/// The first white space from `i` on, or the length of the text.
pub open spec fn word_end(s: Seq<char>, i: int) -> int
    decreases s.len() - i,
{
    if i < 0 || i >= s.len() {
        s.len() as int
    } else if white(s[i]) {
        i
    } else {
        word_end(s, i + 1)
    }
}

/// The first word of a text.
pub fn word(s: &str) -> (r: Option<String>)
    ensures
        r.deep_view() == first_word(s@),
{
    let cs = characters(s);
    let mut a: usize = 0;
    assert(s@.skip(0) =~= s@);
    while a < cs.len() && is_white(cs[a])
        invariant
            a <= cs.len(),
            cs@ == s@,
            trim_left(s@) == trim_left(s@.skip(a as int)),
        decreases cs.len() - a,
    {
        assert(s@.skip(a as int).skip(1) =~= s@.skip(a + 1));
        a = a + 1;
    }
    let ghost t = s@.skip(a as int);
    assert(trim_left(s@) == t);
    if a == cs.len() {
        return None;
    }
    let mut b: usize = a;
    while b < cs.len() && !is_white(cs[b])
        invariant
            a <= b <= cs.len(),
            cs@ == s@,
            t == s@.skip(a as int),
            word_end(t, 0) == word_end(t, b - a),
        decreases cs.len() - b,
    {
        assert(t[b - a] == cs@[b as int]);
        b = b + 1;
    }
    if b < cs.len() {
        assert(t[b - a] == cs@[b as int]);
    }
    assert(word_end(t, 0) == b - a);
    assert(t.take(b - a) =~= s@.subrange(a as int, b as int));
    Some(part(s, a, b))
}

/// Whether a text is empty or ends with a line feed.
pub open spec fn whole_lines(s: Seq<char>) -> bool {
    s.len() == 0 || s.last() == '\n'
}

proof fn line_feed_within(a: Seq<char>, b: Seq<char>, i: int)
    requires
        0 <= i < a.len(),
        a.last() == '\n',
    ensures
        line_feed(a + b, i) == line_feed(a, i),
        line_feed(a, i) < a.len(),
    decreases a.len() - i,
{
    if a[i] != '\n' {
        line_feed_within(a, b, i + 1);
    }
}

proof fn line_feed_beyond(a: Seq<char>, b: Seq<char>, i: int)
    requires
        0 <= i <= b.len(),
    ensures
        line_feed(a + b, a.len() + i) == a.len() + line_feed(b, i),
    decreases b.len() - i,
{
    if i < b.len() && b[i] != '\n' {
        line_feed_beyond(a, b, i + 1);
    }
}

proof fn lines_beyond(a: Seq<char>, b: Seq<char>, i: int)
    requires
        0 <= i <= b.len(),
    ensures
        lines_from(a + b, a.len() + i) == lines_from(b, i),
    decreases b.len() - i,
{
    let c = a + b;
    let n = a.len() as int;
    if i < b.len() {
        line_feed_beyond(a, b, i);
        line_feed_bounds(b, i);
        let e = line_feed(b, i);
        if e < b.len() {
            lines_beyond(a, b, e + 1);
        }
        assert(c.subrange(n + i, n + e) =~= b.subrange(i, e));
        if e > i {
            assert(c.subrange(n + i, n + e - 1) =~= b.subrange(i, e - 1));
            assert(c[n + e - 1] == b[e - 1]);
        }
        assert(line_between(c, n + i, n + e) == line_between(b, i, e));
        assert(lines_from(c, n + i) =~= lines_from(b, i));
    }
}

proof fn lines_split_from(a: Seq<char>, b: Seq<char>, i: int)
    requires
        whole_lines(a),
        0 <= i <= a.len(),
    ensures
        lines_from(a + b, i) == lines_from(a, i) + lines_from(b, 0),
    decreases a.len() - i,
{
    let c = a + b;
    if i == a.len() {
        lines_beyond(a, b, 0);
        assert(lines_from(a, i) =~= Seq::empty());
        assert(lines_from(c, i) =~= lines_from(a, i) + lines_from(b, 0));
    } else {
        line_feed_within(a, b, i);
        line_feed_bounds(a, i);
        let e = line_feed(a, i);
        lines_split_from(a, b, e + 1);
        assert(c.subrange(i, e) =~= a.subrange(i, e));
        if e > i {
            assert(c.subrange(i, e - 1) =~= a.subrange(i, e - 1));
            assert(c[e - 1] == a[e - 1]);
        }
        assert(line_between(c, i, e) == line_between(a, i, e));
        assert(lines_from(c, i) =~= lines_from(a, i) + lines_from(b, 0));
    }
}

/// Where whole lines come first, the lines of two texts together are the lines of the one and then
/// those of the other.
pub proof fn lines_split(a: Seq<char>, b: Seq<char>)
    requires
        whole_lines(a),
    ensures
        lines_of(a + b) == lines_of(a) + lines_of(b),
{
    lines_split_from(a, b, 0);
}

/// The first `n` lines, each ended by a line feed.
pub open spec fn framed(lines: Seq<Seq<char>>, n: int) -> Seq<char>
    decreases n,
{
    if n <= 0 {
        Seq::empty()
    } else {
        framed(lines, n - 1) + lines[n - 1] + "\n"@
    }
}

/// Lines as a file holds them: each ended by a line feed.
pub fn frame(lines: &Vec<String>) -> (r: String)
    ensures
        r@ == framed(lines.deep_view(), lines.len() as int),
{
    let mut out = String::new();
    let mut i: usize = 0;
    while i < lines.len()
        invariant
            i <= lines.len(),
            out@ == framed(lines.deep_view(), i as int),
        decreases lines.len() - i,
    {
        assert(lines.deep_view()[i as int] == lines@[i as int]@);
        out.append(lines[i].as_str());
        out.append("\n");
        i = i + 1;
    }
    out
}

/// Whether a text can stand on one line and be read back as it was.
pub open spec fn one_line(s: Seq<char>) -> bool {
    &&& forall|i: int| 0 <= i < s.len() ==> #[trigger] s[i] != '\n'
    &&& s.len() > 0 ==> s.last() != '\r'
}

proof fn framed_line(s: Seq<char>)
    requires
        one_line(s),
    ensures
        lines_of(s + "\n"@) == seq![s],
{
    reveal_strlit("\n");
    let t = s + "\n"@;
    let n = s.len() as int;
    assert(t.len() == n + 1);
    assert(t[n] == '\n');
    line_feed_bounds(t, 0);
    let e = line_feed(t, 0);
    if e < n {
        assert(t[e] == s[e]);
        assert(s[e] != '\n');
    }
    assert(e == n);
    assert(t.subrange(0, n) =~= s);
    if n > 0 {
        assert(t[n - 1] == s.last());
    }
    assert(lines_from(t, n + 1) =~= Seq::empty());
    assert(lines_of(t) =~= seq![s]);
}

/// What is appended to a file is read back, line for line, behind what the file held.
pub proof fn appended_lines_read_back(file: Seq<char>, lines: Seq<Seq<char>>, n: int)
    requires
        whole_lines(file),
        0 <= n <= lines.len(),
        forall|i: int| 0 <= i < lines.len() ==> one_line(#[trigger] lines[i]),
    ensures
        lines_of(file + framed(lines, n)) == lines_of(file) + lines.take(n),
        whole_lines(file + framed(lines, n)),
    decreases n,
{
    reveal_strlit("\n");
    if n <= 0 {
        assert(file + framed(lines, n) =~= file);
        assert(lines_of(file) + lines.take(n) =~= lines_of(file));
    } else {
        appended_lines_read_back(file, lines, n - 1);
        let head = file + framed(lines, n - 1);
        let line = lines[n - 1];
        assert(one_line(lines[n - 1]));
        framed_line(line);
        lines_split(head, line + "\n"@);
        assert(file + framed(lines, n) =~= head + (line + "\n"@));
        assert(lines.take(n) =~= lines.take(n - 1) + seq![line]);
        assert(lines_of(file) + lines.take(n) =~= lines_of(file) + lines.take(n - 1) + seq![line]);
    }
}

} // verus!
