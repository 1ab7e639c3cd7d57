//! What the parts of a text are, how a number is written, and how a length is rounded.

use vstd::prelude::*;

use crate::decision::joined;
use crate::json::{find_from, member, Json, Member};
use crate::list;
use crate::model::{negative_zero, same_data, unsigned_zeros, DataV};
use crate::text;
use crate::time::{stamp_of, whole_millis, whole_seconds};

verus! {

/// Where two texts first differ the smaller code point decides; where they do not, the shorter one
/// comes first.
pub proof fn texts_are_ordered_where_they_first_differ(a: Seq<char>, b: Seq<char>, i: int)
    requires
        0 <= i <= a.len(),
        i <= b.len(),
        a.take(i) == b.take(i),
    ensures
        i < a.len() && i < b.len() && a[i] != b[i] ==> (text::before(a, b) <==> (a[i] as u32) < (
        b[i] as u32)),
        i == a.len() ==> (text::before(a, b) <==> a.len() < b.len()),
        i == b.len() ==> !text::before(a, b),
{
    assert forall|k: int| 0 <= k < i implies a[k] == b[k] by {
        assert(a.take(i)[k] == a[k]);
        assert(b.take(i)[k] == b[k]);
    }
    same_so_far(a, b, i);
}

proof fn same_so_far(a: Seq<char>, b: Seq<char>, i: int)
    requires
        0 <= i <= a.len(),
        i <= b.len(),
        forall|k: int| 0 <= k < i ==> a[k] == b[k],
    ensures
        text::before(a, b) == text::before_from(a, b, i),
    decreases i,
{
    if i > 0 {
        same_so_far(a, b, i - 1);
    }
}

/// The white characters are the tab, the line feed and what stands between it and the carriage
/// return, the space, and the spaces and separators beyond ASCII.
pub proof fn these_characters_are_white(c: char)
    ensures
        text::white(c) <==> {
            let n = c as int;
            ||| 9 <= n <= 13 || n == 32 || n == 133 || n == 160
            ||| n == 5760 || 8192 <= n <= 8202 || n == 8232 || n == 8233
            ||| n == 8239 || n == 8287 || n == 12288
        },
{
}

/// The digits are those from zero to nine of ASCII, each worth its distance from zero.
pub proof fn these_characters_are_digits(c: char)
    ensures
        text::digit(c) <==> 48 <= c as int <= 57,
        text::digit(c) ==> text::digits_value(seq![c], 1) == c as int - 48,
{
    reveal_with_fuel(text::digits_value, 2);
}

/// Trimming takes off white space before and after, all of it and nothing else.
pub proof fn trimming_takes_off_the_white_space_around(s: Seq<char>)
    ensures
        exists|a: int, b: int|
            #![trigger s.subrange(a, b)]
            0 <= a <= b <= s.len() && text::trimmed(s) == s.subrange(a, b) && (forall|k: int|
                0 <= k < a || b <= k < s.len() ==> text::white(#[trigger] s[k])),
        text::trimmed(s).len() > 0 ==> !text::white(text::trimmed(s)[0]) && !text::white(
            text::trimmed(s).last(),
        ),
{
    let a = left_end(s);
    let t = text::trim_left(s);
    let n = right_end(t);
    assert(t == s.skip(a));
    let b = a + n;
    assert(text::trimmed(s) =~= s.subrange(a, b));
    assert forall|k: int| 0 <= k < a || b <= k < s.len() implies text::white(#[trigger] s[k]) by {
        if k >= b {
            assert(t[k - a] == s[k]);
        }
    }
    if n > 0 {
        assert(text::trimmed(s)[0] == t[0]);
    }
}

proof fn left_end(s: Seq<char>) -> (a: int)
    ensures
        0 <= a <= s.len(),
        text::trim_left(s) == s.skip(a),
        forall|k: int| 0 <= k < a ==> text::white(#[trigger] s[k]),
        a < s.len() ==> !text::white(s[a]),
    decreases s.len(),
{
    if s.len() > 0 && text::white(s[0]) {
        let rest = s.skip(1);
        let b = left_end(rest);
        assert(rest.skip(b) =~= s.skip(b + 1));
        assert forall|k: int| 0 <= k < b + 1 implies text::white(#[trigger] s[k]) by {
            if k > 0 {
                assert(rest[k - 1] == s[k]);
            }
        }
        if b < rest.len() {
            assert(rest[b] == s[b + 1]);
        }
        b + 1
    } else {
        assert(s.skip(0) =~= s);
        0
    }
}

proof fn right_end(s: Seq<char>) -> (n: int)
    ensures
        0 <= n <= s.len(),
        text::trim_right(s) == s.take(n),
        forall|k: int| n <= k < s.len() ==> text::white(#[trigger] s[k]),
        n > 0 ==> !text::white(s[n - 1]),
    decreases s.len(),
{
    if s.len() > 0 && text::white(s.last()) {
        let rest = s.drop_last();
        let n = right_end(rest);
        assert(rest.take(n) =~= s.take(n));
        assert forall|k: int| n <= k < s.len() implies text::white(#[trigger] s[k]) by {
            if k < rest.len() {
                assert(rest[k] == s[k]);
            }
        }
        n
    } else {
        assert(s.take(s.len() as int) =~= s);
        s.len() as int
    }
}

/// The first word of a text has white space before it alone, none in it, and white space or nothing
/// behind it. There is none just where the text is all white.
pub proof fn a_word_is_what_stands_between_white_space(s: Seq<char>)
    ensures
        text::first_word(s) is None <==> forall|k: int|
            0 <= k < s.len() ==> text::white(#[trigger] s[k]),
        text::first_word(s) matches Some(w) ==> exists|a: int, b: int|
            #![trigger s.subrange(a, b)]
            0 <= a < b <= s.len() && w == s.subrange(a, b) && (forall|k: int|
                0 <= k < a ==> text::white(#[trigger] s[k])) && (forall|k: int|
                a <= k < b ==> !text::white(#[trigger] s[k])) && (b < s.len() ==> text::white(s[b])),
{
    let a = left_end(s);
    let t = text::trim_left(s);
    if t.len() > 0 {
        word_ends(t, 0);
        let n = text::word_end(t, 0);
        let b = a + n;
        assert(t[0] == s[a]);
        assert(t.take(n) =~= s.subrange(a, b));
        assert forall|k: int| a <= k < b implies !text::white(#[trigger] s[k]) by {
            assert(t[k - a] == s[k]);
        }
        if b < s.len() {
            assert(t[n] == s[b]);
        }
    }
}

proof fn word_ends(s: Seq<char>, i: int)
    requires
        0 <= i <= s.len(),
    ensures
        i <= text::word_end(s, i) <= s.len(),
        forall|k: int| i <= k < text::word_end(s, i) ==> !text::white(#[trigger] s[k]),
        text::word_end(s, i) < s.len() ==> text::white(s[text::word_end(s, i)]),
    decreases s.len() - i,
{
    if i < s.len() && !text::white(s[i]) {
        word_ends(s, i + 1);
    }
}

/// A number written in decimal is digits without a leading zero, and reads back as that number.
pub proof fn a_number_reads_back(n: nat)
    ensures
        text::all_digits(text::decimal(n)),
        text::digits_value(text::decimal(n), text::decimal(n).len() as int) == n,
        text::unsigned_in(text::decimal(n)) == Some(n as int),
        n > 0 ==> text::decimal(n)[0] != '0',
    decreases n,
{
    let s = text::decimal(n);
    if n >= 10 {
        let rest = text::decimal(n / 10);
        a_number_reads_back(n / 10);
        digits_so_far(s, rest, rest.len() as int);
        assert forall|i: int| 0 <= i < s.len() implies text::digit(#[trigger] s[i]) by {
            if i < rest.len() {
                assert(s[i] == rest[i]);
            }
        }
        assert(s[0] == rest[0]);
    } else {
        reveal_with_fuel(text::digits_value, 2);
    }
}

proof fn digits_so_far(a: Seq<char>, b: Seq<char>, n: int)
    requires
        0 <= n <= a.len(),
        n <= b.len(),
        forall|k: int| 0 <= k < n ==> a[k] == b[k],
    ensures
        text::digits_value(a, n) == text::digits_value(b, n),
    decreases n,
{
    if n > 0 {
        digits_so_far(a, b, n - 1);
    }
}

/// Leading zeros and one plus sign do not change the number that a text writes; any other character
/// makes it none.
pub proof fn a_number_is_digits(s: Seq<char>)
    ensures
        text::all_digits(s) ==> text::unsigned_in(seq!['+'] + s) == text::unsigned_in(s),
        text::all_digits(s) ==> text::unsigned_in(seq!['0'] + s) == text::unsigned_in(s),
        (exists|i: int| 0 < i < s.len() && !text::digit(#[trigger] s[i])) ==> text::unsigned_in(s)
            is None,
        s.len() == 0 ==> text::unsigned_in(s) is None,
{
    let plus = seq!['+'] + s;
    assert(plus.skip(1) =~= s);
    let zero = seq!['0'] + s;
    if text::all_digits(s) {
        assert forall|i: int| 0 <= i < zero.len() implies text::digit(#[trigger] zero[i]) by {
            if i > 0 {
                assert(zero[i] == s[i - 1]);
            }
        }
        zero_before(s, s.len() as int);
        assert(text::digit(s[0]));
    }
    if exists|i: int| 0 < i < s.len() && !text::digit(#[trigger] s[i]) {
        let i = choose|i: int| 0 < i < s.len() && !text::digit(#[trigger] s[i]);
        if s[0] == '+' {
            assert(s.skip(1)[i - 1] == s[i]);
        }
    }
}

proof fn zero_before(s: Seq<char>, n: int)
    requires
        0 <= n <= s.len(),
    ensures
        text::digits_value(seq!['0'] + s, n + 1) == text::digits_value(s, n),
    decreases n,
{
    let zero = seq!['0'] + s;
    if n > 0 {
        zero_before(s, n - 1);
        assert(zero[n] == s[n - 1]);
    } else {
        reveal_with_fuel(text::digits_value, 2);
    }
}

/// Lines that hold no line feed, each ended by one, are the lines of a text; so is a last one that
/// is not empty and not ended.
pub proof fn line_feeds_end_the_lines(lines: Seq<Seq<char>>, last: Seq<char>)
    requires
        forall|i: int| 0 <= i < lines.len() ==> text::one_line(#[trigger] lines[i]),
        last.len() > 0,
        text::one_line(last),
    ensures
        text::lines_of(text::framed(lines, lines.len() as int)) == lines,
        text::lines_of(text::framed(lines, lines.len() as int) + last) == lines.push(last),
        text::lines_of(Seq::<char>::empty()).len() == 0,
{
    let none = Seq::<char>::empty();
    let n = lines.len() as int;
    let file = text::framed(lines, n);
    text::appended_lines_read_back(none, lines, n);
    assert(none + file =~= file);
    assert(lines.take(n) =~= lines);
    assert(text::lines_of(none) + lines =~= lines);
    text::lines_split(file, last);
    text::line_feed_bounds(last, 0);
    let e = text::line_feed(last, 0);
    assert(e == last.len());
    assert(last.subrange(0, e) =~= last);
    assert(text::lines_of(last) =~= seq![last]);
    assert(lines + seq![last] =~= lines.push(last));
}

/// A text of lines is the lines, one after another, a line feed behind each.
pub proof fn a_framed_text_is_its_lines(lines: Seq<Seq<char>>, n: int)
    requires
        0 <= n <= lines.len(),
    ensures
        text::framed(lines, n) == list::flat(lines, |l: Seq<char>| l.push('\n'), n),
    decreases n,
{
    reveal_strlit("\n");
    if n > 0 {
        a_framed_text_is_its_lines(lines, n - 1);
        assert(lines[n - 1] + "\n"@ =~= lines[n - 1].push('\n'));
        assert(text::framed(lines, n) =~= text::framed(lines, n - 1) + lines[n - 1].push('\n'));
    }
}

/// A joined text is the parts, one after another, with what joins them before each but the first.
pub proof fn a_joined_text_has_every_part(parts: Seq<Seq<char>>, by: Seq<char>, n: int)
    requires
        0 <= n <= parts.len(),
    ensures
        n > 0 ==> by + joined(parts, by, n) == list::flat(parts, |p: Seq<char>| by + p, n),
        n == 0 ==> joined(parts, by, n).len() == 0,
    decreases n,
{
    if n > 0 {
        a_joined_text_has_every_part(parts, by, n - 1);
        let f = |p: Seq<char>| by + p;
        if n == 1 {
            reveal_with_fuel(list::flat, 2);
            assert(list::flat(parts, f, 1) =~= by + parts[0]);
            assert(joined(parts, by, 1) =~= parts[0]);
        } else {
            assert(by + joined(parts, by, n) =~= by + joined(parts, by, n - 1) + (by + parts[n - 1]));
        }
    }
}

/// What an object holds under a name is the first member of that name.
pub proof fn a_member_is_the_first_of_its_name(members: Vec<Member>, key: Seq<char>, i: int)
    requires
        0 <= i < members@.len(),
        members@[i].key@ == key,
        forall|k: int| 0 <= k < i ==> (#[trigger] members@[k]).key@ != key,
    ensures
        member(Json::Object(members), key) == Some(members@[i].value),
{
    found_at(members@, key, 0, i);
}

proof fn found_at(members: Seq<Member>, key: Seq<char>, from: int, i: int)
    requires
        0 <= from <= i < members.len(),
        members[i].key@ == key,
        forall|k: int| from <= k < i ==> (#[trigger] members[k]).key@ != key,
    ensures
        find_from(members, key, from) == Some(members[i].value),
    decreases i - from,
{
    if from < i {
        assert(members[from].key@ != key);
        found_at(members, key, from + 1, i);
    }
}

/// What is under no name, and what a value that is no object holds, is nothing.
pub proof fn a_member_that_is_missing_is_nothing(json: Json, key: Seq<char>)
    requires
        json matches Json::Object(members) ==> forall|k: int|
            0 <= k < members@.len() ==> (#[trigger] members@[k]).key@ != key,
    ensures
        member(json, key) is None,
{
    if let Json::Object(members) = json {
        missing_from(members@, key, 0);
    }
}

proof fn missing_from(members: Seq<Member>, key: Seq<char>, from: int)
    requires
        0 <= from <= members.len(),
        forall|k: int| 0 <= k < members.len() ==> (#[trigger] members[k]).key@ != key,
    ensures
        find_from(members, key, from) is None,
    decreases members.len() - from,
{
    if from < members.len() {
        assert(members[from].key@ != key);
        missing_from(members, key, from + 1);
    }
}

/// Whole milliseconds and whole seconds leave off less than one, toward zero, and a length and its
/// opposite round alike.
pub proof fn lengths_round_toward_zero(n: int)
    ensures
        n >= 0 ==> 0 <= whole_millis(n) && 0 <= n - whole_millis(n) * 1_000_000 < 1_000_000,
        n >= 0 ==> 0 <= whole_seconds(n) && 0 <= n - whole_seconds(n) * 1_000_000_000
            < 1_000_000_000,
        whole_millis(-n) == -whole_millis(n),
        whole_seconds(-n) == -whole_seconds(n),
{
}

/// A timestamp and the instant it is of are the same moment.
pub proof fn a_timestamp_is_its_instant(n: int)
    requires
        crate::time::in_range(n),
    ensures
        stamp_of(n).secs * 1_000_000_000 + stamp_of(n).subsec == n,
        stamp_of(n).subsec < 1_000_000_000,
{
}

/// Data in which no negative zero is written is the same just where it is equal; and data that is
/// the same differs in minus signs at most.
pub proof fn only_zeros_are_the_same_and_not_equal(a: DataV, b: DataV)
    ensures
        (forall|i: int| !#[trigger] negative_zero(a.text, i)) && (forall|i: int| !#[trigger]
            negative_zero(b.text, i)) ==> (same_data(a, b) <==> a == b),
        same_data(a, b) ==> a.strings == b.strings && a.text.filter(|c: char| c != '-')
            == b.text.filter(|c: char| c != '-'),
        same_data(a, a),
        same_data(a, b) == same_data(b, a),
{
    if forall|i: int| !#[trigger] negative_zero(a.text, i) {
        nothing_to_strip(a.text, 0, false);
        assert(a.text.skip(0) =~= a.text);
    }
    if forall|i: int| !#[trigger] negative_zero(b.text, i) {
        nothing_to_strip(b.text, 0, false);
        assert(b.text.skip(0) =~= b.text);
    }
    only_signs_go(a.text, 0, false);
    only_signs_go(b.text, 0, false);
    assert(a.text.skip(0) =~= a.text);
    assert(b.text.skip(0) =~= b.text);
}

proof fn nothing_to_strip(s: Seq<char>, i: int, quoted: bool)
    requires
        0 <= i <= s.len(),
        forall|k: int| !#[trigger] negative_zero(s, k),
    ensures
        unsigned_zeros(s, i, quoted) == s.skip(i),
    decreases s.len() - i,
{
    if i < s.len() {
        assert(!negative_zero(s, i));
        if quoted && s[i] == '\\' && i + 1 < s.len() {
            nothing_to_strip(s, i + 2, true);
            assert(seq![s[i], s[i + 1]] + s.skip(i + 2) =~= s.skip(i));
        } else {
            let q = if s[i] == '"' {
                !quoted
            } else {
                quoted
            };
            nothing_to_strip(s, i + 1, q);
            assert(seq![s[i]] + s.skip(i + 1) =~= s.skip(i));
        }
    } else {
        assert(s.skip(i) =~= Seq::empty());
    }
}

proof fn filter_first(s: Seq<char>, t: Seq<char>)
    ensures
        (s + t).filter(|c: char| c != '-') == s.filter(|c: char| c != '-') + t.filter(
            |c: char| c != '-',
        ),
{
    let keep = |c: char| c != '-';
    Seq::<char>::filter_distributes_over_add(s, t, keep);
}

proof fn only_signs_go(s: Seq<char>, i: int, quoted: bool)
    requires
        0 <= i <= s.len(),
    ensures
        unsigned_zeros(s, i, quoted).filter(|c: char| c != '-') == s.skip(i).filter(
            |c: char| c != '-',
        ),
    decreases s.len() - i,
{
    if i < s.len() {
        if quoted && s[i] == '\\' && i + 1 < s.len() {
            let two = seq![s[i], s[i + 1]];
            only_signs_go(s, i + 2, true);
            assert(two + s.skip(i + 2) =~= s.skip(i));
            filter_first(two, s.skip(i + 2));
            filter_first(two, unsigned_zeros(s, i + 2, true));
        } else {
            let one = seq![s[i]];
            let q = if s[i] == '"' {
                !quoted
            } else {
                quoted
            };
            only_signs_go(s, i + 1, q);
            assert(one + s.skip(i + 1) =~= s.skip(i));
            filter_first(one, s.skip(i + 1));
            filter_first(one, unsigned_zeros(s, i + 1, q));
            if !quoted && negative_zero(s, i) {
                reveal(Seq::filter);
                assert(s[i] == '-');
                assert(one.drop_last() =~= Seq::empty());
                assert(one.last() == '-');
                assert(Seq::<char>::empty().filter(|c: char| c != '-') =~= Seq::empty());
                assert(one.filter(|c: char| c != '-') =~= Seq::empty());
                assert(Seq::<char>::empty() + s.skip(i + 1).filter(|c: char| c != '-') =~= s.skip(
                    i + 1,
                ).filter(|c: char| c != '-'));
            }
        }
    } else {
        assert(s.skip(i) =~= Seq::empty());
    }
}

} // verus!
