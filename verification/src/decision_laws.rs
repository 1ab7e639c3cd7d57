//! What holds of reading records and of the keys that rules match on.

use vstd::prelude::*;

use crate::decision::{
    joined, key_of, line_record, line_records, match_key_ignores_order_and_uuids, parts_of,
    ParticipantV, RecordV, RECORD_SEP, UNIT_SEP,
};
use crate::list::{flat, flat_permutes};
use crate::order::{arranged, arranged_contains, arranged_keeps};
use crate::text;

verus! {

/// The records of all the lines.
pub open spec fn all_records(lines: Seq<Seq<char>>) -> Seq<RecordV> {
    line_records(lines, lines.len() as int)
}

/// How many of the first `n` lines are not blank.
pub open spec fn filled_lines(lines: Seq<Seq<char>>, n: int) -> int
    decreases n,
{
    if n <= 0 {
        0
    } else if text::trimmed(lines[n - 1]).len() > 0 {
        filled_lines(lines, n - 1) + 1
    } else {
        filled_lines(lines, n - 1)
    }
}

/// Every line that is not blank gives one record, and no other line gives any: nothing is dropped
/// for being malformed.
pub proof fn every_filled_line_is_a_record(lines: Seq<Seq<char>>, n: int)
    requires
        0 <= n <= lines.len(),
    ensures
        line_records(lines, n).len() == filled_lines(lines, n),
    decreases n,
{
    if n > 0 {
        every_filled_line_is_a_record(lines, n - 1);
    }
}

proof fn records_prefix(a: Seq<Seq<char>>, b: Seq<Seq<char>>, n: int)
    requires
        n <= a.len(),
        n <= b.len(),
        forall|i: int| 0 <= i < n ==> line_record(#[trigger] a[i]) == line_record(b[i]),
    ensures
        line_records(a, n) == line_records(b, n),
    decreases n,
{
    if n > 0 {
        records_prefix(a, b, n - 1);
        assert(line_record(a[n - 1]) == line_record(b[n - 1]));
    }
}

proof fn records_concat(a: Seq<Seq<char>>, b: Seq<Seq<char>>, n: int)
    requires
        0 <= n <= b.len(),
    ensures
        line_records(a + b, a.len() + n) == all_records(a) + line_records(b, n),
    decreases n,
{
    let c = a + b;
    if n == 0 {
        assert forall|i: int| 0 <= i < a.len() implies line_record(#[trigger] c[i]) == line_record(
            a[i],
        ) by {}
        records_prefix(c, a, a.len() as int);
        assert(line_records(c, a.len() + n) =~= all_records(a) + line_records(b, n));
    } else {
        records_concat(a, b, n - 1);
        assert(c[a.len() + n - 1] == b[n - 1]);
        assert(line_records(c, a.len() + n) =~= all_records(a) + line_records(b, n));
    }
}

/// From any position on, a line feed at the end of a text adds no record and takes none away.
proof fn line_feed_adds_no_record(a: Seq<char>, i: int)
    requires
        0 <= i <= a.len(),
    ensures
        all_records(text::lines_from(a.push('\n'), i)) == all_records(text::lines_from(a, i)),
    decreases a.len() - i,
{
    let c = a.push('\n');
    text::line_feed_bounds(a, i);
    text::line_feed_bounds(c, i);
    let e = text::line_feed(a, i);
    let d = text::line_feed(c, i);
    let none: Seq<Seq<char>> = Seq::empty();
    assert(d == e) by {
        if e < a.len() {
            assert(c[e] == '\n');
        } else {
            assert(c[a.len() as int] == '\n');
        }
        if d < e {
            assert(a[d] == c[d]);
        }
    }
    let head = text::line_between(c, i, e);
    assert(text::lines_from(c, i) == seq![head] + text::lines_from(c, e + 1));
    if e < a.len() {
        line_feed_adds_no_record(a, e + 1);
        assert(c.subrange(i, e) =~= a.subrange(i, e));
        if e > i {
            assert(c.subrange(i, e - 1) =~= a.subrange(i, e - 1));
            assert(c[e - 1] == a[e - 1]);
        }
        assert(head == text::line_between(a, i, e));
        records_concat(seq![head], text::lines_from(c, e + 1), text::lines_from(c, e + 1).len() as int);
        records_concat(seq![head], text::lines_from(a, e + 1), text::lines_from(a, e + 1).len() as int);
    } else {
        assert(text::lines_from(c, e + 1) =~= none);
        assert(text::lines_from(c, i) =~= seq![head]);
        if i < a.len() {
            let last = a.subrange(i, a.len() as int);
            assert(text::lines_from(a, i) =~= seq![last]);
            assert(c.subrange(i, e) =~= last);
            if c[e - 1] == '\r' {
                assert(c.subrange(i, e - 1).push('\r') =~= last);
                text::trimmed_without_return(c.subrange(i, e - 1));
            }
            assert(line_record(head) == line_record(last));
            records_prefix(seq![head], seq![last], 1);
        } else {
            assert(text::lines_from(a, i) =~= none);
            assert(head =~= Seq::<char>::empty());
            assert(text::trimmed(head) =~= head);
            assert(line_records(seq![head], 0) =~= Seq::<RecordV>::empty());
            assert(line_records(seq![head], 1) == line_records(seq![head], 0));
            assert(all_records(none) =~= Seq::<RecordV>::empty());
        }
    }
}

/// Two texts joined by a line break hold the records of the one and then those of the other,
/// however the first one ends.
pub proof fn joined_texts_hold_the_records_of_both(a: Seq<char>, b: Seq<char>)
    ensures
        all_records(text::lines_of(a + "\n"@ + b)) == all_records(text::lines_of(a)) + all_records(
            text::lines_of(b),
        ),
{
    reveal_strlit("\n");
    assert("\n"@ =~= seq!['\n']);
    let c = a.push('\n');
    assert(a + "\n"@ + b =~= c + b);
    text::lines_split(c, b);
    line_feed_adds_no_record(a, 0);
    records_concat(text::lines_of(c), text::lines_of(b), text::lines_of(b).len() as int);
}

/// Whether a text holds none of the characters that a match key is put together with.
pub open spec fn plain(s: Seq<char>) -> bool {
    !s.contains('\u{1E}') && !s.contains('\u{1F}')
}

/// Whether no participant's role, app or category holds one of them.
pub open spec fn all_plain(ps: Seq<ParticipantV>) -> bool {
    forall|i: int|
        0 <= i < ps.len() ==> plain((#[trigger] ps[i]).device_role) && plain(ps[i].app) && plain(
            ps[i].category,
        )
}

/// What a rule knows of a participant: its role, app and category.
#[verifier::ext_equal]
pub struct CastV {
    pub role: Seq<char>,
    pub app: Seq<char>,
    pub category: Seq<char>,
}

pub open spec fn cast_of(p: ParticipantV) -> CastV {
    CastV { role: p.device_role, app: p.app, category: p.category }
}

/// What a rule knows of the participants.
pub open spec fn casts(ps: Seq<ParticipantV>) -> Seq<CastV> {
    Seq::new(ps.len(), |i: int| cast_of(ps[i]))
}

/// One participant in a match key.
spec fn spelled(c: CastV) -> Seq<char> {
    c.role + UNIT_SEP@ + c.app + UNIT_SEP@ + c.category
}

spec fn plain_cast(c: CastV) -> bool {
    plain(c.role) && plain(c.app) && plain(c.category)
}

proof fn separators()
    ensures
        UNIT_SEP@ == seq!['\u{1F}'],
        RECORD_SEP@ == seq!['\u{1E}'],
{
    reveal_strlit("\u{1F}");
    reveal_strlit("\u{1E}");
    assert(UNIT_SEP@ =~= seq!['\u{1F}']);
    assert(RECORD_SEP@ =~= seq!['\u{1E}']);
}

/// What stands before the first separator, and what stands behind it.
proof fn split_at_first(a: Seq<char>, x: Seq<char>, b: Seq<char>, y: Seq<char>, sep: char)
    requires
        a + seq![sep] + x == b + seq![sep] + y,
        !a.contains(sep),
        !b.contains(sep),
    ensures
        a == b,
        x == y,
{
    let s = a + seq![sep] + x;
    let t = b + seq![sep] + y;
    if a.len() < b.len() {
        assert(s[a.len() as int] == sep);
        assert(t[a.len() as int] == b[a.len() as int]);
        assert(b.contains(b[a.len() as int]));
    }
    if b.len() < a.len() {
        assert(t[b.len() as int] == sep);
        assert(s[b.len() as int] == a[b.len() as int]);
        assert(a.contains(a[b.len() as int]));
    }
    assert(a =~= s.take(a.len() as int));
    assert(b =~= t.take(b.len() as int));
    assert(x =~= s.skip(a.len() as int + 1));
    assert(y =~= t.skip(b.len() as int + 1));
}

/// What stands behind the last separator, and what stands before it.
proof fn split_at_last(x: Seq<char>, a: Seq<char>, y: Seq<char>, b: Seq<char>, sep: char)
    requires
        x + seq![sep] + a == y + seq![sep] + b,
        !a.contains(sep),
        !b.contains(sep),
    ensures
        a == b,
        x == y,
{
    let s = x + seq![sep] + a;
    let t = y + seq![sep] + b;
    assert(s.len() == x.len() + 1 + a.len());
    assert(t.len() == y.len() + 1 + b.len());
    if x.len() < y.len() {
        assert(t[y.len() as int] == sep);
        let k = y.len() - x.len() - 1;
        assert(s[y.len() as int] == a[k]);
        assert(a.contains(a[k]));
    }
    if y.len() < x.len() {
        assert(s[x.len() as int] == sep);
        let k = x.len() - y.len() - 1;
        assert(t[x.len() as int] == b[k]);
        assert(b.contains(b[k]));
    }
    assert(x =~= s.take(x.len() as int));
    assert(y =~= t.take(y.len() as int));
    assert(a =~= s.skip(x.len() as int + 1));
    assert(b =~= t.skip(y.len() as int + 1));
}

proof fn spelling_is_unique(c: CastV, d: CastV)
    requires
        plain_cast(c),
        plain_cast(d),
        spelled(c) == spelled(d),
    ensures
        c == d,
{
    separators();
    let us = seq!['\u{1F}'];
    assert(spelled(c) =~= c.role + us + (c.app + us + c.category));
    assert(spelled(d) =~= d.role + us + (d.app + us + d.category));
    split_at_first(
        c.role,
        c.app + us + c.category,
        d.role,
        d.app + us + d.category,
        '\u{1F}',
    );
    split_at_first(c.app, c.category, d.app, d.category, '\u{1F}');
    assert(c =~= d);
}

/// A part of a match key is never empty and holds no record separator.
proof fn spelling_is_one_part(c: CastV)
    requires
        plain_cast(c),
    ensures
        spelled(c).len() > 0,
        !spelled(c).contains('\u{1E}'),
{
    separators();
    let s = spelled(c);
    let n = c.role.len() as int;
    let m = c.app.len() as int;
    assert forall|i: int| 0 <= i < s.len() implies s[i] != '\u{1E}' by {
        if i < n {
            assert(s[i] == c.role[i]);
            assert(c.role.contains(c.role[i]));
        } else if n < i && i < n + 1 + m {
            assert(s[i] == c.app[i - n - 1]);
            assert(c.app.contains(c.app[i - n - 1]));
        } else if i > n + 1 + m {
            assert(s[i] == c.category[i - n - m - 2]);
            assert(c.category.contains(c.category[i - n - m - 2]));
        }
    }
}

spec fn clean(parts: Seq<Seq<char>>) -> bool {
    forall|i: int|
        0 <= i < parts.len() ==> (#[trigger] parts[i]).len() > 0 && !parts[i].contains('\u{1E}')
}

proof fn joined_is_filled(parts: Seq<Seq<char>>, n: int)
    requires
        clean(parts),
        0 < n <= parts.len(),
    ensures
        joined(parts, RECORD_SEP@, n).len() > 0,
        n > 1 ==> joined(parts, RECORD_SEP@, n).contains('\u{1E}'),
    decreases n,
{
    separators();
    assert(parts[0].len() > 0);
    if n > 1 {
        joined_is_filled(parts, n - 1);
        let front = joined(parts, RECORD_SEP@, n - 1);
        let all = joined(parts, RECORD_SEP@, n);
        assert(all[front.len() as int] == '\u{1E}');
    }
}

/// Parts that hold no separator are told apart again.
proof fn joining_is_unique(a: Seq<Seq<char>>, b: Seq<Seq<char>>, n: int, m: int)
    requires
        clean(a),
        clean(b),
        0 <= n <= a.len(),
        0 <= m <= b.len(),
        joined(a, RECORD_SEP@, n) == joined(b, RECORD_SEP@, m),
    ensures
        n == m,
        a.take(n) == b.take(m),
    decreases n,
{
    separators();
    if n > 0 {
        joined_is_filled(a, n);
    }
    if m > 0 {
        joined_is_filled(b, m);
    }
    if n > 1 && m > 1 {
        assert(!a[n - 1].contains('\u{1E}'));
        assert(!b[m - 1].contains('\u{1E}'));
        split_at_last(
            joined(a, RECORD_SEP@, n - 1),
            a[n - 1],
            joined(b, RECORD_SEP@, m - 1),
            b[m - 1],
            '\u{1E}',
        );
        joining_is_unique(a, b, n - 1, m - 1);
        assert(a.take(n) =~= a.take(n - 1).push(a[n - 1]));
        assert(b.take(m) =~= b.take(m - 1).push(b[m - 1]));
    } else {
        if n == 1 {
            assert(!a[0].contains('\u{1E}'));
        }
        if m == 1 {
            assert(!b[0].contains('\u{1E}'));
        }
        assert(n == m);
        assert(a.take(n) =~= b.take(m));
    }
}

spec fn spellings(cs: Seq<CastV>) -> Seq<Seq<char>> {
    Seq::new(cs.len(), |i: int| spelled(cs[i]))
}

/// A cast occurs as often as its spelling does.
proof fn counted_by_spelling(cs: Seq<CastV>, c: CastV)
    requires
        forall|i: int| 0 <= i < cs.len() ==> plain_cast(#[trigger] cs[i]),
        plain_cast(c),
    ensures
        cs.to_multiset().count(c) == spellings(cs).to_multiset().count(spelled(c)),
    decreases cs.len(),
{
    broadcast use vstd::seq_lib::group_to_multiset_ensures;

    if cs.len() > 0 {
        let rest = cs.drop_last();
        let x = cs.last();
        assert forall|i: int| 0 <= i < rest.len() implies plain_cast(#[trigger] rest[i]) by {
            assert(rest[i] == cs[i]);
        }
        counted_by_spelling(rest, c);
        assert(cs =~= rest.push(x));
        assert(spellings(cs) =~= spellings(rest).push(spelled(x)));
        assert(plain_cast(cs[cs.len() - 1]));
        if spelled(x) == spelled(c) {
            spelling_is_unique(x, c);
        }
    } else {
        assert(cs.to_multiset().len() == 0);
        assert(spellings(cs).to_multiset().len() == 0);
    }
}

proof fn same_spellings(a: Seq<CastV>, b: Seq<CastV>)
    requires
        forall|i: int| 0 <= i < a.len() ==> plain_cast(#[trigger] a[i]),
        forall|i: int| 0 <= i < b.len() ==> plain_cast(#[trigger] b[i]),
        spellings(a).to_multiset() == spellings(b).to_multiset(),
    ensures
        a.to_multiset() == b.to_multiset(),
{
    broadcast use vstd::seq_lib::group_to_multiset_ensures;

    assert forall|c: CastV| #[trigger] a.to_multiset().count(c) == b.to_multiset().count(c) by {
        if plain_cast(c) {
            counted_by_spelling(a, c);
            counted_by_spelling(b, c);
        } else {
            if a.contains(c) {
                let i = choose|i: int| 0 <= i < a.len() && a[i] == c;
                assert(plain_cast(a[i]));
            }
            if b.contains(c) {
                let i = choose|i: int| 0 <= i < b.len() && b[i] == c;
                assert(plain_cast(b[i]));
            }
        }
    }
    assert(a.to_multiset() =~= b.to_multiset());
}

spec fn spelled_piece() -> spec_fn(CastV) -> Seq<Seq<char>> {
    |c: CastV| seq![spelled(c)]
}

proof fn spellings_flat(cs: Seq<CastV>, n: int)
    requires
        0 <= n <= cs.len(),
    ensures
        flat(cs, spelled_piece(), n) == spellings(cs).take(n),
    decreases n,
{
    if n > 0 {
        spellings_flat(cs, n - 1);
        assert(flat(cs, spelled_piece(), n) =~= spellings(cs).take(n));
    } else {
        assert(flat(cs, spelled_piece(), n) =~= spellings(cs).take(n));
    }
}

proof fn clean_parts(ps: Seq<ParticipantV>)
    requires
        all_plain(ps),
    ensures
        parts_of(ps) == spellings(casts(ps)),
        forall|i: int| 0 <= i < ps.len() ==> plain_cast(#[trigger] casts(ps)[i]),
        clean(arranged::<String>(parts_of(ps))),
{
    let parts = parts_of(ps);
    assert forall|i: int| 0 <= i < ps.len() implies plain_cast(#[trigger] casts(ps)[i])
        && #[trigger] parts[i] == spelled(casts(ps)[i]) by {
        assert(plain(ps[i].device_role));
    }
    assert(parts =~= spellings(casts(ps)));
    let sorted = arranged::<String>(parts);
    assert forall|i: int| 0 <= i < sorted.len() implies (#[trigger] sorted[i]).len() > 0
        && !sorted[i].contains('\u{1E}') by {
        arranged_contains::<String>(parts, sorted[i]);
        assert(sorted.contains(sorted[i]));
        let k = choose|k: int| 0 <= k < parts.len() && parts[k] == sorted[i];
        assert(plain_cast(casts(ps)[k]));
        spelling_is_one_part(casts(ps)[k]);
    }
}

/// Two casts have the same match key just where they have the same roles, apps and categories, each
/// as often, as long as none of these holds a separator. Neither the order of the participants nor
/// their uuids matter.
pub proof fn a_match_key_names_its_cast(a: Seq<ParticipantV>, b: Seq<ParticipantV>)
    requires
        all_plain(a),
        all_plain(b),
    ensures
        key_of(a) == key_of(b) <==> casts(a).to_multiset() == casts(b).to_multiset(),
{
    clean_parts(a);
    clean_parts(b);
    let x = arranged::<String>(parts_of(a));
    let y = arranged::<String>(parts_of(b));
    if key_of(a) == key_of(b) {
        joining_is_unique(x, y, x.len() as int, y.len() as int);
        assert(x.take(x.len() as int) =~= x);
        assert(y.take(y.len() as int) =~= y);
        arranged_keeps::<String>(parts_of(a));
        arranged_keeps::<String>(parts_of(b));
        assert forall|i: int| 0 <= i < casts(a).len() implies plain_cast(
            #[trigger] casts(a)[i],
        ) by {}
        same_spellings(casts(a), casts(b));
    }
    if casts(a).to_multiset() == casts(b).to_multiset() {
        let c = casts(a);
        let d = casts(b);
        flat_permutes(c, d, spelled_piece());
        spellings_flat(c, c.len() as int);
        spellings_flat(d, d.len() as int);
        assert(spellings(c).take(c.len() as int) =~= spellings(c));
        assert(spellings(d).take(d.len() as int) =~= spellings(d));
        match_key_ignores_order_and_uuids(a, b);
    }
}

/// The same roles, apps and categories, each as often, have the same match key.
pub proof fn the_same_cast_has_the_same_key(a: Seq<ParticipantV>, b: Seq<ParticipantV>)
    requires
        casts(a).to_multiset() == casts(b).to_multiset(),
    ensures
        key_of(a) == key_of(b),
{
    let c = casts(a);
    let d = casts(b);
    flat_permutes(c, d, spelled_piece());
    spellings_flat(c, c.len() as int);
    spellings_flat(d, d.len() as int);
    assert(spellings(c).take(c.len() as int) =~= spellings(c));
    assert(spellings(d).take(d.len() as int) =~= spellings(d));
    assert(parts_of(a) =~= spellings(c));
    assert(parts_of(b) =~= spellings(d));
    match_key_ignores_order_and_uuids(a, b);
}

} // verus!
