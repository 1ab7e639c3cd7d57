//! Which patterns are sound.

use vstd::prelude::*;

use crate::pattern::{
    captured, digits_end, is_open, number, scan, scan_start, skipped, sound_pattern, step, ScanV,
    Step, MOST,
};
use crate::text;

verus! {

/// Whether a character of a pattern neither escapes, nor opens or closes a group, a class or a count.
pub open spec fn plain(c: char) -> bool {
    c != '\\' && c != '(' && c != ')' && c != '[' && c != '{'
}

/// Reading plain characters goes on behind them with the groups as they were.
proof fn plain_on(p: Seq<char>, i: int, m: int, s: ScanV) -> (t: ScanV)
    requires
        0 <= i <= m <= p.len(),
        !s.spaced,
        forall|k: int| i <= k < m ==> plain(#[trigger] p[k]),
        s.before + s.last + (m - i) <= MOST,
    ensures
        scan(p, i, s) == scan(p, m, t),
        t.open == s.open,
        t.count == s.count,
        t.names == s.names,
        !t.spaced,
        t.before + t.last <= s.before + s.last + (m - i),
    decreases m - i,
{
    if i < m {
        assert(plain(p[i]));
        assert(skipped(p, i, false) == i);
        let next = step(p, i, s)->At_1;
        assert(step(p, i, s) == Step::At(i + 1, next));
        plain_on(p, i + 1, m, next)
    } else {
        s
    }
}

/// A pattern without escapes, groups, classes and counts is sound, unless it is too long.
pub proof fn a_plain_pattern_is_sound(p: Seq<char>)
    requires
        forall|k: int| 0 <= k < p.len() ==> plain(#[trigger] p[k]),
    ensures
        sound_pattern(p) <==> p.len() <= 1_000_000,
{
    if p.len() <= MOST {
        let t = plain_on(p, 0, p.len() as int, scan_start());
        assert(skipped(p, p.len() as int, false) == p.len());
    }
}

/// A pattern is not sound that refers back to its first group from inside that group, whatever plain
/// text stands before and in the group and whatever follows.
pub proof fn a_group_does_not_refer_to_itself(pre: Seq<char>, mid: Seq<char>, rest: Seq<char>)
    requires
        forall|k: int| 0 <= k < pre.len() ==> plain(#[trigger] pre[k]),
        forall|k: int| 0 <= k < mid.len() ==> plain(#[trigger] mid[k]),
        mid.len() > 0 ==> mid[0] != '?',
        rest.len() > 0 ==> !text::digit(rest[0]),
    ensures
        !sound_pattern(pre + seq!['('] + mid + seq!['\\', '1'] + rest),
{
    let p = pre + seq!['('] + mid + seq!['\\', '1'] + rest;
    if p.len() <= MOST {
        let a = pre.len() as int;
        let b = a + 1 + mid.len();
        assert forall|k: int| 0 <= k < a implies plain(#[trigger] p[k]) by {
            assert(p[k] == pre[k]);
        }
        assert forall|k: int| a + 1 <= k < b implies plain(#[trigger] p[k]) by {
            assert(p[k] == mid[k - a - 1]);
        }
        assert(p[a] == '(');
        assert(p[b] == '\\');
        assert(p[b + 1] == '1');
        let t = plain_on(p, 0, a, scan_start());
        assert(p[a + 1] == if mid.len() > 0 {
            mid[0]
        } else {
            '\\'
        });
        assert(skipped(p, a, false) == a);
        assert(skipped(p, a + 1, false) == a + 1);
        let inside = captured(t);
        assert(step(p, a, t) == Step::At(a + 1, inside));
        assert(scan(p, a, t) == scan(p, a + 1, inside));
        let u = plain_on(p, a + 1, b, inside);
        assert(u.open[u.open.len() - 1].0 == 1);
        assert(is_open(u, 1));
        if rest.len() > 0 {
            assert(p[b + 2] == rest[0]);
        }
        reveal_with_fuel(digits_end, 3);
        reveal_with_fuel(number, 3);
        assert(digits_end(p, b + 1) == b + 2);
        assert(number(p, b + 1, b + 2) == 1);
        assert(skipped(p, b, false) == b);
        assert(step(p, b, u) == Step::Answer(false));
    }
}

} // verus!
