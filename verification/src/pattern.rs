//! Which patterns can be searched for with an answer in every case.
//!
//! The search that the rules use keeps two kinds of pattern from an answer. A reference back to a
//! group from inside that group may read a group that has begun again and not ended. And a repeat
//! may ask for more rounds, or for a longer text, than can be counted. A pattern is sound where a
//! scan over its text finds neither. The scan follows the grammar of the patterns: escapes, classes,
//! groups, repeats, flags and comments. A pattern that does not parse is sound as far as it was
//! read, for it is refused before it is ever searched for.

use vstd::prelude::*;

use crate::text::{characters, digit};

verus! {

/// The greatest number of characters that a sound pattern has, and that it asks a text for at least.
pub const MOST: u64 = 1_000_000;

/// Where the digits that begin at `i` end.
pub open spec fn digits_end(p: Seq<char>, i: int) -> int
    decreases p.len() - i,
{
    if 0 <= i < p.len() && digit(p[i]) {
        digits_end(p, i + 1)
    } else {
        i
    }
}

/// The number that the digits from `a` up to `e` write; past `MOST` they all count as one more.
pub open spec fn number(p: Seq<char>, a: int, e: int) -> int
    decreases e - a,
{
    if e <= a {
        0
    } else {
        capped(number(p, a, e - 1) * 10 + (p[e - 1] as u32 - '0' as u32))
    }
}

/// A size, no greater than one past `MOST`.
pub open spec fn capped(n: int) -> int {
    if n > MOST {
        MOST + 1
    } else {
        n
    }
}

/// The first `c` from `i` on; the end of the pattern where there is none.
pub open spec fn first_at(p: Seq<char>, i: int, c: char) -> int
    decreases p.len() - i,
{
    if i < 0 || i >= p.len() {
        p.len() as int
    } else if p[i] == c {
        i
    } else {
        first_at(p, i + 1, c)
    }
}

/// Where an escape at `i` ends that is no reference back. A character number or a property may have
/// its name in braces.
pub open spec fn escape_end(p: Seq<char>, i: int) -> int {
    let braced = i + 2 < p.len() && p[i + 2] == '{';
    let end = if i + 1 >= p.len() {
        i + 1
    } else if braced && (p[i + 1] == 'p' || p[i + 1] == 'P' || p[i + 1] == 'x' || p[i + 1] == 'u'
        || p[i + 1] == 'U') {
        first_at(p, i + 3, '}') + 1
    } else if p[i + 1] == 'p' || p[i + 1] == 'P' {
        i + 3
    } else {
        i + 2
    };
    if end < p.len() {
        end
    } else {
        p.len() as int
    }
}

/// Where the members of a class begin that is opened at `i`: behind a negation, and behind a
/// closing bracket that stands first and is itself a member.
pub open spec fn class_start(p: Seq<char>, i: int) -> int {
    let j = if i + 1 < p.len() && p[i + 1] == '^' {
        i + 2
    } else {
        i + 1
    };
    if j < p.len() && p[j] == ']' {
        j + 1
    } else {
        j
    }
}

/// Where a class ends of which `depth` brackets are open at `i`.
pub open spec fn class_end(p: Seq<char>, i: int, depth: int) -> int
    decreases p.len() - i,
{
    if i < 0 || i >= p.len() {
        p.len() as int
    } else if p[i] == '\\' {
        if i < escape_end(p, i) <= p.len() {
            class_end(p, escape_end(p, i), depth)
        } else {
            p.len() as int
        }
    } else if p[i] == '[' {
        class_end(p, i + 1, depth + 1)
    } else if p[i] == ']' {
        if depth <= 1 {
            i + 1
        } else {
            class_end(p, i + 1, depth - 1)
        }
    } else {
        class_end(p, i + 1, depth)
    }
}

/// Where a comment ends whose text begins at `i`.
pub open spec fn comment_end(p: Seq<char>, i: int) -> int
    decreases p.len() - i,
{
    if i < 0 || i >= p.len() {
        p.len() as int
    } else if p[i] == ')' {
        i + 1
    } else if p[i] == '\\' && i + 1 < p.len() {
        comment_end(p, i + 2)
    } else {
        comment_end(p, i + 1)
    }
}

/// Where reading goes on behind the comments that begin at `i` and, in a spaced pattern, behind the
/// space and the remarks there, which run from a number sign to the end of the line.
pub open spec fn skipped(p: Seq<char>, i: int, spaced: bool) -> int
    decreases p.len() - i,
{
    if i < 0 || i >= p.len() {
        p.len() as int
    } else if spaced && p[i] == '#' {
        let e = first_at(p, i, '\n');
        if i <= e < p.len() {
            skipped(p, e + 1, spaced)
        } else {
            p.len() as int
        }
    } else if spaced && (p[i] == ' ' || p[i] == '\r' || p[i] == '\n' || p[i] == '\t') {
        skipped(p, i + 1, spaced)
    } else if i + 2 < p.len() && p[i] == '(' && p[i + 1] == '?' && p[i + 2] == '#' {
        let e = comment_end(p, i + 3);
        if i < e <= p.len() {
            skipped(p, e, spaced)
        } else {
            p.len() as int
        }
    } else {
        i
    }
}

/// Where the flags end that begin at `i`, and whether the pattern is spaced behind them. A minus
/// sign turns off those that follow.
pub open spec fn flags_end(p: Seq<char>, i: int, off: bool, spaced: bool) -> (int, bool)
    decreases p.len() - i,
{
    let j = skipped(p, i, spaced);
    if j < i || j >= p.len() {
        (p.len() as int, spaced)
    } else if p[j] == 'i' || p[j] == 'm' || p[j] == 's' || p[j] == 'u' || p[j] == 'U' {
        flags_end(p, j + 1, off, spaced)
    } else if p[j] == 'x' {
        flags_end(p, j + 1, off, !off)
    } else if p[j] == '-' {
        flags_end(p, j + 1, true, spaced)
    } else {
        (j, spaced)
    }
}

/// How far a pattern has been read.
#[verifier::ext_equal]
pub struct ScanV {
    /// The groups that are open: the number of each, 0 where it captures nothing, the size of what
    /// stands before it in the group around it, and, where it has flags of its own, whether the
    /// pattern is spaced behind it.
    pub open: Seq<(int, int, Option<bool>)>,
    /// The size of the innermost open group so far, without its last item.
    pub before: int,
    /// The size of its last item.
    pub last: int,
    /// How many capturing groups have been opened.
    pub count: int,
    /// The groups that have a name: where the name begins and ends, and the group's number.
    pub names: Seq<(int, int, int)>,
    /// Whether space and remarks between the parts of the pattern say nothing.
    pub spaced: bool,
}

/// Nothing has been read.
pub open spec fn scan_start() -> ScanV {
    ScanV { open: Seq::empty(), before: 0, last: 0, count: 0, names: Seq::empty(), spaced: false }
}

/// One more item, of one character at most.
pub open spec fn item(s: ScanV) -> ScanV {
    ScanV { before: s.before + s.last, last: 1, ..s }
}

/// A group is opened.
pub open spec fn entered(s: ScanV, group: int, behind: Option<bool>) -> ScanV {
    ScanV { open: s.open.push((group, s.before + s.last, behind)), before: 0, last: 0, ..s }
}

/// A capturing group is opened.
pub open spec fn captured(s: ScanV) -> ScanV {
    entered(ScanV { count: s.count + 1, ..s }, s.count + 1, None)
}

/// The innermost group is closed and is the last item of the one around it.
pub open spec fn left(s: ScanV) -> ScanV {
    let size = s.before + s.last;
    ScanV {
        open: s.open.drop_last(),
        before: s.open.last().1,
        last: if size > 1 {
            size
        } else {
            1
        },
        spaced: match s.open.last().2 {
            Some(b) => b,
            None => s.spaced,
        },
        ..s
    }
}

/// The last item is repeated at least `n` times, as the next `width` characters say; those count
/// too, for what is no proper repeat is a text of its own.
pub open spec fn repeated(s: ScanV, n: int, width: int) -> ScanV {
    ScanV {
        before: s.before + width,
        last: if n > 1 {
            s.last * n
        } else {
            s.last
        },
        ..s
    }
}

/// Whether the capturing group `g` is open.
pub open spec fn is_open(s: ScanV, g: int) -> bool {
    g > 0 && exists|k: int| 0 <= k < s.open.len() && (#[trigger] s.open[k]).0 == g
}

/// The group that was last given the name from `a` up to `e`, among the first `n` names.
pub open spec fn named(
    p: Seq<char>,
    names: Seq<(int, int, int)>,
    n: int,
    a: int,
    e: int,
) -> Option<int>
    decreases n,
{
    if n <= 0 {
        None
    } else if p.subrange(names[n - 1].0, names[n - 1].1) == p.subrange(a, e) {
        Some(names[n - 1].2)
    } else {
        named(p, names, n - 1, a, e)
    }
}

/// Whether the group that the text from `a` up to `e` names can be referred back to: by its name,
/// by its number, or by counting back from the last group opened.
pub open spec fn referable(p: Seq<char>, s: ScanV, a: int, e: int) -> bool {
    match named(p, s.names, s.names.len() as int, a, e) {
        Some(g) => !is_open(s, g),
        None => if digits_end(p, a) == e {
            number(p, a, e) <= s.count && !is_open(s, number(p, a, e))
        } else if p[a] == '-' && digits_end(p, a + 1) == e {
            !is_open(s, s.count - number(p, a + 1, e) + 1)
        } else {
            true
        },
    }
}

/// What follows from reading on at some place.
pub enum Step {
    /// The pattern is sound, or is not, whatever follows.
    Answer(bool),
    /// Reading goes on at this place.
    At(int, ScanV),
}

/// A reference back to the group named from `a` up to the closing `c`.
pub open spec fn reference_step(p: Seq<char>, s: ScanV, a: int, c: char) -> Step {
    let e = first_at(p, a, c);
    if e >= p.len() {
        Step::Answer(true)
    } else if referable(p, s, a, e) {
        Step::At(e + 1, item(s))
    } else {
        Step::Answer(false)
    }
}

/// Reading an escape.
pub open spec fn escape_step(p: Seq<char>, i: int, s: ScanV) -> Step {
    if i + 1 < p.len() && digit(p[i + 1]) {
        let e = digits_end(p, i + 1);
        if is_open(s, number(p, i + 1, e)) {
            Step::Answer(false)
        } else {
            Step::At(e, item(s))
        }
    } else if i + 1 < p.len() && p[i + 1] == 'k' {
        if i + 2 < p.len() && p[i + 2] == '\'' {
            reference_step(p, s, i + 3, '\'')
        } else if i + 2 < p.len() && p[i + 2] == '<' {
            reference_step(p, s, i + 3, '>')
        } else {
            Step::Answer(true)
        }
    } else {
        Step::At(escape_end(p, i), item(s))
    }
}

/// A capturing group whose name begins at `a`.
pub open spec fn name_step(p: Seq<char>, s: ScanV, a: int) -> Step {
    let e = first_at(p, a, '>');
    if e >= p.len() {
        Step::Answer(true)
    } else {
        let t = captured(s);
        Step::At(e + 1, ScanV { names: t.names.push((a, e, t.count)), ..t })
    }
}

/// Reading what opens a group.
pub open spec fn group_step(p: Seq<char>, i: int, s: ScanV) -> Step {
    let j = skipped(p, i + 1, s.spaced);
    if !(j < p.len() && p[j] == '?') {
        Step::At(i + 1, captured(s))
    } else if j + 1 >= p.len() {
        Step::Answer(true)
    } else {
        let c = p[j + 1];
        let d = if j + 2 < p.len() {
            p[j + 2]
        } else {
            ' '
        };
        if c == '=' || c == '!' || c == '>' {
            Step::At(j + 2, entered(s, 0, None))
        } else if c == '(' {
            // A condition, in a group of its own.
            Step::At(j + 2, entered(entered(s, 0, None), 0, None))
        } else if c == '<' {
            if d == '=' || d == '!' {
                Step::At(j + 3, entered(s, 0, None))
            } else {
                name_step(p, s, j + 2)
            }
        } else if c == 'P' && d == '<' {
            name_step(p, s, j + 3)
        } else if c == 'P' && d == '=' {
            reference_step(p, s, j + 3, ')')
        } else {
            let (e, spaced) = flags_end(p, j + 1, false, s.spaced);
            if e >= p.len() {
                Step::Answer(true)
            } else if p[e] == ')' {
                Step::At(e + 1, ScanV { spaced, ..item(s) })
            } else if p[e] == ':' {
                Step::At(e + 1, ScanV { spaced, ..entered(s, 0, Some(s.spaced)) })
            } else {
                Step::Answer(true)
            }
        }
    }
}

/// Reading on at `i`.
pub open spec fn step(p: Seq<char>, i: int, s: ScanV) -> Step {
    let c = p[i];
    if c == '\\' {
        escape_step(p, i, s)
    } else if c == '[' {
        Step::At(class_end(p, class_start(p, i), 1), item(s))
    } else if c == '(' {
        group_step(p, i, s)
    } else if c == ')' {
        if s.open.len() == 0 {
            Step::Answer(true)
        } else {
            Step::At(i + 1, left(s))
        }
    } else if c == '{' {
        let a = skipped(p, i + 1, s.spaced);
        let e = digits_end(p, a);
        Step::At(e, repeated(s, number(p, a, e), e - i))
    } else if c == '*' || c == '+' || c == '?' {
        Step::At(i + 1, s)
    } else {
        Step::At(i + 1, item(s))
    }
}

/// Whether a pattern is sound from `i` on.
pub open spec fn scan(p: Seq<char>, i: int, s: ScanV) -> bool
    decreases p.len() - i,
{
    let j = skipped(p, i, s.spaced);
    if s.before + s.last > MOST {
        false
    } else if j < i || j >= p.len() {
        true
    } else {
        match step(p, j, s) {
            Step::Answer(b) => b,
            Step::At(k, t) => j < k <= p.len() && scan(p, k, t),
        }
    }
}

/// Whether a pattern is sound: it refers back to no group from inside that group, and neither it nor
/// what it asks for is longer than `MOST`.
pub open spec fn sound_pattern(p: Seq<char>) -> bool {
    p.len() <= MOST && scan(p, 0, scan_start())
}

fn is_digit(c: char) -> (r: bool)
    ensures
        r == digit(c),
{
    '0' <= c && c <= '9'
}

/// Where the digits that begin at `i` end, and the number that they write.
fn read_number(p: &Vec<char>, i: usize) -> (r: (usize, u64))
    requires
        i <= p.len(),
    ensures
        i <= r.0 <= p.len(),
        r.0 == digits_end(p@, i as int),
        r.1 == number(p@, i as int, r.0 as int),
        r.1 <= MOST + 1,
{
    let mut e: usize = i;
    let mut n: u64 = 0;
    while e < p.len() && is_digit(p[e])
        invariant
            i <= e <= p.len(),
            digits_end(p@, i as int) == digits_end(p@, e as int),
            n == number(p@, i as int, e as int),
            n <= MOST + 1,
        decreases p.len() - e,
    {
        n = n * 10 + (p[e] as u64 - '0' as u64);
        if n > MOST {
            n = MOST + 1;
        }
        e = e + 1;
    }
    (e, n)
}

fn find_char(p: &Vec<char>, i: usize, c: char) -> (r: usize)
    ensures
        r == first_at(p@, i as int, c),
        r <= p.len(),
        i <= p.len() ==> i <= r,
{
    let mut j: usize = i;
    while j < p.len()
        invariant
            i <= j,
            i <= p.len() ==> j <= p.len(),
            first_at(p@, i as int, c) == first_at(p@, j as int, c),
        decreases p.len() - j,
    {
        if p[j] == c {
            return j;
        }
        j = j + 1;
    }
    p.len()
}

fn end_of_escape(p: &Vec<char>, i: usize) -> (r: usize)
    requires
        i < p.len() <= MOST,
    ensures
        r == escape_end(p@, i as int),
        i < r <= p.len(),
{
    if i + 1 >= p.len() {
        return p.len();
    }
    let c: char = p[i + 1];
    let braced: bool = i + 2 < p.len() && p[i + 2] == '{';
    let end: usize = if braced && (c == 'p' || c == 'P' || c == 'x' || c == 'u' || c == 'U') {
        find_char(p, i + 3, '}') + 1
    } else if c == 'p' || c == 'P' {
        i + 3
    } else {
        i + 2
    };
    if end < p.len() {
        end
    } else {
        p.len()
    }
}

fn end_of_class(p: &Vec<char>, i: usize) -> (r: usize)
    requires
        i < p.len() <= MOST,
    ensures
        r == class_end(p@, class_start(p@, i as int), 1),
        i < r <= p.len(),
{
    let mut j: usize = i + 1;
    if j < p.len() && p[j] == '^' {
        j = j + 1;
    }
    if j < p.len() && p[j] == ']' {
        j = j + 1;
    }
    let mut depth: usize = 1;
    while j < p.len()
        invariant
            i < j <= p.len(),
            p.len() <= MOST,
            1 <= depth <= j,
            class_end(p@, class_start(p@, i as int), 1) == class_end(p@, j as int, depth as int),
        decreases p.len() - j,
    {
        let c: char = p[j];
        if c == '\\' {
            j = end_of_escape(p, j);
        } else if c == '[' {
            depth = depth + 1;
            j = j + 1;
        } else if c == ']' {
            if depth == 1 {
                return j + 1;
            }
            depth = depth - 1;
            j = j + 1;
        } else {
            j = j + 1;
        }
    }
    p.len()
}

fn end_of_comment(p: &Vec<char>, i: usize) -> (r: usize)
    requires
        i <= p.len(),
    ensures
        r == comment_end(p@, i as int),
        i <= r <= p.len(),
{
    let mut j: usize = i;
    while j < p.len()
        invariant
            i <= j <= p.len(),
            comment_end(p@, i as int) == comment_end(p@, j as int),
        decreases p.len() - j,
    {
        if p[j] == ')' {
            return j + 1;
        }
        if p[j] == '\\' && p.len() - j > 1 {
            j = j + 2;
        } else {
            j = j + 1;
        }
    }
    p.len()
}

/// Where reading goes on behind what says nothing.
fn skip(p: &Vec<char>, i: usize, spaced: bool) -> (r: usize)
    requires
        i <= p.len() <= MOST,
    ensures
        r == skipped(p@, i as int, spaced),
        i <= r <= p.len(),
{
    let mut j: usize = i;
    while j < p.len()
        invariant
            i <= j <= p.len() <= MOST,
            skipped(p@, i as int, spaced) == skipped(p@, j as int, spaced),
        decreases p.len() - j,
    {
        let c: char = p[j];
        if spaced && c == '#' {
            let e: usize = find_char(p, j, '\n');
            if e >= p.len() {
                return p.len();
            }
            j = e + 1;
        } else if spaced && (c == ' ' || c == '\r' || c == '\n' || c == '\t') {
            j = j + 1;
        } else if j + 2 < p.len() && c == '(' && p[j + 1] == '?' && p[j + 2] == '#' {
            j = end_of_comment(p, j + 3);
        } else {
            return j;
        }
    }
    p.len()
}

fn end_of_flags(p: &Vec<char>, i: usize, given: bool) -> (r: (usize, bool))
    requires
        i <= p.len() <= MOST,
    ensures
        (r.0 as int, r.1) == flags_end(p@, i as int, false, given),
        i <= r.0 <= p.len(),
{
    let mut off: bool = false;
    let mut spaced: bool = given;
    let mut e: usize = i;
    loop
        invariant
            i <= e <= p.len() <= MOST,
            flags_end(p@, i as int, false, given) == flags_end(p@, e as int, off, spaced),
        decreases p.len() - e,
    {
        let j: usize = skip(p, e, spaced);
        if j >= p.len() {
            return (p.len(), spaced);
        }
        let c: char = p[j];
        if c == 'i' || c == 'm' || c == 's' || c == 'u' || c == 'U' {
        } else if c == 'x' {
            spaced = !off;
        } else if c == '-' {
            off = true;
        } else {
            return (j, spaced);
        }
        e = j + 1;
    }
}

/// Whether two stretches of a pattern hold the same characters.
fn same_stretch(p: &Vec<char>, a: usize, b: usize, c: usize, d: usize) -> (r: bool)
    requires
        a <= b <= p.len(),
        c <= d <= p.len(),
    ensures
        r == (p@.subrange(a as int, b as int) == p@.subrange(c as int, d as int)),
{
    let ghost x = p@.subrange(a as int, b as int);
    let ghost y = p@.subrange(c as int, d as int);
    if b - a != d - c {
        assert(x.len() != y.len());
        return false;
    }
    let mut k: usize = 0;
    while k < b - a
        invariant
            a <= b <= p.len(),
            c <= d <= p.len(),
            b - a == d - c,
            k <= b - a,
            x == p@.subrange(a as int, b as int),
            y == p@.subrange(c as int, d as int),
            forall|m: int| 0 <= m < k ==> x[m] == y[m],
        decreases b - a - k,
    {
        if p[a + k] != p[c + k] {
            assert(x[k as int] != y[k as int]);
            return false;
        }
        k = k + 1;
    }
    assert(x =~= y);
    true
}

/// How far a pattern has been read.
struct Scan {
    open: Vec<(usize, u64, Option<bool>)>,
    before: u64,
    last: u64,
    count: usize,
    names: Vec<(usize, usize, usize)>,
    spaced: bool,
}

impl View for Scan {
    type V = ScanV;

    closed spec fn view(&self) -> ScanV {
        ScanV {
            open: Seq::new(
                self.open.len() as nat,
                |k: int| (self.open[k].0 as int, self.open[k].1 as int, self.open[k].2),
            ),
            before: self.before as int,
            last: self.last as int,
            count: self.count as int,
            names: Seq::new(
                self.names.len() as nat,
                |k: int|
                    (self.names[k].0 as int, self.names[k].1 as int, self.names[k].2 as int),
            ),
            spaced: self.spaced,
        }
    }
}

/// What reading on comes to.
enum Reading {
    Answer(bool),
    At(usize),
}

impl Scan {
    /// What every reading up to `i` keeps.
    spec fn roomy(&self, p: Seq<char>, i: int) -> bool {
        &&& self.before <= 2 * MOST
        &&& self.last <= MOST * (MOST + 1)
        &&& self.lists_fit(p, i)
    }

    /// What every reading up to `i` keeps that has not grown too large.
    spec fn fits(&self, p: Seq<char>, i: int) -> bool {
        self.before + self.last <= MOST && self.lists_fit(p, i)
    }

    spec fn lists_fit(&self, p: Seq<char>, i: int) -> bool {
        &&& self.count <= i
        &&& forall|k: int| 0 <= k < self.open.len() ==> (#[trigger] self.open[k]).1 <= MOST
        &&& forall|k: int|
            0 <= k < self.names.len() ==> (#[trigger] self.names[k]).0 <= self.names[k].1 <= p.len()
    }

    fn add_item(&mut self)
        requires
            old(self).before + old(self).last <= MOST,
        ensures
            final(self)@ == item(old(self)@),
            forall|p: Seq<char>, i: int| #[trigger]
                old(self).fits(p, i) ==> final(self).roomy(p, i),
    {
        self.before = self.before + self.last;
        self.last = 1;
        assert(self@ =~= item(old(self)@));
    }

    fn enter(&mut self, group: usize, behind: Option<bool>)
        requires
            old(self).before + old(self).last <= MOST,
        ensures
            final(self)@ == entered(old(self)@, group as int, behind),
            final(self).count == old(self).count,
            forall|p: Seq<char>, i: int| #[trigger] old(self).fits(p, i) ==> final(self).fits(p, i),
            final(self).before + final(self).last <= MOST,
    {
        self.open.push((group, self.before + self.last, behind));
        self.before = 0;
        self.last = 0;
        assert(self@ =~= entered(old(self)@, group as int, behind));
    }

    fn capture(&mut self)
        requires
            old(self).before + old(self).last <= MOST,
            old(self).count <= MOST,
        ensures
            final(self)@ == captured(old(self)@),
            final(self).count == old(self).count + 1,
            forall|p: Seq<char>, i: int| #[trigger]
                old(self).fits(p, i) ==> final(self).fits(p, i + 1),
    {
        let ghost before = *self;
        self.count = self.count + 1;
        assert(self@ =~= (ScanV { count: before@.count + 1, ..before@ }));
        let ghost counted = *self;
        let group: usize = self.count;
        self.enter(group, None);
        assert forall|p: Seq<char>, i: int| #[trigger] before.fits(p, i) implies self.fits(
            p,
            i + 1,
        ) by {
            assert(counted.fits(p, i + 1));
        }
    }

    /// Whether the capturing group `g` is open.
    fn holds_open(&self, g: usize) -> (r: bool)
        ensures
            r == is_open(self@, g as int),
    {
        if g == 0 {
            return false;
        }
        let mut k: usize = 0;
        while k < self.open.len()
            invariant
                g > 0,
                k <= self.open.len(),
                forall|m: int| 0 <= m < k ==> (#[trigger] self@.open[m]).0 != g,
            decreases self.open.len() - k,
        {
            assert(self@.open[k as int].0 == self.open[k as int].0);
            if self.open[k].0 == g {
                assert(is_open(self@, g as int));
                return true;
            }
            k = k + 1;
        }
        false
    }

    /// Whether what the text from `a` up to `e` names can be referred back to.
    fn can_refer(&self, p: &Vec<char>, a: usize, e: usize) -> (r: bool)
        requires
            a <= e < p.len() <= MOST,
            exists|i: int| i <= MOST && #[trigger] self.fits(p@, i),
        ensures
            r == referable(p@, self@, a as int, e as int),
    {
        let mut n: usize = self.names.len();
        while n > 0
            invariant
                a <= e < p.len(),
                n <= self.names.len(),
                exists|i: int| #[trigger] self.fits(p@, i),
                named(p@, self@.names, self.names.len() as int, a as int, e as int) == named(
                    p@,
                    self@.names,
                    n as int,
                    a as int,
                    e as int,
                ),
            decreases n,
        {
            let name = self.names[n - 1];
            assert(self@.names[n - 1] == (name.0 as int, name.1 as int, name.2 as int));
            if same_stretch(p, name.0, name.1, a, e) {
                return !self.holds_open(name.2);
            }
            n = n - 1;
        }
        let (end, g) = read_number(p, a);
        if end == e {
            return g <= self.count as u64 && !self.holds_open(g as usize);
        }
        if p[a] == '-' {
            let (end, back) = read_number(p, a + 1);
            if end == e {
                let sum: u64 = self.count as u64 + 1;
                if back >= sum {
                    return true;
                }
                return !self.holds_open((sum - back) as usize);
            }
        }
        true
    }

    /// Read a reference back to the group named from `a` up to the closing `c`.
    fn read_reference(&mut self, p: &Vec<char>, a: usize, c: char, Ghost(i): Ghost<int>) -> (r:
        Reading)
        requires
            a <= p.len() <= MOST,
            i <= a,
            old(self).fits(p@, i),
            old(self).before + old(self).last <= MOST,
        ensures
            reads(r, *final(self), p@, i, reference_step(p@, old(self)@, a as int, c)),
    {
        let e: usize = find_char(p, a, c);
        if e >= p.len() {
            Reading::Answer(true)
        } else if self.can_refer(p, a, e) {
            self.add_item();
            Reading::At(e + 1)
        } else {
            Reading::Answer(false)
        }
    }

    /// Read an escape.
    fn read_escape(&mut self, p: &Vec<char>, i: usize) -> (r: Reading)
        requires
            i < p.len() <= MOST,
            old(self).fits(p@, i as int),
            old(self).before + old(self).last <= MOST,
        ensures
            reads(r, *final(self), p@, i as int, escape_step(p@, i as int, old(self)@)),
    {
        if i + 1 < p.len() && is_digit(p[i + 1]) {
            let (e, g) = read_number(p, i + 1);
            if self.holds_open(g as usize) {
                Reading::Answer(false)
            } else {
                self.add_item();
                Reading::At(e)
            }
        } else if i + 1 < p.len() && p[i + 1] == 'k' {
            if i + 2 < p.len() && p[i + 2] == '\'' {
                self.read_reference(p, i + 3, '\'', Ghost(i as int))
            } else if i + 2 < p.len() && p[i + 2] == '<' {
                self.read_reference(p, i + 3, '>', Ghost(i as int))
            } else {
                Reading::Answer(true)
            }
        } else {
            self.add_item();
            Reading::At(end_of_escape(p, i))
        }
    }

    /// Read the name of a capturing group, which begins at `a`.
    fn read_name(&mut self, p: &Vec<char>, a: usize, Ghost(i): Ghost<int>) -> (r: Reading)
        requires
            0 <= i < a <= p.len() <= MOST,
            old(self).fits(p@, i),
            old(self).before + old(self).last <= MOST,
        ensures
            reads(r, *final(self), p@, i, name_step(p@, old(self)@, a as int)),
    {
        let e: usize = find_char(p, a, '>');
        if e >= p.len() {
            return Reading::Answer(true);
        }
        self.capture();
        let ghost t = *self;
        let group: usize = self.count;
        self.names.push((a, e, group));
        assert(self@ =~= (ScanV { names: t@.names.push((a as int, e as int, t@.count)), ..t@ }));
        assert(t.fits(p@, i + 1));
        Reading::At(e + 1)
    }

    /// Read what opens a group.
    fn read_group(&mut self, p: &Vec<char>, i: usize) -> (r: Reading)
        requires
            i < p.len() <= MOST,
            old(self).fits(p@, i as int),
            old(self).before + old(self).last <= MOST,
        ensures
            reads(r, *final(self), p@, i as int, group_step(p@, i as int, old(self)@)),
    {
        let j: usize = skip(p, i + 1, self.spaced);
        if !(j < p.len() && p[j] == '?') {
            self.capture();
            return Reading::At(i + 1);
        }
        if j + 1 >= p.len() {
            return Reading::Answer(true);
        }
        let c: char = p[j + 1];
        let d: char = if j + 2 < p.len() {
            p[j + 2]
        } else {
            ' '
        };
        if c == '=' || c == '!' || c == '>' {
            self.enter(0, None);
            Reading::At(j + 2)
        } else if c == '(' {
            self.enter(0, None);
            self.enter(0, None);
            Reading::At(j + 2)
        } else if c == '<' {
            if d == '=' || d == '!' {
                self.enter(0, None);
                Reading::At(j + 3)
            } else {
                self.read_name(p, j + 2, Ghost(i as int))
            }
        } else if c == 'P' && d == '<' {
            self.read_name(p, j + 3, Ghost(i as int))
        } else if c == 'P' && d == '=' {
            self.read_reference(p, j + 3, ')', Ghost(i as int))
        } else {
            let (e, spaced) = end_of_flags(p, j + 1, self.spaced);
            if e >= p.len() {
                return Reading::Answer(true);
            }
            let ghost before = *self;
            if p[e] == ')' {
                self.add_item();
                let ghost t = *self;
                self.spaced = spaced;
                assert(self@ =~= (ScanV { spaced, ..t@ }));
                assert(t.roomy(p@, i as int));
                Reading::At(e + 1)
            } else if p[e] == ':' {
                let behind = Some(self.spaced);
                self.enter(0, behind);
                let ghost t = *self;
                self.spaced = spaced;
                assert(self@ =~= (ScanV { spaced, ..t@ }));
                assert(t.fits(p@, i as int));
                Reading::At(e + 1)
            } else {
                Reading::Answer(true)
            }
        }
    }

    /// Read on at `i`.
    fn read(&mut self, p: &Vec<char>, i: usize) -> (r: Reading)
        requires
            i < p.len() <= MOST,
            old(self).fits(p@, i as int),
            old(self).before + old(self).last <= MOST,
        ensures
            reads(r, *final(self), p@, i as int, step(p@, i as int, old(self)@)),
    {
        let c: char = p[i];
        let ghost before = *self;
        if c == '\\' {
            self.read_escape(p, i)
        } else if c == '[' {
            self.add_item();
            Reading::At(end_of_class(p, i))
        } else if c == '(' {
            self.read_group(p, i)
        } else if c == ')' {
            let size: u64 = self.before + self.last;
            match self.open.pop() {
                Some(around) => {
                    assert(before@.open.last() == (around.0 as int, around.1 as int, around.2));
                    assert(before.open[before.open.len() - 1].1 <= MOST);
                    self.before = around.1;
                    self.last = if size > 1 {
                        size
                    } else {
                        1
                    };
                    match around.2 {
                        Some(b) => {
                            self.spaced = b;
                        },
                        None => {},
                    }
                    assert(self@ =~= left(before@));
                    Reading::At(i + 1)
                },
                None => Reading::Answer(true),
            }
        } else if c == '{' {
            let a: usize = skip(p, i + 1, self.spaced);
            let (e, n) = read_number(p, a);
            if n > 1 {
                assert(self.last * n <= MOST * (MOST + 1)) by (nonlinear_arith)
                    requires
                        self.last <= MOST,
                        n <= MOST + 1,
                ;
                self.last = self.last * n;
            }
            self.before = self.before + (e - i) as u64;
            assert(self@ =~= repeated(before@, n as int, e - i));
            Reading::At(e)
        } else if c == '*' || c == '+' || c == '?' {
            Reading::At(i + 1)
        } else {
            self.add_item();
            Reading::At(i + 1)
        }
    }
}

/// Whether a reading says what a step does, and leaves a state that fits.
spec fn reads(r: Reading, s: Scan, p: Seq<char>, i: int, st: Step) -> bool {
    match r {
        Reading::Answer(b) => st == Step::Answer(b),
        Reading::At(j) => st == Step::At(j as int, s@) && i < j <= p.len() && s.roomy(p, j as int),
    }
}

/// Whether a pattern is sound: it refers back to no group from inside that group, and neither it nor
/// what it asks for is longer than `MOST`.
pub fn is_sound(pattern: &str) -> (r: bool)
    ensures
        r == sound_pattern(pattern@),
{
    let p = characters(pattern);
    if p.len() as u64 > MOST {
        return false;
    }
    let mut s = Scan { open: Vec::new(), before: 0, last: 0, count: 0, names: Vec::new(), spaced: false };
    assert(s@ =~= scan_start());
    let mut i: usize = 0;
    while i < p.len()
        invariant
            p@ == pattern@,
            p.len() <= MOST,
            i <= p.len(),
            s.roomy(p@, i as int),
            sound_pattern(p@) == scan(p@, i as int, s@),
        decreases p.len() - i,
    {
        if s.before + s.last > MOST {
            return false;
        }
        let j: usize = skip(&p, i, s.spaced);
        if j >= p.len() {
            return true;
        }
        match s.read(&p, j) {
            Reading::Answer(b) => {
                return b;
            },
            Reading::At(k) => {
                i = k;
            },
        }
    }
    s.before + s.last <= MOST
}

} // verus!
