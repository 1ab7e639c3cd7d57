//! Operations on `Vec`, stated over the models of the elements.

use vstd::prelude::*;

use crate::order::{arranged, in_order, place, Sortable};
use crate::text;

verus! {

/// Append one element.
pub fn push<T: DeepView>(v: &mut Vec<T>, x: T)
    ensures
        final(v)@ == old(v)@.push(x),
        final(v).deep_view() == old(v).deep_view().push(x.deep_view()),
{
    v.push(x);
    assert(v.deep_view() =~= old(v).deep_view().push(x.deep_view()));
}

/// An independent copy, element by element.
pub fn copied<T: Clone + DeepView>(v: &Vec<T>) -> (r: Vec<T>)
    requires
        forall|x: &T, y: T| #[trigger]
            call_ensures(T::clone, (x,), y) ==> y.deep_view() == x.deep_view(),
    ensures
        r.deep_view() == v.deep_view(),
{
    let mut out: Vec<T> = Vec::new();
    let mut i: usize = 0;
    while i < v.len()
        invariant
            i <= v.len(),
            out.deep_view() == v.deep_view().take(i as int),
            forall|x: &T, y: T| #[trigger]
                call_ensures(T::clone, (x,), y) ==> y.deep_view() == x.deep_view(),
        decreases v.len() - i,
    {
        let x = v[i].clone();
        assert(x.deep_view() == v.deep_view()[i as int]);
        push(&mut out, x);
        i = i + 1;
        assert(out.deep_view() =~= v.deep_view().take(i as int));
    }
    assert(out.deep_view() =~= v.deep_view());
    out
}

/// An independent copy of an optional text.
pub fn copied_option(v: &Option<String>) -> (r: Option<String>)
    ensures
        r.deep_view() == v.deep_view(),
{
    match v {
        Some(s) => Some(s.clone()),
        None => None,
    }
}

/// Whether `v` holds the text `x`.
pub fn contains_text(v: &Vec<String>, x: &String) -> (r: bool)
    ensures
        r == v.deep_view().contains(x@),
{
    let mut i: usize = 0;
    while i < v.len()
        invariant
            i <= v.len(),
            forall|j: int| 0 <= j < i ==> v.deep_view()[j] != x@,
        decreases v.len() - i,
    {
        assert(v.deep_view()[i as int] == v@[i as int]@);
        if v[i] == *x {
            return true;
        }
        i = i + 1;
    }
    false
}

/// Whether two lists of texts are the same.
pub fn same_texts(a: &Vec<String>, b: &Vec<String>) -> (r: bool)
    ensures
        r == (a.deep_view() == b.deep_view()),
{
    assert(a.deep_view().len() == a.len() && b.deep_view().len() == b.len());
    if a.len() != b.len() {
        return false;
    }
    let mut i: usize = 0;
    while i < a.len()
        invariant
            i <= a.len(),
            a.len() == b.len(),
            forall|j: int| 0 <= j < i ==> a.deep_view()[j] == b.deep_view()[j],
        decreases a.len() - i,
    {
        assert(a.deep_view()[i as int] == a@[i as int]@);
        assert(b.deep_view()[i as int] == b@[i as int]@);
        if a[i] != b[i] {
            return false;
        }
        i = i + 1;
    }
    assert(a.deep_view() =~= b.deep_view());
    true
}

/// Whether two optional texts are the same.
pub fn same_option(a: &Option<String>, b: &Option<String>) -> (r: bool)
    ensures
        r == (a.deep_view() == b.deep_view()),
{
    match (a, b) {
        (Some(x), Some(y)) => *x == *y,
        (None, None) => true,
        _ => false,
    }
}

/// The first `n` elements, without any that repeats the one right before it.
pub open spec fn runs<A>(s: Seq<A>, n: int) -> Seq<A>
    decreases n,
{
    if n <= 0 {
        Seq::empty()
    } else if n >= 2 && s[n - 1] == s[n - 2] {
        runs(s, n - 1)
    } else {
        runs(s, n - 1).push(s[n - 1])
    }
}

/// `s` without any element that repeats the one right before it.
pub open spec fn deduped<A>(s: Seq<A>) -> Seq<A> {
    runs(s, s.len() as int)
}

/// Dropping repeats loses no value and adds none, and the last value stays last.
pub proof fn runs_contain<A>(s: Seq<A>, n: int)
    requires
        0 <= n <= s.len(),
    ensures
        forall|x: A| #[trigger] runs(s, n).contains(x) <==> s.take(n).contains(x),
        n > 0 ==> runs(s, n).len() > 0 && runs(s, n).last() == s[n - 1],
        runs(s, n).len() <= n,
    decreases n,
{
    if n > 0 {
        runs_contain(s, n - 1);
        let r = runs(s, n - 1);
        assert(s.take(n) =~= s.take(n - 1).push(s[n - 1]));
        assert forall|x: A| #[trigger] runs(s, n).contains(x) <==> s.take(n).contains(x) by {
            assert(s.take(n).contains(x) <==> s.take(n - 1).contains(x) || x == s[n - 1]) by {
                if s.take(n - 1).contains(x) {
                    let k = choose|k: int| 0 <= k < n - 1 && #[trigger] s.take(n - 1)[k] == x;
                    assert(s.take(n)[k] == x);
                }
                assert(s.take(n)[n - 1] == s[n - 1]);
            }
            if n >= 2 && s[n - 1] == s[n - 2] {
                assert(r.contains(r.last()));
            } else {
                assert(r.push(s[n - 1])[r.len() as int] == s[n - 1]);
                if r.contains(x) {
                    let k = choose|k: int| 0 <= k < r.len() && r[k] == x;
                    assert(r.push(s[n - 1])[k] == x);
                }
            }
        }
    }
}

/// Strictly ascending in the order of strings.
pub open spec fn ascend(s: Seq<Seq<char>>) -> bool {
    forall|i: int, j: int| 0 <= i < j < s.len() ==> text::before(#[trigger] s[i], #[trigger] s[j])
}

/// Sorted texts without repeats ascend strictly.
pub proof fn runs_ascend(s: Seq<Seq<char>>, n: int)
    requires
        in_order::<String>(s),
        0 <= n <= s.len(),
    ensures
        ascend(runs(s, n)),
    decreases n,
{
    if n > 0 {
        runs_ascend(s, n - 1);
        runs_contain(s, n - 1);
        let r = runs(s, n - 1);
        if !(n >= 2 && s[n - 1] == s[n - 2]) && n >= 2 {
            assert(!<String as Sortable>::precedes(s[n - 1], s[n - 2]));
            text::before_is_total_order(s[n - 2], s[n - 1], s[n - 1]);
            assert(r.last() == s[n - 2]);
            assert forall|i: int, j: int| 0 <= i < j < r.len() + 1 implies text::before(
                #[trigger] r.push(s[n - 1])[i],
                #[trigger] r.push(s[n - 1])[j],
            ) by {
                if j == r.len() && i < r.len() - 1 {
                    assert(text::before(r[i], r[r.len() - 1]));
                    text::before_is_total_order(r[i], s[n - 2], s[n - 1]);
                }
            }
        }
    }
}

/// Drop the texts that repeat the one right before them.
pub fn dedup_texts(v: &Vec<String>) -> (r: Vec<String>)
    ensures
        r.deep_view() == deduped(v.deep_view()),
{
    let mut out: Vec<String> = Vec::new();
    assert(out.deep_view() =~= Seq::empty());
    assert(v.deep_view().len() == v.len());
    let mut i: usize = 0;
    while i < v.len()
        invariant
            i <= v.len(),
            out.deep_view() == runs(v.deep_view(), i as int),
        decreases v.len() - i,
    {
        assert(v.deep_view()[i as int] == v@[i as int]@);
        if i > 0 {
            assert(v.deep_view()[i - 1] == v@[i - 1]@);
        }
        if i == 0 || v[i] != v[i - 1] {
            push(&mut out, v[i].clone());
        }
        i = i + 1;
    }
    out
}

/// The sum of `f` over the first `n` elements.
pub open spec fn sum<A>(s: Seq<A>, f: spec_fn(A) -> int, n: int) -> int
    decreases n,
{
    if n <= 0 {
        0
    } else {
        sum(s, f, n - 1) + f(s[n - 1])
    }
}

/// The sum of `f` over all elements.
pub open spec fn total<A>(s: Seq<A>, f: spec_fn(A) -> int) -> int {
    sum(s, f, s.len() as int)
}

/// A sum depends only on the elements summed.
pub proof fn sum_prefix<A>(a: Seq<A>, b: Seq<A>, f: spec_fn(A) -> int, n: int)
    requires
        n <= a.len(),
        n <= b.len(),
        forall|i: int| 0 <= i < n ==> f(#[trigger] a[i]) == f(b[i]),
    ensures
        sum(a, f, n) == sum(b, f, n),
    decreases n,
{
    if n > 0 {
        sum_prefix(a, b, f, n - 1);
        assert(f(a[n - 1]) == f(b[n - 1]));
    }
}

/// A sum depends only on what is summed.
pub proof fn sum_prefix_by<A>(
    s: Seq<A>,
    f: spec_fn(A) -> int,
    g: spec_fn(A) -> int,
    n: int,
)
    requires
        n <= s.len(),
        forall|i: int| 0 <= i < n ==> f(#[trigger] s[i]) == g(s[i]),
    ensures
        sum(s, f, n) == sum(s, g, n),
    decreases n,
{
    if n > 0 {
        sum_prefix_by(s, f, g, n - 1);
        assert(f(s[n - 1]) == g(s[n - 1]));
    }
}

pub proof fn total_push<A>(s: Seq<A>, f: spec_fn(A) -> int, x: A)
    ensures
        total(s.push(x), f) == total(s, f) + f(x),
{
    sum_prefix(s.push(x), s, f, s.len() as int);
}

pub proof fn total_concat<A>(a: Seq<A>, b: Seq<A>, f: spec_fn(A) -> int)
    ensures
        total(a + b, f) == total(a, f) + total(b, f),
    decreases b.len(),
{
    if b.len() == 0 {
        assert(a + b =~= a);
    } else {
        total_concat(a, b.drop_last(), f);
        assert(a + b =~= (a + b.drop_last()).push(b.last()));
        assert(b =~= b.drop_last().push(b.last()));
        total_push(a + b.drop_last(), f, b.last());
        total_push(b.drop_last(), f, b.last());
    }
}

/// Replacing one element changes the sum by the difference.
pub proof fn total_update<A>(s: Seq<A>, f: spec_fn(A) -> int, i: int, x: A)
    requires
        0 <= i < s.len(),
    ensures
        total(s.update(i, x), f) == total(s, f) - f(s[i]) + f(x),
    decreases s.len(),
{
    if i == s.len() - 1 {
        sum_prefix(s.update(i, x), s, f, s.len() - 1);
    } else {
        total_update(s.drop_last(), f, i, x);
        assert(s.update(i, x).drop_last() =~= s.drop_last().update(i, x));
        sum_prefix(s.update(i, x), s.drop_last().update(i, x), f, s.len() - 1);
        sum_prefix(s, s.drop_last(), f, s.len() - 1);
    }
}

/// Sorting does not change a sum.
pub proof fn total_arranged<T: Sortable>(s: Seq<T::V>, f: spec_fn(T::V) -> int)
    ensures
        total(arranged::<T>(s), f) == total(s, f),
    decreases s.len(),
{
    if s.len() > 0 {
        total_arranged::<T>(s.drop_last(), f);
        total_place::<T>(arranged::<T>(s.drop_last()), f, s.last());
        assert(s =~= s.drop_last().push(s.last()));
        total_push(s.drop_last(), f, s.last());
    }
}

proof fn total_place<T: Sortable>(s: Seq<T::V>, f: spec_fn(T::V) -> int, x: T::V)
    ensures
        total(place::<T>(s, x), f) == total(s, f) + f(x),
    decreases s.len(),
{
    if s.len() > 0 && T::precedes(x, s.last()) {
        total_place::<T>(s.drop_last(), f, x);
        total_push(place::<T>(s.drop_last(), x), f, s.last());
        assert(s =~= s.drop_last().push(s.last()));
        total_push(s.drop_last(), f, s.last());
    } else {
        total_push(s, f, x);
    }
}

/// Where no term is negative, no partial sum exceeds the whole, and no term does.
pub proof fn sum_bounds<A>(s: Seq<A>, f: spec_fn(A) -> int, n: int)
    requires
        0 <= n <= s.len(),
        forall|x: A| #[trigger] f(x) >= 0,
    ensures
        0 <= sum(s, f, n) <= total(s, f),
        forall|i: int| 0 <= i < n ==> f(#[trigger] s[i]) <= sum(s, f, n),
    decreases s.len() - n, n,
{
    sum_terms(s, f, n);
    if n < s.len() {
        sum_bounds(s, f, n + 1);
        assert(f(s[n]) >= 0);
    }
}

proof fn sum_terms<A>(s: Seq<A>, f: spec_fn(A) -> int, n: int)
    requires
        0 <= n <= s.len(),
        forall|x: A| #[trigger] f(x) >= 0,
    ensures
        0 <= sum(s, f, n),
        forall|i: int| 0 <= i < n ==> f(#[trigger] s[i]) <= sum(s, f, n),
    decreases n,
{
    if n > 0 {
        sum_terms(s, f, n - 1);
        assert(f(s[n - 1]) >= 0);
    }
}

/// What `f` makes of the first `n` elements, one after another.
pub open spec fn flat<A, B>(s: Seq<A>, f: spec_fn(A) -> Seq<B>, n: int) -> Seq<B>
    decreases n,
{
    if n <= 0 {
        Seq::empty()
    } else {
        flat(s, f, n - 1) + f(s[n - 1])
    }
}

/// Laying out depends only on the elements laid out.
pub proof fn flat_prefix<A, B>(
    a: Seq<A>,
    b: Seq<A>,
    f: spec_fn(A) -> Seq<B>,
    g: spec_fn(A) -> Seq<B>,
    n: int,
)
    requires
        n <= a.len(),
        n <= b.len(),
        forall|i: int| 0 <= i < n ==> f(#[trigger] a[i]) == g(b[i]),
    ensures
        flat(a, f, n) == flat(b, g, n),
    decreases n,
{
    if n > 0 {
        flat_prefix(a, b, f, g, n - 1);
        assert(f(a[n - 1]) == g(b[n - 1]));
    }
}

proof fn flat_remove<A, B>(s: Seq<A>, f: spec_fn(A) -> Seq<B>, i: int)
    requires
        0 <= i < s.len(),
    ensures
        flat(s, f, s.len() as int).to_multiset() == flat(
            s.remove(i),
            f,
            s.len() - 1,
        ).to_multiset().add(f(s[i]).to_multiset()),
    decreases s.len(),
{
    let n = s.len() as int;
    let head = s.drop_last();
    flat_prefix(s, head, f, f, n - 1);
    vstd::seq_lib::lemma_multiset_commutative(flat(head, f, n - 1), f(s.last()));
    if i == n - 1 {
        assert(s.remove(i) =~= head);
    } else {
        flat_remove(head, f, i);
        let rest = s.remove(i);
        assert(rest.drop_last() =~= head.remove(i));
        flat_prefix(rest, head.remove(i), f, f, n - 2);
        assert(rest[n - 2] == s.last());
        vstd::seq_lib::lemma_multiset_commutative(flat(head.remove(i), f, n - 2), f(s.last()));
        assert(flat(rest, f, n - 1) == flat(head.remove(i), f, n - 2) + f(s.last()));
        assert(flat(s, f, n).to_multiset() =~= flat(rest, f, n - 1).to_multiset().add(
            f(s[i]).to_multiset(),
        ));
    }
}

/// What is laid out is what some element lays out.
pub proof fn flat_contains<A, B>(s: Seq<A>, f: spec_fn(A) -> Seq<B>, n: int, x: B)
    requires
        0 <= n <= s.len(),
    ensures
        flat(s, f, n).contains(x) <==> exists|i: int| 0 <= i < n && f(#[trigger] s[i]).contains(x),
    decreases n,
{
    if n > 0 {
        flat_contains(s, f, n - 1, x);
        let rest = flat(s, f, n - 1);
        let more = f(s[n - 1]);
        let all = flat(s, f, n);
        if all.contains(x) {
            let k = choose|k: int| 0 <= k < all.len() && all[k] == x;
            if k < rest.len() {
                assert(rest[k] == x);
                assert(rest.contains(x));
                let i = choose|i: int| 0 <= i < n - 1 && f(#[trigger] s[i]).contains(x);
                assert(f(s[i]).contains(x));
            } else {
                assert(more[k - rest.len()] == x);
                assert(f(s[n - 1]).contains(x));
            }
        }
        if exists|i: int| 0 <= i < n && f(#[trigger] s[i]).contains(x) {
            let i = choose|i: int| 0 <= i < n && f(#[trigger] s[i]).contains(x);
            if i < n - 1 {
                assert(rest.contains(x));
                let k = choose|k: int| 0 <= k < rest.len() && rest[k] == x;
                assert(all[k] == x);
            } else {
                let k = choose|k: int| 0 <= k < more.len() && more[k] == x;
                assert(all[rest.len() + k] == x);
            }
        }
    }
}

/// Listing the elements in another order lays out the same things.
pub proof fn flat_permutes<A, B>(a: Seq<A>, b: Seq<A>, f: spec_fn(A) -> Seq<B>)
    requires
        a.to_multiset() == b.to_multiset(),
    ensures
        flat(a, f, a.len() as int).to_multiset() == flat(b, f, b.len() as int).to_multiset(),
        a.len() == b.len(),
    decreases a.len(),
{
    broadcast use vstd::seq_lib::group_to_multiset_ensures;

    assert(a.len() == a.to_multiset().len());
    assert(b.len() == b.to_multiset().len());
    if a.len() > 0 {
        let x = a.last();
        let head = a.drop_last();
        assert(a.contains(x));
        assert(a.to_multiset().count(x) > 0);
        assert(b.contains(x));
        let i = choose|i: int| 0 <= i < b.len() && b[i] == x;
        let rest = b.remove(i);
        assert(a =~= head.push(x));
        assert(head.to_multiset() =~= a.to_multiset().remove(x));
        assert(rest.to_multiset() =~= b.to_multiset().remove(x));
        flat_permutes(head, rest, f);
        flat_remove(b, f, i);
        flat_remove(a, f, a.len() - 1);
        assert(a.remove(a.len() - 1) =~= head);
    }
}

/// Whether two lists of characters are the same.
pub fn same_characters(a: &Vec<char>, b: &Vec<char>) -> (r: bool)
    ensures
        r == (a@ == b@),
{
    if a.len() != b.len() {
        return false;
    }
    let mut i: usize = 0;
    while i < a.len()
        invariant
            a.len() == b.len(),
            i <= a.len(),
            forall|k: int| 0 <= k < i ==> a@[k] == b@[k],
        decreases a.len() - i,
    {
        if a[i] != b[i] {
            return false;
        }
        i = i + 1;
    }
    assert(a@ =~= b@);
    true
}

} // verus!
