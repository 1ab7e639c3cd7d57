//! Sorting: one order per type, and the stable sort under it.

use vstd::prelude::*;

use crate::text;

verus! {

/// A type with an order to sort by. The order is a strict weak order over the type's model: two
/// values may be incomparable without being equal, and a stable sort keeps those as they came.
pub trait Sortable: DeepView + Sized {
    /// Whether `a` sorts strictly before `b`.
    spec fn precedes(a: Self::V, b: Self::V) -> bool;

    /// Nothing precedes itself, preceding is transitive, and so is not preceding.
    proof fn weak_order(a: Self::V, b: Self::V, c: Self::V)
        ensures
            !Self::precedes(a, a),
            Self::precedes(a, b) && Self::precedes(b, c) ==> Self::precedes(a, c),
            !Self::precedes(a, b) && !Self::precedes(b, c) ==> !Self::precedes(a, c),
    ;

    fn sorts_before(&self, other: &Self) -> (r: bool)
        ensures
            r == Self::precedes(self.deep_view(), other.deep_view()),
    ;
}

/// `s` with `x` put in behind everything that `x` does not precede.
pub open spec fn place<T: Sortable>(s: Seq<T::V>, x: T::V) -> Seq<T::V>
    decreases s.len(),
{
    if s.len() > 0 && T::precedes(x, s.last()) {
        place::<T>(s.drop_last(), x).push(s.last())
    } else {
        s.push(x)
    }
}

/// The stable sort of `s`: what stands earlier never follows, and what compares alike keeps its
/// order.
pub open spec fn arranged<T: Sortable>(s: Seq<T::V>) -> Seq<T::V>
    decreases s.len(),
{
    if s.len() == 0 {
        s
    } else {
        place::<T>(arranged::<T>(s.drop_last()), s.last())
    }
}

/// Nothing in `s` precedes what stands before it.
pub open spec fn in_order<T: Sortable>(s: Seq<T::V>) -> bool {
    forall|i: int, j: int| 0 <= i < j < s.len() ==> !T::precedes(#[trigger] s[j], #[trigger] s[i])
}

pub proof fn place_keeps<T: Sortable>(s: Seq<T::V>, x: T::V)
    ensures
        place::<T>(s, x).len() == s.len() + 1,
        place::<T>(s, x).to_multiset() == s.to_multiset().insert(x),
    decreases s.len(),
{
    broadcast use vstd::seq_lib::group_to_multiset_ensures;

    if s.len() > 0 && T::precedes(x, s.last()) {
        place_keeps::<T>(s.drop_last(), x);
        assert(s =~= s.drop_last().push(s.last()));
        assert(place::<T>(s, x).to_multiset() =~= s.to_multiset().insert(x));
    }
}

/// Sorting neither adds nor drops anything.
pub proof fn arranged_keeps<T: Sortable>(s: Seq<T::V>)
    ensures
        arranged::<T>(s).len() == s.len(),
        arranged::<T>(s).to_multiset() == s.to_multiset(),
    decreases s.len(),
{
    broadcast use vstd::seq_lib::group_to_multiset_ensures;

    if s.len() > 0 {
        arranged_keeps::<T>(s.drop_last());
        place_keeps::<T>(arranged::<T>(s.drop_last()), s.last());
        assert(s =~= s.drop_last().push(s.last()));
    }
}

/// Every element of a sorted sequence was in the sequence that was sorted, and the other way round.
pub proof fn arranged_contains<T: Sortable>(s: Seq<T::V>, x: T::V)
    ensures
        arranged::<T>(s).contains(x) == s.contains(x),
{
    broadcast use vstd::seq_lib::group_to_multiset_ensures;

    arranged_keeps::<T>(s);
    assert(arranged::<T>(s).contains(x) == (arranged::<T>(s).to_multiset().count(x) > 0));
    assert(s.contains(x) == (s.to_multiset().count(x) > 0));
}

proof fn place_contains<T: Sortable>(s: Seq<T::V>, x: T::V, y: T::V)
    ensures
        place::<T>(s, x).contains(y) == (s.contains(y) || x == y),
{
    broadcast use vstd::seq_lib::group_to_multiset_ensures;

    place_keeps::<T>(s, x);
    assert(place::<T>(s, x).contains(y) == (place::<T>(s, x).to_multiset().count(y) > 0));
    assert(s.contains(y) == (s.to_multiset().count(y) > 0));
}

proof fn place_in_order<T: Sortable>(s: Seq<T::V>, x: T::V)
    requires
        in_order::<T>(s),
    ensures
        in_order::<T>(place::<T>(s, x)),
    decreases s.len(),
{
    let p = place::<T>(s, x);
    if s.len() > 0 && T::precedes(x, s.last()) {
        let q = place::<T>(s.drop_last(), x);
        assert(in_order::<T>(s.drop_last()));
        place_in_order::<T>(s.drop_last(), x);
        assert forall|i: int, j: int| 0 <= i < j < p.len() implies !T::precedes(
            #[trigger] p[j],
            #[trigger] p[i],
        ) by {
            if j < q.len() {
                assert(p[j] == q[j] && p[i] == q[i]);
            } else {
                assert(p[j] == s.last());
                assert(p[i] == q[i]);
                assert(q.contains(q[i]));
                place_contains::<T>(s.drop_last(), x, q[i]);
                if q[i] == x {
                    T::weak_order(s.last(), x, s.last());
                } else {
                    let k = choose|k: int| 0 <= k < s.drop_last().len() && s.drop_last()[k] == q[i];
                    assert(s[k] == q[i]);
                    assert(!T::precedes(s[s.len() - 1], s[k]));
                }
            }
        }
    } else {
        assert forall|i: int, j: int| 0 <= i < j < p.len() implies !T::precedes(
            #[trigger] p[j],
            #[trigger] p[i],
        ) by {
            if j == s.len() {
                assert(p[i] == s[i]);
                if i < s.len() - 1 {
                    assert(!T::precedes(s[s.len() - 1], s[i]));
                    T::weak_order(x, s.last(), s[i]);
                }
            } else {
                assert(p[j] == s[j] && p[i] == s[i]);
            }
        }
    }
}

/// A sorted sequence is in order.
pub proof fn arranged_in_order<T: Sortable>(s: Seq<T::V>)
    ensures
        in_order::<T>(arranged::<T>(s)),
    decreases s.len(),
{
    if s.len() > 0 {
        arranged_in_order::<T>(s.drop_last());
        place_in_order::<T>(arranged::<T>(s.drop_last()), s.last());
    }
}

/// Whether the order separates any two different elements of `s`.
pub open spec fn separates<T: Sortable>(s: Seq<T::V>) -> bool {
    forall|a: T::V, b: T::V|
        s.contains(a) && s.contains(b) && !T::precedes(a, b) && !T::precedes(b, a) ==> a == b
}

proof fn in_order_unique<T: Sortable>(a: Seq<T::V>, b: Seq<T::V>)
    requires
        in_order::<T>(a),
        in_order::<T>(b),
        a.to_multiset() == b.to_multiset(),
        separates::<T>(a),
    ensures
        a == b,
    decreases a.len(),
{
    broadcast use vstd::seq_lib::group_to_multiset_ensures;

    assert(a.len() == a.to_multiset().len());
    assert(b.len() == b.to_multiset().len());
    if a.len() > 0 {
        let x = a.last();
        let y = b.last();
        assert(a.contains(x));
        assert(b.contains(y));
        assert(a.to_multiset().count(x) > 0);
        assert(b.to_multiset().count(y) > 0);
        assert(b.contains(x));
        assert(a.contains(y));
        let i = choose|i: int| 0 <= i < b.len() && b[i] == x;
        let j = choose|j: int| 0 <= j < a.len() && a[j] == y;
        if i < b.len() - 1 {
            assert(!T::precedes(b[b.len() - 1], b[i]));
        } else {
            assert(x == y);
            T::weak_order(x, x, x);
        }
        if j < a.len() - 1 {
            assert(!T::precedes(a[a.len() - 1], a[j]));
        } else {
            assert(x == y);
            T::weak_order(x, x, x);
        }
        assert(x == y);
        let a1 = a.drop_last();
        let b1 = b.drop_last();
        assert(a =~= a1.push(x));
        assert(b =~= b1.push(x));
        assert(a1.to_multiset() =~= b1.to_multiset()) by {
            assert(a1.to_multiset() =~= a.to_multiset().remove(x));
            assert(b1.to_multiset() =~= b.to_multiset().remove(x));
        }
        assert(in_order::<T>(a1));
        assert(in_order::<T>(b1));
        assert forall|p: T::V| a1.contains(p) implies a.contains(p) by {
            let k = choose|k: int| 0 <= k < a1.len() && a1[k] == p;
            assert(a[k] == p);
        }
        in_order_unique::<T>(a1, b1);
    } else {
        assert(a =~= b);
    }
}

/// Where the order separates any two different elements, the sorted sequence does not depend on
/// the order the elements came in.
pub proof fn arranged_unique<T: Sortable>(a: Seq<T::V>, b: Seq<T::V>)
    requires
        a.to_multiset() == b.to_multiset(),
        separates::<T>(a),
    ensures
        arranged::<T>(a) == arranged::<T>(b),
{
    arranged_keeps::<T>(a);
    arranged_keeps::<T>(b);
    arranged_in_order::<T>(a);
    arranged_in_order::<T>(b);
    let s = arranged::<T>(a);
    assert forall|x: T::V, y: T::V|
        s.contains(x) && s.contains(y) && !T::precedes(x, y) && !T::precedes(y, x) implies x
        == y by {
        arranged_contains::<T>(a, x);
        arranged_contains::<T>(a, y);
    }
    in_order_unique::<T>(arranged::<T>(a), arranged::<T>(b));
}

/// Sorting what is in order already changes nothing.
pub proof fn arranged_fixed<T: Sortable>(s: Seq<T::V>)
    requires
        in_order::<T>(s),
    ensures
        arranged::<T>(s) == s,
    decreases s.len(),
{
    if s.len() > 0 {
        assert(in_order::<T>(s.drop_last()));
        arranged_fixed::<T>(s.drop_last());
        if s.len() > 1 {
            assert(!T::precedes(s[s.len() - 1], s[s.len() - 2]));
        }
        assert(s =~= s.drop_last().push(s.last()));
    }
}

/// Sort in place, stably.
pub fn sort<T: Sortable>(v: &mut Vec<T>)
    ensures
        final(v).deep_view() == arranged::<T>(old(v).deep_view()),
{
    let ghost whole = v.deep_view();
    let mut i: usize = 0;
    assert(whole.take(0) =~= Seq::empty());
    assert(v.deep_view() =~= arranged::<T>(whole.take(0)) + whole.skip(0));
    while i < v.len()
        invariant
            i <= v.len(),
            v.len() == whole.len(),
            arranged::<T>(whole.take(i as int)).len() == i,
            v.deep_view() == arranged::<T>(whole.take(i as int)) + whole.skip(i as int),
        decreases v.len() - i,
    {
        let ghost head = arranged::<T>(whole.take(i as int));
        let ghost before = v.deep_view();
        let x = v.remove(i);
        let ghost rest = v.deep_view();
        assert(rest =~= before.remove(i as int));
        assert(before.remove(i as int) =~= head + whole.skip(i + 1));
        assert(x.deep_view() == whole[i as int]) by {
            assert(before[i as int] == whole.skip(i as int)[0]);
        }
        let mut j: usize = i;
        assert(head.take(j as int) =~= head);
        assert(head.skip(j as int) =~= Seq::empty());
        assert(place::<T>(head, x.deep_view()) =~= place::<T>(head.take(j as int), x.deep_view()) + head.skip(j as int));
        while j > 0 && x.sorts_before(&v[j - 1])
            invariant
                j <= i,
                i <= v.len(),
                head.len() == i,
                v.deep_view() == rest,
                rest == head + whole.skip(i + 1),
                place::<T>(head, x.deep_view()) == place::<T>(head.take(j as int), x.deep_view()) + head.skip(
                    j as int,
                ),
            decreases j,
        {
            proof {
                let h = head.take(j as int);
                assert(rest[j - 1] == head[j - 1]);
                assert(h.last() == head[j - 1]);
                assert(h.drop_last() =~= head.take(j - 1));
                assert(head.skip(j - 1) =~= seq![head[j - 1]] + head.skip(j as int));
                assert(place::<T>(h, x.deep_view()) + head.skip(j as int) =~= place::<T>(
                    head.take(j - 1),
                    x.deep_view(),
                ) + head.skip(j - 1));
            }
            j = j - 1;
        }
        proof {
            let h = head.take(j as int);
            if j > 0 {
                assert(rest[j - 1] == head[j - 1]);
                assert(h.last() == head[j - 1]);
            }
            assert(place::<T>(h, x.deep_view()) == h.push(x.deep_view()));
        }
        v.insert(j, x);
        proof {
            assert(v.deep_view() =~= rest.insert(j as int, x.deep_view()));
            assert(whole.take(i + 1).drop_last() =~= whole.take(i as int));
            assert(whole.take(i + 1).last() == whole[i as int]);
            assert(v.deep_view() =~= place::<T>(head, x.deep_view()) + whole.skip(i + 1));
            place_keeps::<T>(head, x.deep_view());
        }
        i = i + 1;
    }
    proof {
        assert(whole.take(i as int) =~= whole);
        assert(v.deep_view() =~= arranged::<T>(whole));
    }
}

impl Sortable for String {
    open spec fn precedes(a: Seq<char>, b: Seq<char>) -> bool {
        text::before(a, b)
    }

    proof fn weak_order(a: Seq<char>, b: Seq<char>, c: Seq<char>) {
        text::before_is_weak_order(a, b, c);
    }

    fn sorts_before(&self, other: &Self) -> (r: bool) {
        text::is_before(self.as_str(), other.as_str())
    }
}

} // verus!
