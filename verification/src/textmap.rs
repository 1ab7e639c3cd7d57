//! A map keyed by text.

use vstd::prelude::*;

use crate::list;
use crate::order;
use crate::text;

verus! {

/// A map from text to `V`. Its model is the map from each key's characters to its value.
#[verifier::reject_recursive_types(V)]
#[derive(Debug)]
pub struct TextMap<V> {
    entries: Vec<(String, V)>,
}

/// No two entries share a key.
spec fn distinct_keys<V>(entries: Seq<(String, V)>) -> bool {
    forall|i: int, j: int|
        0 <= i < j < entries.len() ==> (#[trigger] entries[i]).0@ != (#[trigger] entries[j]).0@
}

spec fn holds_key<V>(entries: Seq<(String, V)>, key: Seq<char>) -> bool {
    exists|i: int| 0 <= i < entries.len() && (#[trigger] entries[i]).0@ == key
}

spec fn place_of<V>(entries: Seq<(String, V)>, key: Seq<char>) -> int {
    choose|i: int| 0 <= i < entries.len() && (#[trigger] entries[i]).0@ == key
}

impl<V> View for TextMap<V> {
    type V = Map<Seq<char>, V>;

    closed spec fn view(&self) -> Map<Seq<char>, V> {
        Map::new(
            |key: Seq<char>| holds_key(self.entries@, key),
            |key: Seq<char>| self.entries@[place_of(self.entries@, key)].1,
        )
    }
}

impl<V: DeepView> DeepView for TextMap<V> {
    type V = Map<Seq<char>, V::V>;

    open spec fn deep_view(&self) -> Map<Seq<char>, V::V> {
        self@.map_values(|v: V| v.deep_view())
    }
}

impl<V> TextMap<V> {
    #[verifier::type_invariant]
    spec fn valid(self) -> bool {
        distinct_keys(self.entries@)
    }

    pub fn new() -> (r: TextMap<V>)
        ensures
            r@ == Map::<Seq<char>, V>::empty(),
    {
        let r = TextMap { entries: Vec::new() };
        assert(r@ =~= Map::empty());
        r
    }

    pub fn len(&self) -> (r: usize)
        ensures
            self@.dom().finite(),
            r == self@.len(),
    {
        proof {
            use_type_invariant(self);
            let keys = Seq::new(self.entries@.len(), |i: int| self.entries@[i].0@);
            assert(keys.no_duplicates());
            keys.unique_seq_to_set();
            assert(keys.to_set() =~= self@.dom()) by {
                assert forall|k: Seq<char>| keys.to_set().contains(k) <==> self@.dom().contains(
                    k,
                ) by {
                    if keys.contains(k) {
                        let i = choose|i: int| 0 <= i < keys.len() && keys[i] == k;
                        assert(self.entries@[i].0@ == k);
                    }
                    if holds_key(self.entries@, k) {
                        let i = place_of(self.entries@, k);
                        assert(keys[i] == k);
                    }
                }
            }
        }
        self.entries.len()
    }

    /// Where `key` stands among the entries.
    fn position(&self, key: &str) -> (r: Option<usize>)
        ensures
            match r {
                Some(i) => i < self.entries@.len() && self.entries@[i as int].0@ == key@
                    && self@.contains_key(key@) && self@[key@] == self.entries@[i as int].1,
                None => !self@.contains_key(key@),
            },
    {
        proof {
            use_type_invariant(self);
        }
        let mut i: usize = 0;
        while i < self.entries.len()
            invariant
                distinct_keys(self.entries@),
                i <= self.entries@.len(),
                forall|j: int| 0 <= j < i ==> (#[trigger] self.entries@[j]).0@ != key@,
            decreases self.entries.len() - i,
        {
            if text::same(self.entries[i].0.as_str(), key) {
                assert(holds_key(self.entries@, key@));
                assert(place_of(self.entries@, key@) == i);
                return Some(i);
            }
            i = i + 1;
        }
        None
    }

    pub fn get(&self, key: &str) -> (r: Option<&V>)
        ensures
            match r {
                Some(v) => self@.contains_key(key@) && self@[key@] == *v,
                None => !self@.contains_key(key@),
            },
    {
        match self.position(key) {
            Some(i) => Some(&self.entries[i].1),
            None => None,
        }
    }

    pub fn contains_key(&self, key: &str) -> (r: bool)
        ensures
            r == self@.contains_key(key@),
    {
        self.position(key).is_some()
    }

    /// Set the value of `key`, in place of the one it had.
    pub fn insert(&mut self, key: String, value: V)
        ensures
            final(self)@ == old(self)@.insert(key@, value),
    {
        proof {
            use_type_invariant(&*self);
        }
        let ghost before = self.entries@;
        match self.position(key.as_str()) {
            Some(i) => {
                let mut entries: Vec<(String, V)> = Vec::new();
                core::mem::swap(&mut entries, &mut self.entries);
                let ghost k = entries@[i as int].0;
                entries.set(i, (key, value));
                proof {
                    let after = entries@;
                    assert(distinct_keys(after));
                    assert forall|x: Seq<char>| holds_key(after, x) == holds_key(before, x) by {
                        if holds_key(after, x) {
                            let j = place_of(after, x);
                            assert(before[j].0@ == x);
                        }
                        if holds_key(before, x) {
                            let j = place_of(before, x);
                            assert(after[j].0@ == x);
                        }
                    }
                    assert forall|x: Seq<char>| #[trigger] holds_key(after, x) implies place_of(
                        after,
                        x,
                    ) == place_of(before, x) by {
                        let j = place_of(after, x);
                        let l = place_of(before, x);
                        assert(before[j].0@ == x);
                        assert(before[l].0@ == x);
                    }
                    assert(holds_key(after, key@)) by {
                        assert(after[i as int].0@ == key@);
                    }
                    assert(after[place_of(after, key@)].0@ == key@);
                    assert(place_of(after, key@) == i);
                }
                self.entries = entries;
                assert(self@ =~= old(self)@.insert(key@, value));
            },
            None => {
                let mut entries: Vec<(String, V)> = Vec::new();
                core::mem::swap(&mut entries, &mut self.entries);
                entries.push((key, value));
                proof {
                    let after = entries@;
                    let n = before.len() as int;
                    assert forall|j: int| 0 <= j < n implies (#[trigger] before[j]).0@ != key@ by {
                        if before[j].0@ == key@ {
                            assert(holds_key(before, key@));
                        }
                    }
                    assert(distinct_keys(after));
                    assert(after[n].0@ == key@);
                    assert forall|x: Seq<char>| holds_key(after, x) == (holds_key(before, x) || x
                        == key@) by {
                        if holds_key(after, x) {
                            let j = place_of(after, x);
                            if j < n {
                                assert(before[j].0@ == x);
                            }
                        }
                        if holds_key(before, x) {
                            let j = place_of(before, x);
                            assert(after[j].0@ == x);
                        }
                    }
                    assert forall|x: Seq<char>| #[trigger] holds_key(before, x) implies place_of(
                        after,
                        x,
                    ) == place_of(before, x) by {
                        let l = place_of(before, x);
                        assert(after[l].0@ == x);
                        let j = place_of(after, x);
                    }
                    assert(place_of(after, key@) == n);
                }
                self.entries = entries;
                assert(self@ =~= old(self)@.insert(key@, value));
            },
        }
    }

    /// The keys, in the order of strings.
    pub fn keys(&self) -> (r: Vec<String>)
        ensures
            r.deep_view().no_duplicates(),
            order::in_order::<String>(r.deep_view()),
            forall|k: Seq<char>| r.deep_view().contains(k) <==> self@.contains_key(k),
    {
        proof {
            use_type_invariant(self);
        }
        let mut out: Vec<String> = Vec::new();
        let mut i: usize = 0;
        while i < self.entries.len()
            invariant
                i <= self.entries.len(),
                out.deep_view() == Seq::new(i as nat, |j: int| self.entries@[j].0@),
            decreases self.entries.len() - i,
        {
            list::push(&mut out, self.entries[i].0.clone());
            i = i + 1;
            assert(out.deep_view() =~= Seq::new(i as nat, |j: int| self.entries@[j].0@));
        }
        let ghost listed = out.deep_view();
        order::sort(&mut out);
        proof {
            order::arranged_in_order::<String>(listed);
            order::arranged_keeps::<String>(listed);
            assert forall|k: Seq<char>|
                out.deep_view().contains(k) <==> self@.contains_key(k) by {
                order::arranged_contains::<String>(listed, k);
                if listed.contains(k) {
                    let j = choose|j: int| 0 <= j < listed.len() && listed[j] == k;
                    assert(self.entries@[j].0@ == k);
                }
                if holds_key(self.entries@, k) {
                    let j = place_of(self.entries@, k);
                    assert(listed[j] == k);
                }
            }
            assert(listed.no_duplicates());
            listed.lemma_multiset_has_no_duplicates();
            out.deep_view().lemma_multiset_has_no_duplicates_conv();
        }
        out
    }
}

impl TextMap<String> {
    /// An independent copy.
    pub fn copied(&self) -> (r: TextMap<String>)
        ensures
            r.deep_view() == self.deep_view(),
    {
        let keys = self.keys();
        let ghost kv = keys.deep_view();
        let mut out: TextMap<String> = TextMap::new();
        let mut i: usize = 0;
        assert(kv.take(0) =~= Seq::empty());
        while i < keys.len()
            invariant
                i <= keys.len(),
                kv == keys.deep_view(),
                forall|k: Seq<char>| kv.contains(k) <==> self@.contains_key(k),
                forall|k: Seq<char>| #[trigger]
                    out.deep_view().contains_key(k) <==> kv.take(i as int).contains(k),
                forall|k: Seq<char>| #[trigger]
                    out.deep_view().contains_key(k) ==> out.deep_view()[k] == self.deep_view()[k],
            decreases keys.len() - i,
        {
            assert(kv[i as int] == keys@[i as int]@);
            assert(kv.contains(kv[i as int]));
            let ghost before = out.deep_view();
            match self.get(keys[i].as_str()) {
                Some(v) => {
                    out.insert(keys[i].clone(), v.clone());
                    assert(out.deep_view() =~= before.insert(kv[i as int], v@));
                    assert(kv.take(i + 1) =~= kv.take(i as int).push(kv[i as int]));
                    assert forall|k: Seq<char>| #[trigger] out.deep_view().contains_key(k)
                        <==> kv.take(i + 1).contains(k) by {
                        if kv.take(i as int).contains(k) {
                            let j = choose|j: int| 0 <= j < i && #[trigger] kv.take(i as int)[j] == k;
                            assert(kv.take(i + 1)[j] == k);
                        }
                        assert(kv.take(i + 1)[i as int] == kv[i as int]);
                    }
                },
                None => {
                    assert(false);
                },
            }
            i = i + 1;
        }
        assert(kv.take(i as int) =~= kv);
        assert(out.deep_view() =~= self.deep_view());
        out
    }
}

} // verus!
