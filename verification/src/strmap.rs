//! A map from text to values, kept as a list in ascending key order.

use crate::text::lemma_lex_irreflexive;
use crate::text::lemma_lex_total;
use crate::text::lemma_lex_transitive;
use crate::text::lex_less;
use crate::text::text_less;
use vstd::prelude::*;

verus! {

/// Whether the keys ascend strictly, so that no key occurs twice.
pub open spec fn ascending(keys: Seq<Seq<char>>) -> bool {
    forall|i: int, j: int| 0 <= i < j < keys.len() ==> lex_less(#[trigger] keys[i], #[trigger] keys[j])
}

/// The keys of a list of entries.
pub open spec fn keys_of<V>(entries: Seq<(String, V)>) -> Seq<Seq<char>> {
    Seq::new(entries.len(), |i: int| entries[i].0@)
}

/// A map keyed by text. Iteration follows ascending key order.
#[derive(Debug, PartialEq, Eq)]
pub struct StrMap<V> {
    entries: Vec<(String, V)>,
}

impl<V> StrMap<V> {
    #[verifier::type_invariant]
    spec fn sorted(self) -> bool {
        ascending(keys_of(self.entries@))
    }

    /// The keys in ascending order.
    pub closed spec fn keys(self) -> Seq<Seq<char>> {
        keys_of(self.entries@)
    }

    /// The values, in the order of their keys.
    pub closed spec fn values(self) -> Seq<V> {
        Seq::new(self.entries@.len(), |i: int| self.entries@[i].1)
    }

    /// The map from key text to value.
    pub open spec fn map(self) -> Map<Seq<char>, V> {
        Map::new(
            |k: Seq<char>| self.keys().contains(k),
            |k: Seq<char>| self.values()[self.keys().index_of(k)],
        )
    }

    pub fn new() -> (r: Self)
        ensures
            r.keys() == Seq::<Seq<char>>::empty(),
            r.values() == Seq::<V>::empty(),
            r.map() == Map::<Seq<char>, V>::empty(),
    {
        let r = StrMap { entries: Vec::new() };
        assert(r.keys() =~= Seq::empty());
        assert(r.map() =~= Map::empty());
        r
    }

    pub fn len(&self) -> (n: usize)
        ensures
            n == self.keys().len(),
            n == self.values().len(),
            ascending(self.keys()),
    {
        proof { use_type_invariant(self); }
        self.entries.len()
    }

    /// The key at position `i` in ascending order.
    pub fn key_at(&self, i: usize) -> (k: &String)
        requires
            i < self.keys().len(),
        ensures
            k@ == self.keys()[i as int],
    {
        &self.entries[i].0
    }

    /// The value at position `i` in ascending key order.
    pub fn value_at(&self, i: usize) -> (v: &V)
        requires
            i < self.values().len(),
        ensures
            *v == self.values()[i as int],
    {
        &self.entries[i].1
    }

    /// The position of `key`, or the position where it would be inserted.
    fn position(&self, key: &str) -> (r: (usize, bool))
        ensures
            r.0 <= self.entries@.len(),
            r.1 ==> r.0 < self.entries@.len() && self.entries@[r.0 as int].0@ == key@,
            forall|i: int| 0 <= i < r.0 ==> lex_less(#[trigger] self.entries@[i].0@, key@),
            !r.1 ==> forall|i: int| r.0 <= i < self.entries@.len() ==> lex_less(key@, #[trigger] self.entries@[i].0@),
    {
        proof { use_type_invariant(self); }
        let mut i: usize = 0;
        while i < self.entries.len() && text_less(self.entries[i].0.as_str(), key)
            invariant
                i <= self.entries@.len(),
                forall|j: int| 0 <= j < i ==> lex_less(#[trigger] self.entries@[j].0@, key@),
            decreases self.entries@.len() - i,
        {
            i = i + 1;
        }
        if i >= self.entries.len() {
            return (i, false);
        }
        if text_less(key, self.entries[i].0.as_str()) {
            assert forall|j: int| i <= j < self.entries@.len() implies lex_less(key@, #[trigger] self.entries@[j].0@) by {
                if j > i {
                    let keys = keys_of(self.entries@);
                    assert(lex_less(keys[i as int], keys[j]));
                    lemma_lex_transitive(key@, keys[i as int], keys[j]);
                }
            }
            (i, false)
        } else {
            proof { lemma_lex_total(key@, self.entries@[i as int].0@); }
            (i, true)
        }
    }

    /// The value stored under `key`.
    pub fn get(&self, key: &str) -> (r: Option<&V>)
        ensures
            match r {
                Some(v) => self.map().dom().contains(key@) && *v == self.map()[key@],
                None => !self.map().dom().contains(key@),
            },
    {
        let (i, found) = self.position(key);
        proof { use_type_invariant(self); }
        let ghost keys = self.keys();
        if found {
            proof {
                assert(keys[i as int] == key@);
                let j = keys.index_of(key@);
                assert(keys.contains(key@));
                if j != i {
                    if j < i { assert(lex_less(keys[j], keys[i as int])); } else { assert(lex_less(keys[i as int], keys[j])); }
                    lemma_lex_irreflexive(key@);
                }
            }
            Some(&self.entries[i].1)
        } else {
            proof {
                if keys.contains(key@) {
                    let j = keys.index_of(key@);
                    lemma_lex_irreflexive(key@);
                    assert(self.entries@[j].0@ == key@);
                }
            }
            None
        }
    }

    /// Stores `value` under `key`, replacing what was there.
    pub fn insert(&mut self, key: String, value: V)
        ensures
            final(self).map() == old(self).map().insert(key@, value),
    {
        let (i, found) = self.position(key.as_str());
        proof { use_type_invariant(&*self); }
        let ghost before = self.entries@;
        let ghost keyv = key@;
        let mut entries: Vec<(String, V)> = Vec::new();
        std::mem::swap(&mut entries, &mut self.entries);
        if found {
            entries.set(i, (key, value));
            proof {
                assert(keys_of(entries@) =~= keys_of(before));
            }
        } else {
            entries.insert(i, (key, value));
            proof {
                let keys = keys_of(entries@);
                let old_keys = keys_of(before);
                assert forall|a: int, b: int| 0 <= a < b < keys.len() implies lex_less(#[trigger] keys[a], #[trigger] keys[b]) by {
                    let oa = if a < i { a } else { a - 1 };
                    let ob = if b < i { b } else { b - 1 };
                    if a == i {
                        assert(lex_less(keyv, before[ob].0@));
                    } else if b == i {
                        assert(lex_less(before[oa].0@, keyv));
                    } else {
                        assert(lex_less(old_keys[oa], old_keys[ob]));
                    }
                }
            }
        }
        std::mem::swap(&mut entries, &mut self.entries);
        proof {
            lemma_map_after(*old(self), *self, i as int, found, keyv, value);
        }
    }
}

impl<V: Clone> Clone for StrMap<V> {
    fn clone(&self) -> (r: Self)
        ensures
            r.keys() == self.keys(),
            r.values().len() == self.values().len(),
            forall|i: int| 0 <= i < self.values().len() ==> cloned::<V>(#[trigger] self.values()[i], r.values()[i]),
    {
        proof { use_type_invariant(self); }
        let mut entries: Vec<(String, V)> = Vec::new();
        let mut i: usize = 0;
        while i < self.entries.len()
            invariant
                i <= self.entries@.len(),
                entries@.len() == i,
                forall|j: int| 0 <= j < i ==> (#[trigger] entries@[j]).0@ == self.entries@[j].0@ && cloned::<V>(self.entries@[j].1, entries@[j].1),
            decreases self.entries@.len() - i,
        {
            entries.push((self.entries[i].0.clone(), self.entries[i].1.clone()));
            i = i + 1;
        }
        assert(keys_of(entries@) =~= keys_of(self.entries@));
        StrMap { entries }
    }
}

proof fn lemma_unique<V>(m: StrMap<V>, i: int)
    requires
        ascending(keys_of(m.entries@)),
        0 <= i < m.entries@.len(),
    ensures
        m.map().dom().contains(m.entries@[i].0@),
        m.map()[m.entries@[i].0@] == m.entries@[i].1,
{
    let keys = m.keys();
    let k = keys[i];
    assert(keys.contains(k));
    let j = keys.index_of(k);
    if j < i {
        assert(lex_less(keys[j], keys[i]));
        lemma_lex_irreflexive(k);
    } else if i < j {
        assert(lex_less(keys[i], keys[j]));
        lemma_lex_irreflexive(k);
    }
}

proof fn lemma_map_after<V>(before: StrMap<V>, after: StrMap<V>, i: int, found: bool, key: Seq<char>, value: V)
    requires
        ascending(keys_of(before.entries@)),
        ascending(keys_of(after.entries@)),
        0 <= i < after.entries@.len(),
        after.entries@[i].0@ == key,
        after.entries@[i].1 == value,
        found ==> i < before.entries@.len() && before.entries@[i].0@ == key && after.entries@ == before.entries@.update(i, after.entries@[i]),
        !found ==> i <= before.entries@.len() && after.entries@ == before.entries@.insert(i, after.entries@[i]),
    ensures
        after.map() == before.map().insert(key, value),
{
    let a = after.map();
    let b = before.map().insert(key, value);
    assert forall|k: Seq<char>| a.dom().contains(k) implies #[trigger] b.dom().contains(k) && a[k] == b[k] by {
        let j = after.keys().index_of(k);
        lemma_unique(after, j);
        if k != key {
            let o = if found || j < i { j } else { j - 1 };
            lemma_unique(before, o);
        } else {
            lemma_unique(after, i);
        }
    }
    assert forall|k: Seq<char>| b.dom().contains(k) implies #[trigger] a.dom().contains(k) by {
        if k == key {
            lemma_unique(after, i);
        } else {
            let o = before.keys().index_of(k);
            lemma_unique(before, o);
            let j = if found || o < i { o } else { o + 1 };
            lemma_unique(after, j);
        }
    }
    assert(a =~= b);
}

/// Ascending lists of the same keys are equal.
pub proof fn lemma_same_keys(a: Seq<Seq<char>>, b: Seq<Seq<char>>)
    requires
        ascending(a),
        ascending(b),
        forall|x: Seq<char>| #[trigger] a.contains(x) <==> b.contains(x),
    ensures
        a == b,
    decreases a.len(),
{
    if a.len() == 0 {
        if b.len() > 0 {
            assert(b.contains(b[0]) && a.contains(b[0]));
        }
        assert(a =~= b);
    } else {
        let x = a.last();
        assert(a.contains(x) && b.contains(x));
        let y = b.last();
        assert(b.contains(y) && a.contains(y));
        let i = choose|i: int| 0 <= i < a.len() && a[i] == y;
        let j = choose|j: int| 0 <= j < b.len() && b[j] == x;
        if x != y {
            assert(lex_less(a[i], a[a.len() - 1]));
            assert(lex_less(b[j], b[b.len() - 1]));
            lemma_lex_transitive(x, y, x);
            lemma_lex_irreflexive(x);
        }
        let a1 = a.drop_last();
        let b1 = b.drop_last();
        lemma_lex_irreflexive(x);
        assert forall|z: Seq<char>| #[trigger] a1.contains(z) <==> b1.contains(z) by {
            if a1.contains(z) {
                let k = choose|k: int| 0 <= k < a1.len() && a1[k] == z;
                assert(a[k] == z && lex_less(a[k], a[a.len() - 1]));
                assert(a.contains(a[k]));
                assert(b.contains(z));
                let m = choose|m: int| 0 <= m < b.len() && b[m] == z;
                assert(b1[m] == z);
            }
            if b1.contains(z) {
                let k = choose|k: int| 0 <= k < b1.len() && b1[k] == z;
                assert(b[k] == z && lex_less(b[k], b[b.len() - 1]));
                assert(b.contains(b[k]));
                assert(a.contains(z));
                let m = choose|m: int| 0 <= m < a.len() && a[m] == z;
                assert(a1[m] == z);
            }
        }
        assert forall|i: int, j: int| 0 <= i < j < a1.len() implies lex_less(#[trigger] a1[i], #[trigger] a1[j]) by {
            assert(lex_less(a[i], a[j]));
        }
        assert forall|i: int, j: int| 0 <= i < j < b1.len() implies lex_less(#[trigger] b1[i], #[trigger] b1[j]) by {
            assert(lex_less(b[i], b[j]));
        }
        lemma_same_keys(a1, b1);
        assert(a =~= a1.push(x));
        assert(b =~= b1.push(y));
    }
}

/// Ascending keys are distinct.
pub proof fn lemma_ascending_distinct(keys: Seq<Seq<char>>)
    requires
        ascending(keys),
    ensures
        keys.no_duplicates(),
{
    assert forall|i: int, j: int| 0 <= i < keys.len() && 0 <= j < keys.len() && i != j implies keys[i] != keys[j] by {
        if keys[i] == keys[j] {
            lemma_lex_irreflexive(keys[i]);
            if i < j {
                assert(lex_less(keys[i], keys[j]));
            } else {
                assert(lex_less(keys[j], keys[i]));
            }
        }
    }
}

/// The entry at position `i` maps its key to its value.
pub proof fn lemma_entry<V>(m: StrMap<V>, i: int)
    requires
        ascending(m.keys()),
        0 <= i < m.keys().len(),
    ensures
        m.map().dom().contains(m.keys()[i]),
        m.map()[m.keys()[i]] == m.values()[i],
{
    lemma_unique(m, i);
}

} // verus!
