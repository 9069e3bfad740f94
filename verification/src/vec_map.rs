//! A small association map kept in insertion order.
//!
//! The node keeps its peers, in-flight requests and pending blocks in maps whose
//! keys are plain values. `VecMap` stores the entries in a `Vec`, keeps every key
//! at most once, and is viewed as a mathematical `Map`. Iteration follows the
//! order of `entries()`, which is the order in which keys were first inserted.
use vstd::prelude::*;

verus! {

/// A key that can be compared in executable code with the meaning of spec equality.
pub trait MapKey: Sized + Copy {
    fn same_key(&self, other: &Self) -> (same: bool)
        ensures
            same == (*self == *other),
    ;
}

impl MapKey for u32 {
    fn same_key(&self, other: &Self) -> (same: bool) {
        *self == *other
    }
}

impl MapKey for u64 {
    fn same_key(&self, other: &Self) -> (same: bool) {
        *self == *other
    }
}

/// An insertion-ordered map with unique keys.
pub struct VecMap<K, V> {
    entries: Vec<(K, V)>,
}

/// The position of `k` among the keys of `s`, if it occurs.
pub open spec fn key_at<K, V>(s: Seq<(K, V)>, k: K, i: int) -> bool {
    0 <= i < s.len() && s[i].0 == k
}

/// Whether no key occurs twice in `s`.
pub open spec fn unique_keys<K, V>(s: Seq<(K, V)>) -> bool {
    forall|i: int, j: int| 0 <= i < s.len() && 0 <= j < s.len() && i != j ==> s[i].0 != s[j].0
}

/// The map that a duplicate-free sequence of entries stands for.
pub open spec fn entries_map<K, V>(s: Seq<(K, V)>) -> Map<K, V> {
    Map::new(
        |k: K| exists|i: int| key_at(s, k, i),
        |k: K| s[choose|i: int| key_at(s, k, i)].1,
    )
}

/// In a duplicate-free sequence, entry `i` is what the map holds for its key.
pub proof fn lemma_entries_map_at<K, V>(s: Seq<(K, V)>, i: int)
    requires
        unique_keys(s),
        0 <= i < s.len(),
    ensures
        entries_map(s).contains_key(s[i].0),
        entries_map(s)[s[i].0] == s[i].1,
{
    assert(key_at(s, s[i].0, i));
    let j = choose|j: int| key_at(s, s[i].0, j);
    assert(key_at(s, s[i].0, j));
}

/// A key that occurs at no position is not in the map.
pub proof fn lemma_entries_map_absent<K, V>(s: Seq<(K, V)>, k: K)
    requires
        forall|i: int| 0 <= i < s.len() ==> s[i].0 != k,
    ensures
        !entries_map(s).contains_key(k),
{
}

/// Dropping the last entry of a duplicate-free sequence drops its key from the map.
pub proof fn lemma_entries_map_drop_last<K, V>(s: Seq<(K, V)>)
    requires
        unique_keys(s),
        s.len() > 0,
    ensures
        unique_keys(s.drop_last()),
        entries_map(s.drop_last()) == entries_map(s).remove(s.last().0),
        entries_map(s).contains_key(s.last().0),
{
    let d = s.drop_last();
    let k = s.last().0;
    assert forall|a: int, b: int| 0 <= a < d.len() && 0 <= b < d.len() && a != b implies d[a].0 != d[b].0 by {
        assert(d[a] == s[a] && d[b] == s[b]);
    }
    lemma_entries_map_at(s, s.len() - 1);
    assert forall|key: K| #[trigger] entries_map(d).contains_key(key) == entries_map(s).remove(k).contains_key(key) by {
        if entries_map(d).contains_key(key) {
            let a = choose|a: int| key_at(d, key, a);
            assert(key_at(d, key, a));
            assert(s[a] == d[a]);
            assert(key_at(s, key, a));
            assert(a != s.len() - 1);
        }
        if entries_map(s).remove(k).contains_key(key) {
            let a = choose|a: int| key_at(s, key, a);
            assert(key_at(s, key, a));
            assert(a != s.len() - 1);
            assert(key_at(d, key, a));
        }
    }
    assert forall|key: K| #[trigger] entries_map(d).contains_key(key) implies entries_map(d)[key] == entries_map(s).remove(k)[key] by {
        let a = choose|a: int| key_at(d, key, a);
        assert(key_at(d, key, a));
        lemma_entries_map_at(d, a);
        assert(s[a] == d[a]);
        lemma_entries_map_at(s, a);
    }
    assert(entries_map(d) =~= entries_map(s).remove(k));
}

/// A duplicate-free sequence holds as many entries as its map holds keys.
pub proof fn lemma_entries_map_len<K, V>(s: Seq<(K, V)>)
    requires
        unique_keys(s),
    ensures
        entries_map(s).dom().finite(),
        entries_map(s).dom().len() == s.len(),
    decreases s.len(),
{
    if s.len() == 0 {
        assert(entries_map(s).dom() =~= Set::<K>::empty());
    } else {
        lemma_entries_map_drop_last(s);
        lemma_entries_map_len(s.drop_last());
        let m = entries_map(s);
        assert(m.dom() =~= entries_map(s.drop_last()).dom().insert(s.last().0));
    }
}

impl<K, V> VecMap<K, V> {
    /// The entries, in iteration order.
    pub closed spec fn entries(&self) -> Seq<(K, V)> {
        self.entries@
    }

    /// Keys are unique.
    pub open spec fn wf(&self) -> bool {
        unique_keys(self.entries())
    }

    pub open spec fn view(&self) -> Map<K, V> {
        entries_map(self.entries())
    }

    pub fn new() -> (m: Self)
        ensures
            m.wf(),
            m.entries() == Seq::<(K, V)>::empty(),
            m@ == Map::<K, V>::empty(),
    {
        let m = VecMap { entries: Vec::new() };
        assert(m@ =~= Map::<K, V>::empty());
        m
    }

    pub fn len(&self) -> (n: usize)
        ensures
            n == self.entries().len(),
            self.wf() ==> n == self@.dom().len() && self@.dom().finite(),
    {
        proof {
            if self.wf() {
                lemma_entries_map_len(self.entries());
            }
        }
        self.entries.len()
    }

    pub fn is_empty(&self) -> (b: bool)
        requires
            self.wf(),
        ensures
            b == (self.entries().len() == 0),
            b == (self@.dom() == Set::<K>::empty()),
    {
        proof {
            if self.entries().len() != 0 {
                lemma_entries_map_at(self.entries(), 0);
                assert(self@.dom().contains(self.entries()[0].0));
            } else {
                assert(self@.dom() =~= Set::<K>::empty());
            }
        }
        self.entries.len() == 0
    }

    /// The entry at position `i` in iteration order.
    pub fn entry_at(&self, i: usize) -> (e: &(K, V))
        requires
            i < self.entries().len(),
        ensures
            *e == self.entries()[i as int],
    {
        &self.entries[i]
    }
}

impl<K: MapKey, V> VecMap<K, V> {
    /// Finds the position of `k` in iteration order.
    pub fn position(&self, k: &K) -> (r: Option<usize>)
        requires
            self.wf(),
        ensures
            r matches Some(i) ==> key_at(self.entries(), *k, i as int),
            r is None ==> !self@.contains_key(*k),
            r is None <==> !self@.contains_key(*k),
    {
        let mut i: usize = 0;
        while i < self.entries.len()
            invariant
                self.wf(),
                i <= self.entries().len(),
                forall|j: int| 0 <= j < i ==> self.entries()[j].0 != *k,
            decreases self.entries().len() - i,
        {
            if self.entries[i].0.same_key(k) {
                proof {
                    lemma_entries_map_at(self.entries(), i as int);
                }
                return Some(i);
            }
            i = i + 1;
        }
        proof {
            lemma_entries_map_absent(self.entries(), *k);
        }
        None
    }

    pub fn contains_key(&self, k: &K) -> (b: bool)
        requires
            self.wf(),
        ensures
            b == self@.contains_key(*k),
    {
        match self.position(k) {
            Some(i) => {
                proof {
                    lemma_entries_map_at(self.entries(), i as int);
                }
                true
            },
            None => false,
        }
    }

    pub fn get(&self, k: &K) -> (r: Option<&V>)
        requires
            self.wf(),
        ensures
            r matches Some(v) ==> self@.contains_key(*k) && *v == self@[*k],
            r is None ==> !self@.contains_key(*k),
    {
        match self.position(k) {
            Some(i) => {
                proof {
                    lemma_entries_map_at(self.entries(), i as int);
                }
                Some(&self.entries[i].1)
            },
            None => None,
        }
    }
}

impl<K: MapKey, V> VecMap<K, V> {
    /// Maps `k` to `v`. A present key keeps its position; a new key goes last.
    pub fn insert(&mut self, k: K, v: V)
        requires
            old(self).wf(),
        ensures
            final(self).wf(),
            final(self)@ == old(self)@.insert(k, v),
            old(self)@.contains_key(k) ==> final(self).entries() == old(self).entries().update(
                choose|i: int| key_at(old(self).entries(), k, i),
                (k, v),
            ),
            !old(self)@.contains_key(k) ==> final(self).entries() == old(self).entries().push((k, v)),
    {
        match self.position(&k) {
            Some(i) => {
                let ghost s0 = self.entries@;
                proof {
                    let j = choose|j: int| key_at(s0, k, j);
                    assert(key_at(s0, k, j));
                    assert(j == i);
                }
                self.entries.set(i, (k, v));
                proof {
                    let s1 = self.entries@;
                    assert forall|a: int, b: int|
                        0 <= a < s1.len() && 0 <= b < s1.len() && a != b implies s1[a].0
                        != s1[b].0 by {
                        assert(s1[a].0 == s0[a].0);
                        assert(s1[b].0 == s0[b].0);
                    }
                    assert forall|key: K| #[trigger]
                        entries_map(s1).contains_key(key) == old(self)@.insert(
                            k,
                            v,
                        ).contains_key(key) by {
                        if entries_map(s1).contains_key(key) {
                            let a = choose|a: int| key_at(s1, key, a);
                            assert(key_at(s1, key, a));
                            if key != k {
                                assert(key_at(s0, key, a));
                            }
                        }
                        if old(self)@.contains_key(key) {
                            let a = choose|a: int| key_at(s0, key, a);
                            assert(key_at(s0, key, a));
                            assert(key_at(s1, key, a));
                        }
                        if key == k {
                            assert(key_at(s1, key, i as int));
                        }
                    }
                    assert forall|key: K| #[trigger]
                        entries_map(s1).contains_key(key) implies entries_map(s1)[key]
                        == old(self)@.insert(k, v)[key] by {
                        let a = choose|a: int| key_at(s1, key, a);
                        assert(key_at(s1, key, a));
                        lemma_entries_map_at(s1, a);
                        if key != k {
                            assert(key_at(s0, key, a));
                            lemma_entries_map_at(s0, a);
                        }
                    }
                    assert(entries_map(s1) =~= old(self)@.insert(k, v));
                }
            },
            None => {
                let ghost s0 = self.entries@;
                self.entries.push((k, v));
                proof {
                    let s1 = self.entries@;
                    assert forall|a: int| 0 <= a < s0.len() implies s0[a].0 != k by {
                        if s0[a].0 == k {
                            assert(key_at(s0, k, a));
                        }
                    }
                    assert forall|a: int, b: int|
                        0 <= a < s1.len() && 0 <= b < s1.len() && a != b implies s1[a].0
                        != s1[b].0 by {
                        if a < s0.len() && b < s0.len() {
                            assert(s1[a] == s0[a]);
                            assert(s1[b] == s0[b]);
                        }
                    }
                    assert forall|key: K| #[trigger]
                        entries_map(s1).contains_key(key) == old(self)@.insert(
                            k,
                            v,
                        ).contains_key(key) by {
                        if entries_map(s1).contains_key(key) {
                            let a = choose|a: int| key_at(s1, key, a);
                            assert(key_at(s1, key, a));
                            if a < s0.len() {
                                assert(key_at(s0, key, a));
                            }
                        }
                        if old(self)@.contains_key(key) {
                            let a = choose|a: int| key_at(s0, key, a);
                            assert(key_at(s0, key, a));
                            assert(key_at(s1, key, a));
                        }
                        if key == k {
                            assert(key_at(s1, key, s0.len() as int));
                        }
                    }
                    assert forall|key: K| #[trigger]
                        entries_map(s1).contains_key(key) implies entries_map(s1)[key]
                        == old(self)@.insert(k, v)[key] by {
                        let a = choose|a: int| key_at(s1, key, a);
                        assert(key_at(s1, key, a));
                        lemma_entries_map_at(s1, a);
                        if key != k {
                            assert(a < s0.len());
                            assert(key_at(s0, key, a));
                            lemma_entries_map_at(s0, a);
                        }
                    }
                    assert(entries_map(s1) =~= old(self)@.insert(k, v));
                }
            },
        }
    }

    /// Removes the entry at position `i`, keeping the order of the others.
    pub fn remove_at(&mut self, i: usize) -> (e: (K, V))
        requires
            old(self).wf(),
            i < old(self).entries().len(),
        ensures
            final(self).wf(),
            e == old(self).entries()[i as int],
            final(self).entries() == old(self).entries().remove(i as int),
            final(self)@ == old(self)@.remove(e.0),
    {
        let ghost s0 = self.entries@;
        let e = self.entries.remove(i);
        proof {
            let s1 = self.entries@;
            assert forall|a: int| 0 <= a < s1.len() implies #[trigger] s1[a] == (if a < i {
                s0[a]
            } else {
                s0[a + 1]
            }) by {}
            assert forall|a: int, b: int|
                0 <= a < s1.len() && 0 <= b < s1.len() && a != b implies s1[a].0 != s1[b].0 by {
                let a0 = if a < i { a } else { a + 1 };
                let b0 = if b < i { b } else { b + 1 };
                assert(s1[a] == s0[a0]);
                assert(s1[b] == s0[b0]);
            }
            assert forall|key: K| #[trigger]
                entries_map(s1).contains_key(key) == entries_map(s0).remove(e.0).contains_key(
                    key,
                ) by {
                if entries_map(s1).contains_key(key) {
                    let a = choose|a: int| key_at(s1, key, a);
                    assert(key_at(s1, key, a));
                    let a0 = if a < i { a } else { a + 1 };
                    assert(s1[a] == s0[a0]);
                    assert(key_at(s0, key, a0));
                    assert(a0 != i);
                }
                if entries_map(s0).remove(e.0).contains_key(key) {
                    let a0 = choose|a: int| key_at(s0, key, a);
                    assert(key_at(s0, key, a0));
                    assert(a0 != i);
                    let a = if a0 < i { a0 } else { a0 - 1 };
                    assert(s1[a] == s0[a0]);
                    assert(key_at(s1, key, a));
                }
            }
            assert forall|key: K| #[trigger]
                entries_map(s1).contains_key(key) implies entries_map(s1)[key] == entries_map(
                s0,
            ).remove(e.0)[key] by {
                let a = choose|a: int| key_at(s1, key, a);
                assert(key_at(s1, key, a));
                lemma_entries_map_at(s1, a);
                let a0 = if a < i { a } else { a + 1 };
                assert(s1[a] == s0[a0]);
                lemma_entries_map_at(s0, a0);
            }
            assert(entries_map(s1) =~= entries_map(s0).remove(e.0));
        }
        e
    }

    /// Removes `k`, returning its value if it was present.
    pub fn remove(&mut self, k: &K) -> (r: Option<V>)
        requires
            old(self).wf(),
        ensures
            final(self).wf(),
            final(self)@ == old(self)@.remove(*k),
            r matches Some(v) ==> old(self)@.contains_key(*k) && v == old(self)@[*k],
            r is None <==> !old(self)@.contains_key(*k),
            r is None ==> final(self).entries() == old(self).entries(),
    {
        match self.position(k) {
            Some(i) => {
                proof {
                    lemma_entries_map_at(self.entries(), i as int);
                }
                let e = self.remove_at(i);
                Some(e.1)
            },
            None => {
                assert(self@.remove(*k) =~= self@);
                None
            },
        }
    }

    /// Puts `e` back at position `i`; its key must be absent.
    pub fn insert_at(&mut self, i: usize, e: (K, V))
        requires
            old(self).wf(),
            i <= old(self).entries().len(),
            !old(self)@.contains_key(e.0),
        ensures
            final(self).wf(),
            final(self).entries() == old(self).entries().insert(i as int, e),
            final(self)@ == old(self)@.insert(e.0, e.1),
    {
        let ghost s0 = self.entries@;
        proof {
            assert forall|a: int| 0 <= a < s0.len() implies s0[a].0 != e.0 by {
                if s0[a].0 == e.0 {
                    lemma_entries_map_at(s0, a);
                }
            }
        }
        self.entries.insert(i, e);
        proof {
            let s1 = self.entries@;
            assert forall|a: int| 0 <= a < s1.len() implies #[trigger] s1[a] == (if a < i {
                s0[a]
            } else if a == i {
                e
            } else {
                s0[a - 1]
            }) by {}
            assert forall|a: int, b: int|
                0 <= a < s1.len() && 0 <= b < s1.len() && a != b implies s1[a].0 != s1[b].0 by {
                if a != i && b != i {
                    let a0 = if a < i { a } else { a - 1 };
                    let b0 = if b < i { b } else { b - 1 };
                    assert(s1[a] == s0[a0]);
                    assert(s1[b] == s0[b0]);
                } else if a == i {
                    let b0 = if b < i { b } else { b - 1 };
                    assert(s1[b] == s0[b0]);
                } else {
                    let a0 = if a < i { a } else { a - 1 };
                    assert(s1[a] == s0[a0]);
                }
            }
            assert forall|key: K| #[trigger]
                entries_map(s1).contains_key(key) == entries_map(s0).insert(e.0, e.1).contains_key(
                    key,
                ) by {
                if entries_map(s1).contains_key(key) {
                    let a = choose|a: int| key_at(s1, key, a);
                    assert(key_at(s1, key, a));
                    if a != i {
                        let a0 = if a < i { a } else { a - 1 };
                        assert(s1[a] == s0[a0]);
                        assert(key_at(s0, key, a0));
                    }
                }
                if entries_map(s0).contains_key(key) {
                    let a0 = choose|a: int| key_at(s0, key, a);
                    assert(key_at(s0, key, a0));
                    let a = if a0 < i { a0 } else { a0 + 1 };
                    assert(s1[a] == s0[a0]);
                    assert(key_at(s1, key, a));
                }
                if key == e.0 {
                    assert(key_at(s1, key, i as int));
                }
            }
            assert forall|key: K| #[trigger]
                entries_map(s1).contains_key(key) implies entries_map(s1)[key] == entries_map(
                s0,
            ).insert(e.0, e.1)[key] by {
                let a = choose|a: int| key_at(s1, key, a);
                assert(key_at(s1, key, a));
                lemma_entries_map_at(s1, a);
                if a != i {
                    let a0 = if a < i { a } else { a - 1 };
                    assert(s1[a] == s0[a0]);
                    lemma_entries_map_at(s0, a0);
                }
            }
            assert(entries_map(s1) =~= entries_map(s0).insert(e.0, e.1));
        }
    }
}

} // verus!
