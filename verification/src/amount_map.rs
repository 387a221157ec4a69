//! A map from amount strings to values that keeps its keys in the order in
//! which they were first inserted.

use vstd::prelude::*;

verus! {

/// True when no key occurs twice in `e`.
pub open spec fn keys_distinct<W>(e: Seq<(Seq<char>, W)>) -> bool {
    forall|i: int, j: int|
        0 <= i < e.len() && 0 <= j < e.len() && i != j ==> #[trigger] e[i].0 != #[trigger] e[j].0
}

/// True when `k` is a key of `e`.
pub open spec fn has_key<W>(e: Seq<(Seq<char>, W)>, k: Seq<char>) -> bool {
    exists|i: int| 0 <= i < e.len() && #[trigger] e[i].0 == k
}

/// The position of the key `k` in `e`, where it has one.
pub open spec fn key_index<W>(e: Seq<(Seq<char>, W)>, k: Seq<char>) -> int {
    choose|i: int| 0 <= i < e.len() && #[trigger] e[i].0 == k
}

/// The value that `e` gives the key `k`.
pub open spec fn lookup<W>(e: Seq<(Seq<char>, W)>, k: Seq<char>) -> Option<W> {
    if has_key(e, k) {
        Some(e[key_index(e, k)].1)
    } else {
        None
    }
}

/// `e` with the value of `k` set to `v`: in place where `k` is a key, else
/// as a new last entry.
pub open spec fn insert_entry<W>(e: Seq<(Seq<char>, W)>, k: Seq<char>, v: W) -> Seq<(Seq<char>, W)> {
    if has_key(e, k) {
        e.update(key_index(e, k), (k, v))
    } else {
        e.push((k, v))
    }
}

/// `e` without the entry of `k`; the other entries keep their order.
pub open spec fn remove_entry<W>(e: Seq<(Seq<char>, W)>, k: Seq<char>) -> Seq<(Seq<char>, W)> {
    if has_key(e, k) {
        e.remove(key_index(e, k))
    } else {
        e
    }
}

/// The keys of `e`, in order.
pub open spec fn keys_of<W>(e: Seq<(Seq<char>, W)>) -> Seq<Seq<char>> {
    e.map_values(|p: (Seq<char>, W)| p.0)
}

/// With distinct keys, the entry at `i` is the one that `key_index` finds.
pub proof fn lemma_key_index<W>(e: Seq<(Seq<char>, W)>, i: int)
    requires
        keys_distinct(e),
        0 <= i < e.len(),
    ensures
        has_key(e, e[i].0),
        key_index(e, e[i].0) == i,
        lookup(e, e[i].0) == Some(e[i].1),
{
    assert(e[i].0 == e[i].0);
}

/// A map from amounts to values; each amount occurs at most once, and the
/// entries stay in the order in which their keys were first inserted.
pub struct AmountMap<V> {
    entries: Vec<(String, V)>,
}

impl<V> AmountMap<V> {
    /// The entries, each key by its characters.
    pub closed spec fn entries(&self) -> Seq<(Seq<char>, V)> {
        self.entries@.map_values(|p: (String, V)| (p.0@, p.1))
    }

    /// No key occurs twice.
    pub open spec fn wf(&self) -> bool {
        keys_distinct(self.entries())
    }

    /// An empty map.
    pub fn new() -> (m: Self)
        ensures
            m.wf(),
            m.entries() == Seq::<(Seq<char>, V)>::empty(),
    {
        let m = AmountMap { entries: Vec::new() };
        assert(m.entries() =~= Seq::<(Seq<char>, V)>::empty());
        m
    }

    /// The number of entries.
    pub fn len(&self) -> (n: usize)
        ensures
            n == self.entries().len(),
    {
        self.entries.len()
    }

    /// The key of the entry at `i`.
    pub fn key_at(&self, i: usize) -> (k: &String)
        requires
            i < self.entries().len(),
        ensures
            k@ == self.entries()[i as int].0,
    {
        &self.entries[i].0
    }

    /// The value of the entry at `i`.
    pub fn value_at(&self, i: usize) -> (v: &V)
        requires
            i < self.entries().len(),
        ensures
            *v == self.entries()[i as int].1,
    {
        &self.entries[i].1
    }

    /// The position of `key`, if it is a key.
    pub fn find(&self, key: &String) -> (r: Option<usize>)
        requires
            self.wf(),
        ensures
            match r {
                Some(i) => i < self.entries().len() && self.entries()[i as int].0 == key@
                    && key_index(self.entries(), key@) == i,
                None => !has_key(self.entries(), key@),
            },
    {
        let n = self.entries.len();
        let mut i: usize = 0;
        while i < n
            invariant
                self.wf(),
                n == self.entries().len(),
                i <= n,
                forall|j: int| 0 <= j < i ==> #[trigger] self.entries()[j].0 != key@,
            decreases n - i,
        {
            if self.entries[i].0 == *key {
                proof {
                    lemma_key_index(self.entries(), i as int);
                }
                return Some(i);
            }
            i = i + 1;
        }
        None
    }

    /// The value of `key`, if it is a key.
    pub fn get(&self, key: &String) -> (r: Option<&V>)
        requires
            self.wf(),
        ensures
            match r {
                Some(v) => lookup(self.entries(), key@) == Some(*v),
                None => lookup(self.entries(), key@) is None,
            },
    {
        match self.find(key) {
            Some(i) => Some(&self.entries[i].1),
            None => None,
        }
    }

    /// Sets the value of `key` to `value`: in place where `key` is a key,
    /// else as a new last entry.
    pub fn insert(&mut self, key: String, value: V)
        requires
            old(self).wf(),
        ensures
            final(self).wf(),
            final(self).entries() == insert_entry(old(self).entries(), key@, value),
    {
        let ghost k = key@;
        match self.find(&key) {
            Some(i) => {
                let _ = self.entries.remove(i);
                self.entries.insert(i, (key, value));
                assert(self.entries() =~= old(self).entries().update(i as int, (k, value)));
            },
            None => {
                self.entries.push((key, value));
                assert(self.entries() =~= old(self).entries().push((k, value)));
            },
        }
    }

    /// Sets the value of the entry at `i` to `value` and gives back the
    /// value it had.
    pub fn replace_value(&mut self, i: usize, value: V) -> (prev: V)
        requires
            old(self).wf(),
            i < old(self).entries().len(),
        ensures
            final(self).wf(),
            prev == old(self).entries()[i as int].1,
            final(self).entries() == old(self).entries().update(
                i as int,
                (old(self).entries()[i as int].0, value),
            ),
    {
        let (k, prev) = self.entries.remove(i);
        self.entries.insert(i, (k, value));
        assert(self.entries() =~= old(self).entries().update(
            i as int,
            (old(self).entries()[i as int].0, value),
        ));
        prev
    }

    /// Removes the entry of `key`, if there is one, and gives back its
    /// value; the other entries keep their order.
    pub fn remove(&mut self, key: &String) -> (r: Option<V>)
        requires
            old(self).wf(),
        ensures
            final(self).wf(),
            r == lookup(old(self).entries(), key@),
            final(self).entries() == remove_entry(old(self).entries(), key@),
    {
        match self.find(key) {
            Some(i) => {
                let (_, v) = self.entries.remove(i);
                assert(self.entries() =~= old(self).entries().remove(i as int));
                Some(v)
            },
            None => None,
        }
    }
}

} // verus!

verus! {

/// After a value is set for a key, looking that key up gives the value,
/// looking up any other key gives what it gave before, and the keys stay
/// distinct.
pub proof fn law_lookup_after_insert<W>(e: Seq<(Seq<char>, W)>, k: Seq<char>, v: W, k2: Seq<char>)
    requires
        keys_distinct(e),
    ensures
        keys_distinct(insert_entry(e, k, v)),
        lookup(insert_entry(e, k, v), k) == Some(v),
        k2 != k ==> lookup(insert_entry(e, k, v), k2) == lookup(e, k2),
{
    let f = insert_entry(e, k, v);
    if has_key(e, k) {
        let i = key_index(e, k);
        assert forall|a: int, b: int| 0 <= a < f.len() && 0 <= b < f.len() && a != b implies #[trigger] f[a].0 != #[trigger] f[b].0 by {
            assert(f[a].0 == e[a].0 && f[b].0 == e[b].0);
        }
        lemma_key_index(f, i);
        if k2 != k && has_key(e, k2) {
            let j = key_index(e, k2);
            assert(f[j].0 == k2);
            lemma_key_index(f, j);
        }
        if k2 != k && has_key(f, k2) {
            let j = key_index(f, k2);
            assert(e[j].0 == k2);
        }
    } else {
        assert forall|a: int, b: int| 0 <= a < f.len() && 0 <= b < f.len() && a != b implies #[trigger] f[a].0 != #[trigger] f[b].0 by {
            if a < e.len() && b < e.len() {
                assert(f[a].0 == e[a].0 && f[b].0 == e[b].0);
            } else if a < e.len() {
                assert(f[a].0 == e[a].0);
            } else {
                assert(f[b].0 == e[b].0);
            }
        }
        lemma_key_index(f, e.len() as int);
        if k2 != k && has_key(e, k2) {
            let j = key_index(e, k2);
            assert(f[j].0 == k2);
            lemma_key_index(f, j);
        }
        if k2 != k && has_key(f, k2) {
            let j = key_index(f, k2);
            assert(j < e.len());
            assert(e[j].0 == k2);
        }
    }
}

/// After a key is removed, looking it up gives nothing, looking up any
/// other key gives what it gave before, and the keys stay distinct.
pub proof fn law_lookup_after_remove<W>(e: Seq<(Seq<char>, W)>, k: Seq<char>, k2: Seq<char>)
    requires
        keys_distinct(e),
    ensures
        keys_distinct(remove_entry(e, k)),
        lookup(remove_entry(e, k), k) is None,
        k2 != k ==> lookup(remove_entry(e, k), k2) == lookup(e, k2),
{
    let f = remove_entry(e, k);
    if has_key(e, k) {
        let i = key_index(e, k);
        assert forall|a: int, b: int| 0 <= a < f.len() && 0 <= b < f.len() && a != b implies #[trigger] f[a].0 != #[trigger] f[b].0 by {
            let a2 = if a < i { a } else { a + 1 };
            let b2 = if b < i { b } else { b + 1 };
            assert(f[a].0 == e[a2].0 && f[b].0 == e[b2].0);
        }
        if has_key(f, k) {
            let j = key_index(f, k);
            let j2 = if j < i { j } else { j + 1 };
            assert(e[j2].0 == k);
        }
        if k2 != k && has_key(e, k2) {
            let j = key_index(e, k2);
            let j2 = if j < i { j } else { j - 1 };
            assert(f[j2].0 == k2);
            lemma_key_index(f, j2);
        }
        if k2 != k && has_key(f, k2) {
            let j = key_index(f, k2);
            let j2 = if j < i { j } else { j + 1 };
            assert(e[j2].0 == k2);
        }
    }
}

} // verus!
