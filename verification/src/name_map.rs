//! A small map keyed by names, kept in insertion order.
//!
//! The repository looks extensions, dependencies and dependents up by name;
//! this map stores its entries in a vector, so that walking it is
//! deterministic, and presents them as a `Map<Seq<char>, V>`.

use vstd::prelude::*;

verus! {

/// A map from names to values whose keys are pairwise distinct.
pub struct NameMap<V> {
    entries: Vec<(String, V)>,
}

impl<V> NameMap<V> {
    /// The keys, in the order the entries are stored.
    pub closed spec fn keys(&self) -> Seq<Seq<char>> {
        self.entries@.map_values(|e: (String, V)| e.0@)
    }

    /// The value stored under the entry at position `i`.
    pub closed spec fn value_at(&self, i: int) -> V {
        self.entries@[i].1
    }

    /// The keys never repeat.
    pub closed spec fn wf(&self) -> bool {
        self.keys().no_duplicates()
    }

    /// The map this name map stands for.
    pub closed spec fn view(&self) -> Map<Seq<char>, V> {
        Map::new(
            |k: Seq<char>| self.keys().contains(k),
            |k: Seq<char>| self.value_at(self.keys().index_of(k)),
        )
    }

    proof fn lemma_lookup(&self, i: int)
        requires
            self.keys().no_duplicates(),
            0 <= i < self.entries@.len(),
        ensures
            self.keys()[i] == self.entries@[i].0@,
            self.view().contains_key(self.entries@[i].0@),
            self.view()[self.entries@[i].0@] == self.entries@[i].1,
    {
        let k = self.entries@[i].0@;
        assert(self.keys()[i] == k);
        assert(self.keys().contains(k));
        let j = self.keys().index_of(k);
        assert(self.keys()[j] == k);
        assert(i == j);
    }

    /// The keys, in order, never repeat.
    pub proof fn lemma_keys_distinct(&self)
        requires
            self.wf(),
        ensures
            self.keys().no_duplicates(),
            self.view().dom() == self.keys().to_set(),
            self.view().dom().finite(),
            self.view().dom().len() == self.keys().len(),
    {
        assert(self.view().dom() =~= self.keys().to_set());
        self.keys().unique_seq_to_set();
        vstd::seq_lib::seq_to_set_is_finite(self.keys());
    }

    /// An empty map.
    pub fn new() -> (m: Self)
        ensures
            m.wf(),
            m.view() == Map::<Seq<char>, V>::empty(),
            m.keys() == Seq::<Seq<char>>::empty(),
    {
        let m = NameMap { entries: Vec::new() };
        assert(m.keys() =~= Seq::<Seq<char>>::empty());
        assert(m.view() =~= Map::<Seq<char>, V>::empty());
        m
    }

    /// The number of entries.
    pub fn len(&self) -> (n: usize)
        requires
            self.wf(),
        ensures
            n == self.keys().len(),
            n == self.view().len(),
    {
        proof {
            self.lemma_keys_distinct();
        }
        self.entries.len()
    }

    /// Whether the map has no entries.
    pub fn is_empty(&self) -> (b: bool)
        requires
            self.wf(),
        ensures
            b == (self.view() == Map::<Seq<char>, V>::empty()),
            b == (self.keys().len() == 0),
    {
        proof {
            self.lemma_keys_distinct();
            if self.entries.len() > 0 {
                self.lemma_lookup(0);
            }
            if self.entries.len() == 0 {
                assert(self.view() =~= Map::<Seq<char>, V>::empty());
            }
        }
        self.entries.len() == 0
    }

    /// The key of the entry at position `i`.
    pub fn key_at(&self, i: usize) -> (k: &String)
        requires
            self.wf(),
            i < self.keys().len(),
        ensures
            k@ == self.keys()[i as int],
            self.view().contains_key(k@),
    {
        proof {
            self.lemma_lookup(i as int);
        }
        &self.entries[i].0
    }

    /// The value of the entry at position `i`.
    pub fn value_at_index(&self, i: usize) -> (v: &V)
        requires
            self.wf(),
            i < self.keys().len(),
        ensures
            *v == self.view()[self.keys()[i as int]],
    {
        proof {
            self.lemma_lookup(i as int);
        }
        &self.entries[i].1
    }

    /// The position of `k` among the entries, if it is a key.
    fn find(&self, k: &String) -> (r: Option<usize>)
        ensures
            match r {
                Some(i) => i < self.entries@.len() && self.entries@[i as int].0@ == k@,
                None => !self.keys().contains(k@),
            },
    {
        let n = self.entries.len();
        let mut i: usize = 0;
        while i < n
            invariant
                n == self.entries@.len(),
                i <= n,
                forall|j: int| 0 <= j < i ==> self.entries@[j].0@ != k@,
            decreases n - i,
        {
            if self.entries[i].0 == *k {
                return Some(i);
            }
            i = i + 1;
        }
        proof {
            if self.keys().contains(k@) {
                let j = choose|j: int| 0 <= j < self.keys().len() && self.keys()[j] == k@;
                assert(self.entries@[j].0@ == k@);
            }
        }
        None
    }

    /// Whether `k` is a key.
    pub fn contains_key(&self, k: &String) -> (b: bool)
        requires
            self.wf(),
        ensures
            b == self.view().contains_key(k@),
    {
        match self.find(k) {
            Some(i) => {
                proof {
                    self.lemma_lookup(i as int);
                }
                true
            },
            None => false,
        }
    }

    /// The value stored under `k`, if any.
    pub fn get(&self, k: &String) -> (r: Option<&V>)
        requires
            self.wf(),
        ensures
            match r {
                Some(v) => self.view().contains_key(k@) && *v == self.view()[k@],
                None => !self.view().contains_key(k@),
            },
    {
        match self.find(k) {
            Some(i) => {
                proof {
                    self.lemma_lookup(i as int);
                }
                Some(&self.entries[i].1)
            },
            None => None,
        }
    }

    /// Stores `v` under `k`, replacing the value already there. A new key is
    /// placed after every existing one; an existing key keeps its position.
    pub fn insert(&mut self, k: String, v: V)
        requires
            old(self).wf(),
        ensures
            final(self).wf(),
            final(self).view() == old(self).view().insert(k@, v),
            old(self).keys().contains(k@) ==> final(self).keys() == old(self).keys(),
            !old(self).keys().contains(k@) ==> final(self).keys() == old(self).keys().push(k@),
    {
        let ghost old_self = *self;
        let ghost kv = k@;
        match self.find(&k) {
            Some(i) => {
                self.entries.set(i, (k, v));
                proof {
                    assert(self.keys() =~= old_self.keys());
                    assert(self.keys().no_duplicates());
                    self.lemma_lookup(i as int);
                    assert forall|key: Seq<char>| self.view().contains_key(key) implies
                        old_self.view().insert(kv, v).contains_key(key)
                        && self.view()[key] == old_self.view().insert(kv, v)[key] by {
                        let j = self.keys().index_of(key);
                        assert(self.keys().contains(key));
                        assert(0 <= j < self.keys().len() && self.keys()[j] == key);
                        self.lemma_lookup(j);
                        if j != i {
                            assert(self.entries@[j] == old_self.entries@[j]);
                            old_self.lemma_lookup(j);
                        }
                    }
                    assert forall|key: Seq<char>| old_self.view().insert(kv, v).contains_key(key)
                        implies self.view().contains_key(key) by {
                        if key != kv {
                            assert(old_self.keys().contains(key));
                        }
                    }
                    assert(self.view() =~= old_self.view().insert(kv, v));
                }
            },
            None => {
                self.entries.push((k, v));
                proof {
                    assert(self.keys() =~= old_self.keys().push(kv));
                    assert(self.keys().no_duplicates()) by {
                        assert forall|a: int, b: int|
                            0 <= a < self.keys().len() && 0 <= b < self.keys().len() && a != b
                            implies self.keys()[a] != self.keys()[b] by {
                            if a < old_self.keys().len() && b < old_self.keys().len() {
                            } else if a < old_self.keys().len() {
                                assert(old_self.keys()[a] == self.keys()[a]);
                            } else {
                                assert(old_self.keys()[b] == self.keys()[b]);
                            }
                        }
                    }
                    let n = old_self.keys().len() as int;
                    self.lemma_lookup(n);
                    assert forall|key: Seq<char>| self.view().contains_key(key) implies
                        old_self.view().insert(kv, v).contains_key(key)
                        && self.view()[key] == old_self.view().insert(kv, v)[key] by {
                        let j = self.keys().index_of(key);
                        assert(self.keys().contains(key));
                        assert(0 <= j < self.keys().len() && self.keys()[j] == key);
                        self.lemma_lookup(j);
                        if j < n {
                            assert(self.entries@[j] == old_self.entries@[j]);
                            old_self.lemma_lookup(j);
                        }
                    }
                    assert forall|key: Seq<char>| old_self.view().insert(kv, v).contains_key(key)
                        implies self.view().contains_key(key) by {
                        if key != kv {
                            assert(old_self.keys().contains(key));
                            let j = choose|j: int| 0 <= j < old_self.keys().len() && old_self.keys()[j] == key;
                            assert(self.keys()[j] == key);
                        }
                    }
                    assert(self.view() =~= old_self.view().insert(kv, v));
                }
            },
        }
    }

    /// Removes `k` and returns the value it held, if any. The other entries
    /// keep their order.
    pub fn remove(&mut self, k: &String) -> (r: Option<V>)
        requires
            old(self).wf(),
        ensures
            final(self).wf(),
            final(self).view() == old(self).view().remove(k@),
            match r {
                Some(v) => old(self).view().contains_key(k@) && v == old(self).view()[k@],
                None => !old(self).view().contains_key(k@),
            },
            final(self).keys() == keys_without(old(self).keys(), k@),
    {
        let ghost old_self = *self;
        let ghost kv = k@;
        match self.find(k) {
            Some(i) => {
                proof {
                    old_self.lemma_lookup(i as int);
                }
                let (_, v) = self.entries.remove(i);
                proof {
                    let pred = |key: Seq<char>| key != kv;
                    assert(self.keys() =~= old_self.keys().remove(i as int));
                    lemma_remove_unique_is_filter(old_self.keys(), i as int, kv);
                    assert forall|key: Seq<char>|
                        #![auto]
                        self.view().contains_key(key) == old_self.view().remove(kv).contains_key(key)
                        && (self.view().contains_key(key) ==> self.view()[key] == old_self.view().remove(kv)[key]) by {
                        if self.keys().contains(key) {
                            let j = self.keys().index_of(key);
                            self.lemma_lookup(j);
                            if j < i {
                                old_self.lemma_lookup(j);
                            } else {
                                old_self.lemma_lookup(j + 1);
                            }
                        }
                        if old_self.keys().contains(key) && key != kv {
                            let j = old_self.keys().index_of(key);
                            if j < i {
                                assert(self.keys()[j] == key);
                            } else {
                                assert(j != i);
                                assert(self.keys()[j - 1] == key);
                            }
                        }
                    }
                    assert(self.view() =~= old_self.view().remove(kv));
                }
                Some(v)
            },
            None => {
                proof {
                    assert(keys_without(old_self.keys(), kv) =~= old_self.keys())
                        by {
                        lemma_filter_keeps_all(old_self.keys(), kv);
                    }
                    assert(self.view() =~= old_self.view().remove(kv));
                }
                None
            },
        }
    }
}

/// The keys of `s` other than `k`, in order.
pub open spec fn keys_without(s: Seq<Seq<char>>, k: Seq<char>) -> Seq<Seq<char>> {
    s.filter(|key: Seq<char>| key != k)
}

/// Removing the only occurrence of `k` is filtering `k` out.
proof fn lemma_remove_unique_is_filter(s: Seq<Seq<char>>, i: int, k: Seq<char>)
    requires
        s.no_duplicates(),
        0 <= i < s.len(),
        s[i] == k,
    ensures
        s.remove(i) == keys_without(s, k),
    decreases s.len(),
{
    let pred = |key: Seq<char>| key != k;
    reveal(Seq::filter);
    if i == s.len() - 1 {
        assert(s.remove(i) =~= s.drop_last());
        lemma_filter_keeps_all(s.drop_last(), k);
        assert(s.filter(pred) == s.drop_last().filter(pred));
    } else {
        let t = s.drop_last();
        assert(t.no_duplicates());
        assert(t[i] == k);
        lemma_remove_unique_is_filter(t, i, k);
        assert(s.last() != k);
        assert(s.filter(pred) == t.filter(pred).push(s.last()));
        assert(s.remove(i) =~= t.remove(i).push(s.last()));
    }
}

/// Filtering out a key that does not occur changes nothing.
proof fn lemma_filter_keeps_all(s: Seq<Seq<char>>, k: Seq<char>)
    requires
        !s.contains(k),
    ensures
        keys_without(s, k) == s,
    decreases s.len(),
{
    reveal(Seq::filter);
    let pred = |key: Seq<char>| key != k;
    if s.len() > 0 {
        let t = s.drop_last();
        assert(!t.contains(k)) by {
            if t.contains(k) {
                let j = choose|j: int| 0 <= j < t.len() && t[j] == k;
                assert(s[j] == k);
            }
        }
        lemma_filter_keeps_all(t, k);
        assert(s.last() != k) by {
            assert(s[s.len() - 1] == s.last());
        }
        assert(s =~= t.push(s.last()));
    }
}

} // verus!
