//! An ordered map keyed by `usize` identifiers.
//!
//! Entries are kept in a vector sorted by strictly increasing key, so that a
//! walk by index visits the keys in ascending order, as a walk over an
//! ordered map does.
use vstd::prelude::*;

verus! {

/// Keys of a sequence that is strictly increasing.
pub open spec fn strictly_increasing(s: Seq<usize>) -> bool {
    forall|i: int, j: int| 0 <= i < j < s.len() ==> s[i] < s[j]
}

/// A map from `usize` identifiers to values, ordered by key.
pub struct IdMap<V> {
    entries: Vec<(usize, V)>,
}

impl<V> IdMap<V> {
    /// The keys, in the order in which they are stored (ascending).
    pub closed spec fn keys(&self) -> Seq<usize> {
        self.entries@.map_values(|e: (usize, V)| e.0)
    }

    /// The values, in the order of their keys.
    pub closed spec fn values(&self) -> Seq<V> {
        self.entries@.map_values(|e: (usize, V)| e.1)
    }

    /// Entries are sorted by strictly increasing key.
    pub closed spec fn wf(&self) -> bool {
        strictly_increasing(self.keys())
    }

    /// The mathematical map held.
    pub closed spec fn as_map(&self) -> Map<usize, V> {
        Map::new(
            |k: usize| self.keys().contains(k),
            |k: usize| self.values()[self.keys().index_of(k)],
        )
    }

    /// What the stored sequences mean for the map.
    pub proof fn lemma_view(&self)
        requires
            self.wf(),
        ensures
            self.keys().len() == self.values().len(),
            strictly_increasing(self.keys()),
            self.keys().no_duplicates(),
            self@.dom().finite(),
            self@.dom() == self.keys().to_set(),
            forall|i: int|
                #![trigger self.keys()[i]]
                0 <= i < self.keys().len() ==> self@.contains_key(self.keys()[i]) && self@[self.keys()[i]]
                    == self.values()[i],
            forall|k: usize| #[trigger]
                self@.contains_key(k) ==> exists|i: int|
                    0 <= i < self.keys().len() && self.keys()[i] == k,
    {
        let ks = self.keys();
        assert forall|i: int, j: int| 0 <= i < ks.len() && 0 <= j < ks.len() && i != j implies ks[i]
            != ks[j] by {
            if i < j {
                assert(ks[i] < ks[j]);
            } else {
                assert(ks[j] < ks[i]);
            }
        }
        assert(ks.no_duplicates());
        assert forall|i: int| 0 <= i < ks.len() implies self@.contains_key(ks[i]) && self@[ks[i]]
            == self.values()[i] by {
            assert(ks.contains(ks[i]));
            let j = ks.index_of(ks[i]);
            assert(ks[j] == ks[i]);
            assert(j == i);
        }
        assert(self@.dom() =~= ks.to_set());
        ks.lemma_cardinality_of_set();
    }

    /// An empty map.
    pub fn new() -> (m: Self)
        ensures
            m.wf(),
            m@ == Map::<usize, V>::empty(),
            m.keys().len() == 0,
    {
        let m = IdMap { entries: Vec::new() };
        assert(m@ =~= Map::<usize, V>::empty());
        m
    }

    /// The number of entries.
    pub fn len(&self) -> (n: usize)
        ensures
            n == self.keys().len(),
            n == self.values().len(),
    {
        self.entries.len()
    }

    /// The key stored at position `i`.
    pub fn key_at(&self, i: usize) -> (k: usize)
        requires
            i < self.keys().len(),
        ensures
            k == self.keys()[i as int],
    {
        self.entries[i].0
    }

    /// The value stored at position `i`.
    pub fn value_at(&self, i: usize) -> (v: &V)
        requires
            i < self.values().len(),
        ensures
            *v == self.values()[i as int],
    {
        &self.entries[i].1
    }

    /// Where `k` is stored (`Ok`), or where it would be inserted (`Err`).
    pub fn find(&self, k: usize) -> (r: Result<usize, usize>)
        requires
            self.wf(),
        ensures
            match r {
                Ok(i) => i < self.keys().len() && self.keys()[i as int] == k,
                Err(i) => {
                    &&& i <= self.keys().len()
                    &&& forall|j: int| 0 <= j < i ==> self.keys()[j] < k
                    &&& forall|j: int| i <= j < self.keys().len() ==> self.keys()[j] > k
                },
            },
            r is Ok <==> self@.contains_key(k),
    {
        proof {
            self.lemma_view();
        }
        let n = self.entries.len();
        let mut i: usize = 0;
        while i < n
            invariant
                n == self.keys().len(),
                i <= n,
                self.wf(),
                forall|j: int| 0 <= j < i ==> self.keys()[j] < k,
            decreases n - i,
        {
            let key = self.entries[i].0;
            assert(key == self.keys()[i as int]);
            if key == k {
                return Ok(i);
            }
            if key > k {
                return Err(i);
            }
            i = i + 1;
        }
        Err(i)
    }

    /// The value stored under `k`, if any.
    pub fn get(&self, k: usize) -> (r: Option<&V>)
        requires
            self.wf(),
        ensures
            match r {
                Some(v) => self@.contains_key(k) && *v == self@[k],
                None => !self@.contains_key(k),
            },
    {
        proof {
            self.lemma_view();
        }
        match self.find(k) {
            Ok(i) => {
                let v = &self.entries[i].1;
                assert(*v == self.values()[i as int]);
                Some(v)
            },
            Err(_) => None,
        }
    }

    /// Stores `v` under `k`, replacing what was there.
    pub fn insert(&mut self, k: usize, v: V)
        requires
            old(self).wf(),
        ensures
            final(self).wf(),
            final(self)@ == old(self)@.insert(k, v),
    {
        proof {
            self.lemma_view();
        }
        let ghost pre = *self;
        match self.find(k) {
            Ok(i) => {
                self.entries.set(i, (k, v));
                proof {
                    assert(self.keys() =~= pre.keys());
                    assert(self.values() =~= pre.values().update(i as int, v));
                    self.lemma_view();
                    assert forall|q: usize| #[trigger]
                        self@.contains_key(q) == pre@.insert(k, v).contains_key(q) by {
                        if pre@.contains_key(q) {
                            let j = choose|j: int| 0 <= j < pre.keys().len() && pre.keys()[j] == q;
                            assert(self.keys()[j] == q);
                        }
                        if self@.contains_key(q) {
                            let j = choose|j: int| 0 <= j < self.keys().len() && self.keys()[j] == q;
                            assert(pre.keys()[j] == q);
                        }
                    }
                    assert forall|q: usize| #[trigger] self@.contains_key(q) implies self@[q] == pre@.insert(
                        k,
                        v,
                    )[q] by {
                        let j = choose|j: int| 0 <= j < self.keys().len() && self.keys()[j] == q;
                        assert(pre.keys()[j] == q);
                    }
                    assert(self@ =~= pre@.insert(k, v));
                }
            },
            Err(i) => {
                self.entries.insert(i, (k, v));
                proof {
                    assert(self.keys() =~= pre.keys().insert(i as int, k));
                    assert(self.values() =~= pre.values().insert(i as int, v));
                    assert(strictly_increasing(self.keys()));
                    self.lemma_view();
                    assert forall|q: usize| #[trigger]
                        self@.contains_key(q) == pre@.insert(k, v).contains_key(q) by {
                        if pre@.contains_key(q) {
                            let j = choose|j: int| 0 <= j < pre.keys().len() && pre.keys()[j] == q;
                            if j < i {
                                assert(self.keys()[j] == q);
                            } else {
                                assert(self.keys()[j + 1] == q);
                            }
                        }
                        if q == k {
                            assert(self.keys()[i as int] == q);
                        }
                        if self@.contains_key(q) && q != k {
                            let j = choose|j: int| 0 <= j < self.keys().len() && self.keys()[j] == q;
                            if j < i {
                                assert(pre.keys()[j] == q);
                            } else {
                                assert(j != i);
                                assert(pre.keys()[j - 1] == q);
                            }
                        }
                    }
                    assert forall|q: usize| #[trigger] self@.contains_key(q) implies self@[q] == pre@.insert(
                        k,
                        v,
                    )[q] by {
                        let j = choose|j: int| 0 <= j < self.keys().len() && self.keys()[j] == q;
                        if j < i {
                            assert(pre.keys()[j] == q);
                        } else if j > i {
                            assert(pre.keys()[j - 1] == q);
                        } else {
                            assert(q == k);
                        }
                    }
                    assert(self@ =~= pre@.insert(k, v));
                }
            },
        }
    }

    /// Takes the value stored under `k` out of the map, if any.
    pub fn remove(&mut self, k: usize) -> (r: Option<V>)
        requires
            old(self).wf(),
        ensures
            final(self).wf(),
            final(self)@ == old(self)@.remove(k),
            match r {
                Some(v) => old(self)@.contains_key(k) && v == old(self)@[k],
                None => !old(self)@.contains_key(k),
            },
    {
        proof {
            self.lemma_view();
        }
        let ghost pre = *self;
        match self.find(k) {
            Ok(i) => {
                let (_, v) = self.entries.remove(i);
                proof {
                    assert(self.keys() =~= pre.keys().remove(i as int));
                    assert(self.values() =~= pre.values().remove(i as int));
                    assert(strictly_increasing(self.keys()));
                    self.lemma_view();
                    assert forall|q: usize| #[trigger]
                        self@.contains_key(q) == pre@.remove(k).contains_key(q) by {
                        if pre@.contains_key(q) && q != k {
                            let j = choose|j: int| 0 <= j < pre.keys().len() && pre.keys()[j] == q;
                            if j < i {
                                assert(self.keys()[j] == q);
                            } else {
                                assert(j != i);
                                assert(self.keys()[j - 1] == q);
                            }
                        }
                        if self@.contains_key(q) {
                            let j = choose|j: int| 0 <= j < self.keys().len() && self.keys()[j] == q;
                            if j < i {
                                assert(pre.keys()[j] == q);
                                assert(q < k);
                            } else {
                                assert(pre.keys()[j + 1] == q);
                                assert(q > k);
                            }
                        }
                    }
                    assert forall|q: usize| #[trigger] self@.contains_key(q) implies self@[q] == pre@.remove(
                        k,
                    )[q] by {
                        let j = choose|j: int| 0 <= j < self.keys().len() && self.keys()[j] == q;
                        if j < i {
                            assert(pre.keys()[j] == q);
                        } else {
                            assert(pre.keys()[j + 1] == q);
                        }
                    }
                    assert(self@ =~= pre@.remove(k));
                    assert(v == pre.values()[i as int]);
                }
                Some(v)
            },
            Err(_) => {
                proof {
                    assert(pre@.remove(k) =~= pre@);
                }
                None
            },
        }
    }
}

impl IdMap<isize> {
    /// A copy of the map.
    pub fn duplicate(&self) -> (r: Self)
        ensures
            r.keys() == self.keys(),
            r.values() == self.values(),
            r@ == self@,
            r.wf() == self.wf(),
    {
        let mut entries: Vec<(usize, isize)> = Vec::new();
        let n = self.entries.len();
        let mut i: usize = 0;
        while i < n
            invariant
                n == self.entries@.len(),
                i <= n,
                entries@ == self.entries@.take(i as int),
            decreases n - i,
        {
            entries.push(self.entries[i]);
            i = i + 1;
            assert(entries@ =~= self.entries@.take(i as int));
        }
        assert(entries@ =~= self.entries@);
        IdMap { entries }
    }
}

impl<V> View for IdMap<V> {
    type V = Map<usize, V>;

    closed spec fn view(&self) -> Map<usize, V> {
        self.as_map()
    }
}

} // verus!
