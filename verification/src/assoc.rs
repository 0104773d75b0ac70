//! A small map kept as a list of entries, for keys without a verified hash or order.

use crate::model::Model;
use vstd::prelude::*;

verus! {

/// A finite map from keys to values, compared by the views of both.
pub struct AssocMap<K: Model, V: Model> {
    keys: Vec<K>,
    vals: Vec<V>,
}

impl<K: Model, V: Model> View for AssocMap<K, V> {
    type V = Map<K::V, V::V>;

    closed spec fn view(&self) -> Map<K::V, V::V> {
        Map::new(|k: K::V| self.has(k), |k: K::V| self.vals@[self.index_of(k)]@)
    }
}

impl<K: Model, V: Model> AssocMap<K, V> {
    /// The number of entries.
    pub closed spec fn spec_len(&self) -> nat {
        self.keys@.len()
    }

    /// The key of the entry at a position.
    pub closed spec fn spec_key(&self, i: int) -> K::V {
        self.keys@[i]@
    }

    /// The value of the entry at a position.
    pub closed spec fn spec_val(&self, i: int) -> V::V {
        self.vals@[i]@
    }

    /// Whether the value at a position is valid.
    pub closed spec fn spec_val_valid(&self, i: int) -> bool {
        self.vals@[i].valid()
    }

    /// Keys are pairwise distinct and every part is valid.
    pub closed spec fn wf(&self) -> bool {
        &&& self.keys@.len() == self.vals@.len()
        &&& forall|i: int| 0 <= i < self.keys@.len() ==> (#[trigger] self.keys@[i]).valid()
        &&& forall|i: int| 0 <= i < self.vals@.len() ==> (#[trigger] self.vals@[i]).valid()
        &&& forall|i: int, j: int|
            0 <= i < j < self.keys@.len() ==> (#[trigger] self.keys@[i])@ != (
            #[trigger] self.keys@[j])@
    }

    closed spec fn has(&self, k: K::V) -> bool {
        exists|i: int| 0 <= i < self.keys@.len() && (#[trigger] self.keys@[i])@ == k
    }

    closed spec fn index_of(&self, k: K::V) -> int {
        choose|i: int| 0 <= i < self.keys@.len() && (#[trigger] self.keys@[i])@ == k
    }

    /// Each position holds a key of the map, mapped to the value at that position.
    pub proof fn lemma_entry(&self, i: int)
        requires
            self.wf(),
            0 <= i < self.spec_len(),
        ensures
            self@.contains_key(self.spec_key(i)),
            self@[self.spec_key(i)] == self.spec_val(i),
            self.spec_val_valid(i),
    {
        let k = self.keys@[i]@;
        assert(self.has(k));
        let j = self.index_of(k);
        assert(0 <= j < self.keys@.len() && self.keys@[j]@ == k);
        if j != i {
            if j < i {
                assert(self.keys@[j]@ != self.keys@[i]@);
            } else {
                assert(self.keys@[i]@ != self.keys@[j]@);
            }
        }
    }

    /// Every key of the map stands at some position, and at one only.
    pub proof fn lemma_position(&self, k: K::V) -> (i: int)
        requires
            self.wf(),
            self@.contains_key(k),
        ensures
            0 <= i < self.spec_len(),
            self.spec_key(i) == k,
            self.spec_val(i) == self@[k],
            forall|j: int| 0 <= j < self.spec_len() && self.spec_key(j) == k ==> j == i,
    {
        assert(self.has(k));
        let i = self.index_of(k);
        assert forall|j: int| 0 <= j < self.spec_len() && self.spec_key(j) == k implies j == i by {
            if j < i {
                assert(self.keys@[j]@ != self.keys@[i]@);
            } else if i < j {
                assert(self.keys@[i]@ != self.keys@[j]@);
            }
        }
        i
    }

    /// Distinct positions hold distinct keys.
    pub proof fn lemma_distinct(&self, i: int, j: int)
        requires
            self.wf(),
            0 <= i < self.spec_len(),
            0 <= j < self.spec_len(),
            i != j,
        ensures
            self.spec_key(i) != self.spec_key(j),
    {
        if i < j {
            assert(self.keys@[i]@ != self.keys@[j]@);
        } else {
            assert(self.keys@[j]@ != self.keys@[i]@);
        }
    }

    /// The map without entries.
    pub fn new() -> (m: Self)
        ensures
            m.wf(),
            m@ == Map::<K::V, V::V>::empty(),
            m.spec_len() == 0,
    {
        let m = AssocMap { keys: Vec::new(), vals: Vec::new() };
        assert(m@ =~= Map::<K::V, V::V>::empty());
        m
    }

    /// The number of entries.
    pub fn len(&self) -> (n: usize)
        requires
            self.wf(),
        ensures
            n == self.spec_len(),
    {
        self.keys.len()
    }

    /// Whether the map has no entry.
    pub fn is_empty(&self) -> (b: bool)
        requires
            self.wf(),
        ensures
            b == (self.spec_len() == 0),
            b == (self@ == Map::<K::V, V::V>::empty()),
    {
        let b = self.keys.len() == 0;
        proof {
            if b {
                assert(self@ =~= Map::<K::V, V::V>::empty());
            } else {
                self.lemma_entry(0);
            }
        }
        b
    }

    /// The key at a position.
    pub fn key_at(&self, i: usize) -> (k: &K)
        requires
            self.wf(),
            i < self.spec_len(),
        ensures
            k@ == self.spec_key(i as int),
            k.valid(),
            self@.contains_key(k@),
    {
        proof {
            self.lemma_entry(i as int);
        }
        &self.keys[i]
    }

    /// The value at a position.
    pub fn val_at(&self, i: usize) -> (v: &V)
        requires
            self.wf(),
            i < self.spec_len(),
        ensures
            v@ == self.spec_val(i as int),
            v.valid(),
            self@[self.spec_key(i as int)] == v@,
    {
        proof {
            self.lemma_entry(i as int);
        }
        &self.vals[i]
    }

    /// The position of a key, if the map has it.
    pub fn find(&self, key: &K) -> (r: Option<usize>)
        requires
            self.wf(),
            key.valid(),
        ensures
            match r {
                Some(i) => i < self.spec_len() && self.spec_key(i as int) == key@
                    && self@.contains_key(key@),
                None => !self@.contains_key(key@),
            },
    {
        let mut i: usize = 0;
        while i < self.keys.len()
            invariant
                self.wf(),
                key.valid(),
                i <= self.keys@.len(),
                forall|j: int| 0 <= j < i ==> (#[trigger] self.keys@[j])@ != key@,
            decreases self.keys@.len() - i,
        {
            if self.keys[i].same(key) {
                proof {
                    self.lemma_entry(i as int);
                }
                return Some(i);
            }
            i += 1;
        }
        None
    }

    /// Whether the map has the key.
    pub fn contains_key(&self, key: &K) -> (b: bool)
        requires
            self.wf(),
            key.valid(),
        ensures
            b == self@.contains_key(key@),
    {
        self.find(key).is_some()
    }

    /// The value of a key, if the map has it.
    pub fn get(&self, key: &K) -> (r: Option<&V>)
        requires
            self.wf(),
            key.valid(),
        ensures
            match r {
                Some(v) => self@.contains_key(key@) && self@[key@] == v@ && v.valid(),
                None => !self@.contains_key(key@),
            },
    {
        match self.find(key) {
            Some(i) => {
                proof {
                    self.lemma_entry(i as int);
                }
                Some(&self.vals[i])
            },
            None => None,
        }
    }

    /// Binds the key to the value, replacing an earlier binding.
    pub fn insert(&mut self, key: K, val: V)
        requires
            old(self).wf(),
            key.valid(),
            val.valid(),
        ensures
            final(self).wf(),
            final(self)@ == old(self)@.insert(key@, val@),
    {
        match self.find(&key) {
            Some(i) => {
                self.vals.set(i, val);
                proof {
                    assert forall|k: K::V| final(self).has(k) == old(self).has(k) by {
                        if old(self).has(k) {
                            let j = old(self).index_of(k);
                            assert(self.keys@[j]@ == k);
                        }
                        if self.has(k) {
                            let j = self.index_of(k);
                            assert(old(self).keys@[j]@ == k);
                        }
                    }
                    assert forall|k: K::V| self.has(k) implies #[trigger] self@[k] == old(
                        self,
                    )@.insert(key@, val@)[k] by {
                        let j = self.lemma_position(k);
                        let j2 = old(self).lemma_position(k);
                        assert(old(self).spec_key(j) == k);
                    }
                    assert(self@ =~= old(self)@.insert(key@, val@));
                }
            },
            None => {
                let ghost n = self.keys@.len() as int;
                self.keys.push(key);
                self.vals.push(val);
                proof {
                    assert forall|i: int, j: int| 0 <= i < j < self.keys@.len() implies (
                    #[trigger] self.keys@[i])@ != (#[trigger] self.keys@[j])@ by {
                        if j == n {
                            assert(old(self).keys@[i]@ == self.keys@[i]@);
                            assert(old(self).has(self.keys@[i]@));
                        } else {
                            assert(old(self).keys@[i]@ != old(self).keys@[j]@);
                        }
                    }
                    assert forall|k: K::V| self.has(k) == (old(self).has(k) || k == key@) by {
                        if old(self).has(k) {
                            let j = old(self).index_of(k);
                            assert(self.keys@[j]@ == k);
                        }
                        if k == key@ {
                            assert(self.keys@[n]@ == k);
                        }
                        if self.has(k) {
                            let j = self.index_of(k);
                            if j < n {
                                assert(old(self).keys@[j]@ == k);
                            }
                        }
                    }
                    assert forall|k: K::V| self.has(k) implies #[trigger] self@[k] == old(
                        self,
                    )@.insert(key@, val@)[k] by {
                        let j = self.lemma_position(k);
                        if k != key@ {
                            let j2 = old(self).lemma_position(k);
                            assert(self.spec_key(j2) == k);
                        } else {
                            assert(self.spec_key(n) == k);
                        }
                    }
                    assert(self@ =~= old(self)@.insert(key@, val@));
                }
            },
        }
    }

    /// Removes the binding of the key, if there is one.
    pub fn remove(&mut self, key: &K)
        requires
            old(self).wf(),
            key.valid(),
        ensures
            final(self).wf(),
            final(self)@ == old(self)@.remove(key@),
    {
        let _ = self.take(key);
    }

    /// Removes the binding of the key and hands out its value, if there is one.
    pub fn take(&mut self, key: &K) -> (r: Option<V>)
        requires
            old(self).wf(),
            key.valid(),
        ensures
            final(self).wf(),
            final(self)@ == old(self)@.remove(key@),
            match r {
                Some(v) => old(self)@.contains_key(key@) && v@ == old(self)@[key@] && v.valid(),
                None => !old(self)@.contains_key(key@),
            },
    {
        match self.find(key) {
            Some(i) => {
                let ghost n = self.keys@.len() as int;
                proof {
                    self.lemma_entry(i as int);
                }
                self.keys.swap_remove(i);
                let v = self.vals.swap_remove(i);
                proof {
                    let ghost src = |j: int| if j == i as int { n - 1 } else { j };
                    assert forall|j: int| 0 <= j < self.keys@.len() implies (
                    #[trigger] self.keys@[j]) == old(self).keys@[src(j)] && self.vals@[j] == old(
                        self,
                    ).vals@[src(j)] by {}
                    assert forall|a: int, b: int| 0 <= a < b < self.keys@.len() implies (
                    #[trigger] self.keys@[a])@ != (#[trigger] self.keys@[b])@ by {
                        old(self).lemma_distinct(src(a), src(b));
                    }
                    assert forall|k: K::V| self.has(k) == (old(self).has(k) && k != key@) by {
                        if old(self).has(k) && k != key@ {
                            let j = old(self).lemma_position(k);
                            if j == n - 1 {
                                assert(self.keys@[i as int]@ == k);
                            } else {
                                assert(self.keys@[j]@ == k);
                            }
                        }
                        if self.has(k) {
                            let j = self.index_of(k);
                            assert(old(self).keys@[src(j)]@ == k);
                            old(self).lemma_entry(src(j));
                            if k == key@ {
                                old(self).lemma_distinct(src(j), i as int);
                            }
                        }
                    }
                    assert(self.wf());
                    assert forall|k: K::V| self.has(k) implies #[trigger] self@[k] == old(
                        self,
                    )@.remove(key@)[k] by {
                        let j = self.lemma_position(k);
                        old(self).lemma_entry(src(j));
                    }
                    assert(self@ =~= old(self)@.remove(key@));
                }
                Some(v)
            },
            None => {
                proof {
                    assert(self@ =~= old(self)@.remove(key@));
                }
                None
            },
        }
    }

    /// Whether every binding of this map is a binding of the other.
    fn included_in(&self, other: &Self) -> (b: bool)
        requires
            self.wf(),
            other.wf(),
        ensures
            b == (forall|k: K::V| #[trigger]
                self@.contains_key(k) ==> other@.contains_key(k) && other@[k] == self@[k]),
    {
        let mut i: usize = 0;
        while i < self.keys.len()
            invariant
                self.wf(),
                other.wf(),
                i <= self.keys@.len(),
                forall|j: int|
                    0 <= j < i ==> other@.contains_key(#[trigger] self.spec_key(j)) && other@[self.spec_key(
                        j,
                    )] == self.spec_val(j),
            decreases self.keys@.len() - i,
        {
            proof {
                self.lemma_entry(i as int);
            }
            match other.get(&self.keys[i]) {
                Some(v) => {
                    if !v.same(&self.vals[i]) {
                        return false;
                    }
                },
                None => {
                    return false;
                },
            }
            i += 1;
        }
        proof {
            assert forall|k: K::V| #[trigger] self@.contains_key(k) implies other@.contains_key(k)
                && other@[k] == self@[k] by {
                let j = self.lemma_position(k);
                assert(other@.contains_key(self.spec_key(j)));
            }
        }
        true
    }
}

impl<K: Model, V: Model> Model for AssocMap<K, V> {
    open spec fn valid(&self) -> bool {
        self.wf()
    }

    fn same(&self, other: &Self) -> (b: bool) {
        let b = self.included_in(other) && other.included_in(self);
        proof {
            if b {
                assert(self@ =~= other@);
            }
        }
        b
    }

    fn dup(&self) -> (r: Self) {
        let mut keys: Vec<K> = Vec::new();
        let mut vals: Vec<V> = Vec::new();
        let mut i: usize = 0;
        while i < self.keys.len()
            invariant
                self.wf(),
                i <= self.keys@.len(),
                keys@.len() == i,
                vals@.len() == i,
                forall|j: int| 0 <= j < i ==> (#[trigger] keys@[j]).valid() && keys@[j]@ == self.keys@[j]@,
                forall|j: int| 0 <= j < i ==> (#[trigger] vals@[j]).valid() && vals@[j]@ == self.vals@[j]@,
            decreases self.keys@.len() - i,
        {
            keys.push(self.keys[i].dup());
            vals.push(self.vals[i].dup());
            i += 1;
        }
        let r = AssocMap { keys, vals };
        proof {
            assert(r.wf());
            assert forall|k: K::V| r.has(k) == self.has(k) by {
                if r.has(k) {
                    let j = r.index_of(k);
                    assert(self.keys@[j]@ == k);
                }
                if self.has(k) {
                    let j = self.index_of(k);
                    assert(r.keys@[j]@ == k);
                }
            }
            assert forall|k: K::V| r.has(k) implies #[trigger] r@[k] == self@[k] by {
                let j = r.lemma_position(k);
                assert(self.spec_key(j) == k);
                self.lemma_entry(j);
            }
            assert(r@ =~= self@);
        }
        r
    }
}

} // verus!
