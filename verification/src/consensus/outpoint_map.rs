//! Maps kept as lists of distinct keys, keyed by outpoints or by hashes.
use vstd::prelude::*;
use crate::primitives::bytes::bytes_equal;
use crate::primitives::hash::Hash256;

verus! {

broadcast use vstd::array::group_array_axioms;

/// A reference to one output of a transaction.
#[derive(Debug, Clone, Copy, PartialEq, Eq, Hash)]
pub struct OutPoint {
    pub txid: Hash256,
    pub vout: u32,
}

/// Keys whose equality can be tested.
pub trait MapKey: Sized {
    /// Whether the two keys are equal.
    fn same_key(&self, other: &Self) -> (r: bool)
        ensures
            r == (*self == *other),
    ;
}

impl MapKey for Hash256 {
    fn same_key(&self, other: &Hash256) -> (r: bool) {
        let eq = bytes_equal(self, other);
        proof {
            if self@ == other@ {
                assert(*self =~= *other);
            }
        }
        eq
    }
}

impl MapKey for u32 {
    fn same_key(&self, other: &u32) -> (r: bool) {
        *self == *other
    }
}

impl MapKey for OutPoint {
    fn same_key(&self, other: &OutPoint) -> (r: bool) {
        self.same_as(other)
    }
}

impl OutPoint {
    /// Whether both name the same output.
    pub fn same_as(&self, other: &OutPoint) -> (r: bool)
        ensures
            r == (*self == *other),
    {
        let eq = bytes_equal(&self.txid, &other.txid) && self.vout == other.vout;
        proof {
            if self.txid@ == other.txid@ {
                assert(self.txid =~= other.txid);
            }
        }
        eq
    }
}

/// A map from keys to values, kept as a list of distinct keys.
pub struct KeyedMap<K: MapKey, V> {
    entries: Vec<(K, V)>,
}

impl<K: MapKey, V> KeyedMap<K, V> {
    #[verifier::type_invariant]
    spec fn keys_distinct(self) -> bool {
        forall|i: int, j: int|
            0 <= i < j < self.entries@.len() ==> self.entries@[i].0 != self.entries@[j].0
    }

    spec fn has_at(self, op: K, i: int) -> bool {
        0 <= i < self.entries@.len() && self.entries@[i].0 == op
    }

    spec fn index_of(self, op: K) -> int {
        choose|i: int| self.has_at(op, i)
    }

    /// The map's contents.
    pub closed spec fn view(self) -> Map<K, V> {
        Map::new(
            |op: K| exists|i: int| self.has_at(op, i),
            |op: K| self.entries@[self.index_of(op)].1,
        )
    }

    proof fn lemma_at(self, i: int)
        requires
            self.keys_distinct(),
            0 <= i < self.entries@.len(),
        ensures
            self.index_of(self.entries@[i].0) == i,
            self.view().contains_key(self.entries@[i].0),
            self.view()[self.entries@[i].0] == self.entries@[i].1,
    {
        let op = self.entries@[i].0;
        assert(self.has_at(op, i));
        let j = self.index_of(op);
        assert(self.has_at(op, j));
        if j != i {
            if j < i {
                assert(self.entries@[j].0 != self.entries@[i].0);
            } else {
                assert(self.entries@[i].0 != self.entries@[j].0);
            }
        }
    }

    pub fn new() -> (m: Self)
        ensures
            m.view() == Map::<K, V>::empty(),
    {
        let m = KeyedMap { entries: Vec::new() };
        proof {
            assert(m.view() =~= Map::<K, V>::empty());
        }
        m
    }

    pub fn len(&self) -> (n: usize)
        ensures
            n == self.view().len(),
            self.view().dom().finite(),
    {
        proof {
            use_type_invariant(self);
            self.lemma_len();
        }
        self.entries.len()
    }

    proof fn lemma_len(self)
        requires
            self.keys_distinct(),
        ensures
            self.view().len() == self.entries@.len(),
            self.view().dom().finite(),
    {
        let keys = self.entries@.map_values(|e: (K, V)| e.0);
        assert forall|i: int, j: int| 0 <= i < j < keys.len() implies keys[i] != keys[j] by {
            assert(self.entries@[i].0 != self.entries@[j].0);
        }
        assert(keys.no_duplicates());
        keys.unique_seq_to_set();
        assert(self.view().dom() =~= keys.to_set()) by {
            assert forall|op: K| self.view().dom().contains(op) implies keys.to_set().contains(op) by {
                let i = choose|i: int| self.has_at(op, i);
                assert(keys[i] == op);
            }
            assert forall|op: K| keys.to_set().contains(op) implies self.view().dom().contains(op) by {
                let i = choose|i: int| 0 <= i < keys.len() && keys[i] == op;
                assert(self.has_at(op, i));
            }
        }
    }

    /// Position of `op` in the list, if present.
    fn find(&self, op: &K) -> (r: Option<usize>)
        ensures
            match r {
                Some(i) => i < self.entries@.len() && self.entries@[i as int].0 == *op,
                None => !self.view().contains_key(*op),
            },
    {
        let mut i: usize = 0;
        while i < self.entries.len()
            invariant
                i <= self.entries@.len(),
                forall|j: int| 0 <= j < i ==> self.entries@[j].0 != *op,
            decreases self.entries@.len() - i,
        {
            if self.entries[i].0.same_key(op) {
                return Some(i);
            }
            i = i + 1;
        }
        None
    }

    pub fn contains(&self, op: &K) -> (r: bool)
        ensures
            r == self.view().contains_key(*op),
    {
        proof {
            use_type_invariant(self);
        }
        match self.find(op) {
            Some(i) => {
                proof {
                    self.lemma_at(i as int);
                }
                true
            },
            None => false,
        }
    }

    pub fn get(&self, op: &K) -> (r: Option<&V>)
        ensures
            match r {
                Some(v) => self.view().contains_key(*op) && self.view()[*op] == *v,
                None => !self.view().contains_key(*op),
            },
    {
        proof {
            use_type_invariant(self);
        }
        match self.find(op) {
            Some(i) => {
                proof {
                    self.lemma_at(i as int);
                }
                Some(&self.entries[i].1)
            },
            None => None,
        }
    }

    /// Inserts or replaces the value of `op`.
    pub fn insert(&mut self, op: K, v: V)
        ensures
            final(self).view() == old(self).view().insert(op, v),
    {
        proof {
            use_type_invariant(&*self);
        }
        let ghost old_self = *self;
        let found = self.find(&op);
        let ghost at: int = match found {
            Some(i) => i as int,
            None => old_self.entries@.len() as int,
        };
        let mut entries = Vec::new();
        std::mem::swap(&mut entries, &mut self.entries);
        match found {
            Some(i) => {
                entries.set(i, (op, v));
            },
            None => {
                entries.push((op, v));
            },
        }
        proof {
            assert(entries@.len() == at + 1 || entries@.len() == old_self.entries@.len());
            assert(entries@[at] == (op, v));
            assert forall|a: int| 0 <= a < entries@.len() && a != at implies entries@[a]
                == old_self.entries@[a] by {}
            assert forall|a: int, b: int| 0 <= a < b < entries@.len() implies entries@[a].0
                != entries@[b].0 by {
                if a != at && b != at {
                    assert(old_self.entries@[a].0 != old_self.entries@[b].0);
                } else if a == at {
                    if found is None {
                        assert(old_self.has_at(entries@[b].0, b));
                    } else {
                        assert(old_self.entries@[a].0 != old_self.entries@[b].0);
                    }
                } else {
                    if found is None {
                        assert(old_self.has_at(entries@[a].0, a));
                    } else {
                        assert(old_self.entries@[a].0 != old_self.entries@[b].0);
                    }
                }
            }
        }
        self.entries = entries;
        proof {
            use_type_invariant(&*self);
            let new_self = *self;
            let target = old_self.view().insert(op, v);
            assert forall|q: K| new_self.view().contains_key(q) == target.contains_key(q) by {
                if q != op && old_self.view().contains_key(q) {
                    let j = old_self.index_of(q);
                    assert(old_self.has_at(q, j));
                    assert(j != at);
                    assert(new_self.has_at(q, j));
                }
                if new_self.view().contains_key(q) && q != op {
                    let j = new_self.index_of(q);
                    assert(new_self.has_at(q, j));
                    assert(j != at);
                    assert(old_self.has_at(q, j));
                }
                if q == op {
                    assert(new_self.has_at(op, at));
                }
            }
            assert forall|q: K| #[trigger] new_self.view().contains_key(q) implies new_self.view()[q]
                == target[q] by {
                let j = new_self.index_of(q);
                assert(new_self.has_at(q, j));
                new_self.lemma_at(j);
                if q != op {
                    assert(j != at);
                    assert(old_self.has_at(q, j));
                    old_self.lemma_at(j);
                } else {
                    new_self.lemma_at(at);
                }
            }
            assert(new_self.view() =~= target);
        }
    }

    /// Removes `op`, giving back its value if it was present.
    pub fn remove(&mut self, op: &K) -> (r: Option<V>)
        ensures
            final(self).view() == old(self).view().remove(*op),
            match r {
                Some(v) => old(self).view().contains_key(*op) && old(self).view()[*op] == v,
                None => !old(self).view().contains_key(*op),
            },
    {
        proof {
            use_type_invariant(&*self);
        }
        let ghost old_self = *self;
        match self.find(op) {
            None => {
                proof {
                    assert(old_self.view().remove(*op) =~= old_self.view());
                }
                None
            },
            Some(i) => {
                proof {
                    old_self.lemma_at(i as int);
                }
                let mut entries = Vec::new();
                std::mem::swap(&mut entries, &mut self.entries);
                let (_, v) = entries.swap_remove(i);
                let ghost n = old_self.entries@.len();
                proof {
                    assert forall|a: int, b: int| 0 <= a < b < entries@.len() implies entries@[a].0
                        != entries@[b].0 by {
                        let oa = if a == i {
                            n - 1
                        } else {
                            a
                        };
                        let ob = if b == i {
                            n - 1
                        } else {
                            b
                        };
                        assert(entries@[a] == old_self.entries@[oa]);
                        assert(entries@[b] == old_self.entries@[ob]);
                        if oa < ob {
                            assert(old_self.entries@[oa].0 != old_self.entries@[ob].0);
                        } else {
                            assert(old_self.entries@[ob].0 != old_self.entries@[oa].0);
                        }
                    }
                }
                self.entries = entries;
                proof {
                    use_type_invariant(&*self);
                    let new_self = *self;
                    let target = old_self.view().remove(*op);
                    assert forall|q: K| new_self.view().contains_key(q) == target.contains_key(
                        q,
                    ) by {
                        if new_self.view().contains_key(q) {
                            let j = new_self.index_of(q);
                            assert(new_self.has_at(q, j));
                            let oj = if j == i {
                                n - 1
                            } else {
                                j
                            };
                            assert(old_self.has_at(q, oj));
                            if q == *op {
                                if oj != i {
                                    if oj < i {
                                        assert(old_self.entries@[oj].0 != old_self.entries@[i as int].0);
                                    } else {
                                        assert(old_self.entries@[i as int].0 != old_self.entries@[oj].0);
                                    }
                                }
                            }
                        }
                        if target.contains_key(q) {
                            let oj = old_self.index_of(q);
                            assert(old_self.has_at(q, oj));
                            assert(oj != i);
                            let j = if oj == n - 1 {
                                i as int
                            } else {
                                oj
                            };
                            assert(new_self.has_at(q, j));
                        }
                    }
                    assert forall|q: K| #[trigger] new_self.view().contains_key(q)
                        implies new_self.view()[q] == target[q] by {
                        let j = new_self.index_of(q);
                        assert(new_self.has_at(q, j));
                        new_self.lemma_at(j);
                        let oj = if j == i {
                            n - 1
                        } else {
                            j
                        };
                        assert(old_self.has_at(q, oj));
                        old_self.lemma_at(oj);
                    }
                    assert(new_self.view() =~= target);
                }
                Some(v)
            },
        }
    }
}

/// A map from outpoints to values.
pub type OutPointMap<V> = KeyedMap<OutPoint, V>;

} // verus!
