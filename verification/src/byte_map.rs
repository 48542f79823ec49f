use vstd::prelude::*;

verus! {

/// A byte vector seen deeply is its bytes.
pub broadcast proof fn lemma_bytes_deep_view(v: Vec<u8>)
    ensures
        #[trigger] v.deep_view() == v@,
{
    assert(v.deep_view() =~= v@);
}

/// Compares two byte strings.
pub fn bytes_equal(a: &Vec<u8>, b: &Vec<u8>) -> (equal: bool)
    ensures
        equal == (a@ == b@),
{
    if a.len() != b.len() {
        return false;
    }
    let mut i: usize = 0;
    while i < a.len()
        invariant
            a@.len() == b@.len(),
            i <= a@.len(),
            forall|j: int| 0 <= j < i ==> a@[j] == b@[j],
        decreases a@.len() - i,
    {
        if a[i] != b[i] {
            return false;
        }
        i += 1;
    }
    assert(a@ =~= b@);
    true
}

/// A copy of a byte string.
pub fn copy_bytes(a: &Vec<u8>) -> (copy: Vec<u8>)
    ensures
        copy@ == a@,
{
    let copy = a.clone();
    assert(copy@ =~= a@);
    copy
}

/// A map from byte strings to values, kept as two parallel vectors in which
/// no key occurs twice.
pub struct ByteMap<V> {
    keys: Vec<Vec<u8>>,
    vals: Vec<V>,
}

/// The keys of `keys`, each taken by its bytes.
pub open spec fn key_views(keys: Seq<Vec<u8>>) -> Seq<Seq<u8>> {
    keys.map_values(|k: Vec<u8>| k@)
}

proof fn lemma_index_of_unique(s: Seq<Seq<u8>>, i: int)
    requires
        s.no_duplicates(),
        0 <= i < s.len(),
    ensures
        s.index_of(s[i]) == i,
{
    assert(s.contains(s[i]));
}

impl<V> ByteMap<V> {
    /// The keys in the order in which they are stored.
    pub closed spec fn key_seq(&self) -> Seq<Seq<u8>> {
        key_views(self.keys@)
    }

    /// The values in the order in which they are stored.
    pub closed spec fn val_seq(&self) -> Seq<V> {
        self.vals@
    }

    /// Keys and values pair up, and no key occurs twice.
    pub closed spec fn wf(&self) -> bool {
        &&& self.keys@.len() == self.vals@.len()
        &&& self.key_seq().no_duplicates()
    }

    /// What the map holds.
    pub closed spec fn view(&self) -> Map<Seq<u8>, V> {
        Map::new(
            |k: Seq<u8>| self.key_seq().contains(k),
            |k: Seq<u8>| self.vals@[self.key_seq().index_of(k)],
        )
    }

    /// How the stored order relates to what the map holds.
    pub proof fn lemma_layout(&self)
        requires
            self.wf(),
        ensures
            self.key_seq().len() == self.val_seq().len(),
            self.key_seq().no_duplicates(),
            self.view().dom() =~= self.key_seq().to_set(),
            self.view().dom().finite(),
            self.view().len() == self.key_seq().len(),
            forall|i: int|
                0 <= i < self.key_seq().len() ==> #[trigger] self.view().contains_key(
                    self.key_seq()[i],
                ) && self.view()[self.key_seq()[i]] == self.val_seq()[i],
            forall|k: Seq<u8>| #[trigger]
                self.view().contains_key(k) ==> exists|i: int|
                    0 <= i < self.key_seq().len() && self.key_seq()[i] == k,
    {
        assert forall|i: int| 0 <= i < self.key_seq().len() implies #[trigger] self.view().contains_key(
            self.key_seq()[i],
        ) && self.view()[self.key_seq()[i]] == self.val_seq()[i] by {
            lemma_index_of_unique(self.key_seq(), i);
        }
        self.key_seq().unique_seq_to_set();
        assert(self.view().dom() =~= self.key_seq().to_set());
    }

    pub fn new() -> (map: Self)
        ensures
            map.wf(),
            map@ == Map::<Seq<u8>, V>::empty(),
            map.key_seq() == Seq::<Seq<u8>>::empty(),
    {
        let map = ByteMap { keys: Vec::new(), vals: Vec::new() };
        assert(map.key_seq() =~= Seq::<Seq<u8>>::empty());
        assert(map@ =~= Map::<Seq<u8>, V>::empty());
        map
    }

    pub fn len(&self) -> (n: usize)
        requires
            self.wf(),
        ensures
            n == self@.len(),
            n == self.key_seq().len(),
    {
        proof {
            self.lemma_layout();
        }
        self.keys.len()
    }

    /// Where `key` is stored, if it is.
    pub fn find(&self, key: &Vec<u8>) -> (at: Option<usize>)
        requires
            self.wf(),
        ensures
            match at {
                Some(i) => i < self.key_seq().len() && self.key_seq()[i as int] == key@
                    && self@.contains_key(key@) && self@[key@] == self.val_seq()[i as int],
                None => !self@.contains_key(key@),
            },
    {
        proof {
            self.lemma_layout();
        }
        let mut i: usize = 0;
        while i < self.keys.len()
            invariant
                self.wf(),
                i <= self.keys@.len(),
                forall|j: int| 0 <= j < i ==> self.key_seq()[j] != key@,
            decreases self.keys@.len() - i,
        {
            if bytes_equal(&self.keys[i], key) {
                proof {
                    lemma_index_of_unique(self.key_seq(), i as int);
                }
                return Some(i);
            }
            i += 1;
        }
        None
    }

    /// The key stored at position `i`.
    pub fn key_at(&self, i: usize) -> (key: &Vec<u8>)
        requires
            self.wf(),
            i < self.key_seq().len(),
        ensures
            key@ == self.key_seq()[i as int],
    {
        &self.keys[i]
    }

    /// The value stored at position `i`.
    pub fn value_at(&self, i: usize) -> (value: &V)
        requires
            self.wf(),
            i < self.key_seq().len(),
        ensures
            *value == self.val_seq()[i as int],
    {
        &self.vals[i]
    }

    /// The value of `key`, if the map holds it.
    pub fn get(&self, key: &Vec<u8>) -> (value: Option<&V>)
        requires
            self.wf(),
        ensures
            match value {
                Some(v) => self@.contains_key(key@) && *v == self@[key@],
                None => !self@.contains_key(key@),
            },
    {
        match self.find(key) {
            Some(i) => Some(&self.vals[i]),
            None => None,
        }
    }

    /// Puts `value` at position `i` and hands back what stood there.
    pub fn replace_at(&mut self, i: usize, value: V) -> (previous: V)
        requires
            old(self).wf(),
            i < old(self).key_seq().len(),
        ensures
            final(self).wf(),
            final(self).key_seq() == old(self).key_seq(),
            final(self).val_seq() == old(self).val_seq().update(i as int, value),
            previous == old(self).val_seq()[i as int],
            previous == old(self)@[old(self).key_seq()[i as int]],
            final(self)@ == old(self)@.insert(old(self).key_seq()[i as int], value),
    {
        proof {
            self.lemma_layout();
            lemma_index_of_unique(self.key_seq(), i as int);
        }
        let mut slot = value;
        std::mem::swap(&mut self.vals[i], &mut slot);
        proof {
            let k = old(self).key_seq()[i as int];
            assert forall|k2: Seq<u8>| #[trigger] self@.contains_key(k2) implies self@[k2] == old(
                self,
            )@.insert(k, value)[k2] by {
                let j = self.key_seq().index_of(k2);
                if k2 != k {
                    assert(self.key_seq().contains(k2));
                    assert(j != i);
                }
            }
            assert(self@ =~= old(self)@.insert(k, value));
        }
        slot
    }

    /// Sets `key` to `value`, handing back the value it had, if any.
    pub fn insert(&mut self, key: Vec<u8>, value: V) -> (previous: Option<V>)
        requires
            old(self).wf(),
        ensures
            final(self).wf(),
            final(self)@ == old(self)@.insert(key@, value),
            match previous {
                Some(v) => old(self)@.contains_key(key@) && v == old(self)@[key@],
                None => !old(self)@.contains_key(key@),
            },
            old(self)@.contains_key(key@) ==> final(self).key_seq() == old(self).key_seq(),
            !old(self)@.contains_key(key@) ==> final(self).key_seq() == old(self).key_seq().push(
                key@,
            ),
    {
        match self.find(&key) {
            Some(i) => {
                let prev = self.replace_at(i, value);
                Some(prev)
            },
            None => {
                let ghost k = key@;
                proof {
                    self.lemma_layout();
                }
                self.keys.push(key);
                self.vals.push(value);
                proof {
                    assert(self.key_seq() =~= old(self).key_seq().push(k));
                    let n = old(self).key_seq().len() as int;
                    assert(!old(self).key_seq().contains(k));
                    assert(self.key_seq().no_duplicates()) by {
                        assert forall|a: int, b: int|
                            0 <= a < self.key_seq().len() && 0 <= b < self.key_seq().len() && a
                                != b implies self.key_seq()[a] != self.key_seq()[b] by {
                            if a == n {
                                assert(old(self).key_seq()[b] == self.key_seq()[b]);
                            } else if b == n {
                                assert(old(self).key_seq()[a] == self.key_seq()[a]);
                            }
                        }
                    }
                    lemma_index_of_unique(self.key_seq(), n);
                    assert forall|k2: Seq<u8>| #[trigger] self@.contains_key(k2) implies self@[k2]
                        == old(self)@.insert(k, value)[k2] by {
                        if k2 != k {
                            let j = old(self).key_seq().index_of(k2);
                            assert(old(self).key_seq().contains(k2)) by {
                                let t = choose|t: int| 0 <= t < self.key_seq().len() && self.key_seq()[t] == k2;
                                assert(t != n);
                                assert(old(self).key_seq()[t] == k2);
                            }
                            lemma_index_of_unique(old(self).key_seq(), j);
                            lemma_index_of_unique(self.key_seq(), j);
                        }
                    }
                    assert forall|k2: Seq<u8>| #[trigger] old(self)@.insert(k, value).contains_key(k2)
                        implies self@.contains_key(k2) by {
                        if k2 != k {
                            let t = choose|t: int| 0 <= t < old(self).key_seq().len() && old(self).key_seq()[t] == k2;
                            assert(self.key_seq()[t] == k2);
                        }
                    }
                    assert(self@ =~= old(self)@.insert(k, value));
                }
                None
            },
        }
    }

    /// Takes out the entry at position `i`.
    pub fn remove_at(&mut self, i: usize) -> (entry: (Vec<u8>, V))
        requires
            old(self).wf(),
            i < old(self).key_seq().len(),
        ensures
            final(self).wf(),
            entry.0@ == old(self).key_seq()[i as int],
            entry.1 == old(self).val_seq()[i as int],
            entry.1 == old(self)@[entry.0@],
            final(self)@ == old(self)@.remove(entry.0@),
            final(self).key_seq() == old(self).key_seq().remove(i as int),
            final(self).val_seq() == old(self).val_seq().remove(i as int),
    {
        proof {
            self.lemma_layout();
            lemma_index_of_unique(self.key_seq(), i as int);
        }
        let k = self.keys.remove(i);
        let v = self.vals.remove(i);
        proof {
            let ks = old(self).key_seq();
            assert(self.key_seq() =~= ks.remove(i as int));
            assert(self.key_seq().no_duplicates()) by {
                assert forall|a: int, b: int|
                    0 <= a < self.key_seq().len() && 0 <= b < self.key_seq().len() && a != b
                        implies self.key_seq()[a] != self.key_seq()[b] by {
                    let a2 = if a < i { a } else { a + 1 };
                    let b2 = if b < i { b } else { b + 1 };
                    assert(self.key_seq()[a] == ks[a2]);
                    assert(self.key_seq()[b] == ks[b2]);
                }
            }
            assert forall|k2: Seq<u8>| #[trigger] self@.contains_key(k2) implies old(self)@.remove(
                k@,
            ).contains_key(k2) && self@[k2] == old(self)@.remove(k@)[k2] by {
                let t = self.key_seq().index_of(k2);
                let t2 = if t < i { t } else { t + 1 };
                assert(ks[t2] == k2);
                lemma_index_of_unique(ks, t2);
                lemma_index_of_unique(self.key_seq(), t);
            }
            assert forall|k2: Seq<u8>| #[trigger] old(self)@.remove(k@).contains_key(k2)
                implies self@.contains_key(k2) by {
                let t = ks.index_of(k2);
                lemma_index_of_unique(ks, t);
                let t2 = if t < i { t } else { t - 1 };
                assert(t != i);
                assert(self.key_seq()[t2] == k2);
            }
            assert(self@ =~= old(self)@.remove(k@));
        }
        (k, v)
    }

    /// Removes `key`, handing back the value it had, if any.
    pub fn remove(&mut self, key: &Vec<u8>) -> (previous: Option<V>)
        requires
            old(self).wf(),
        ensures
            final(self).wf(),
            final(self)@ == old(self)@.remove(key@),
            match previous {
                Some(v) => old(self)@.contains_key(key@) && v == old(self)@[key@],
                None => !old(self)@.contains_key(key@),
            },
    {
        match self.find(key) {
            Some(i) => {
                let (_, v) = self.remove_at(i);
                Some(v)
            },
            None => {
                assert(self@ =~= old(self)@.remove(key@));
                None
            },
        }
    }
}

} // verus!
