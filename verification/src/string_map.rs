use vstd::prelude::*;

verus! {

/// A map keyed by strings, kept as two parallel vectors in insertion order.
///
/// Its view is the mathematical map from each key's characters to its value.
#[derive(Debug)]
pub struct StringMap<V> {
    keys: Vec<String>,
    values: Vec<V>,
}

impl<V> View for StringMap<V> {
    type V = Map<Seq<char>, V>;

    closed spec fn view(&self) -> Map<Seq<char>, V> {
        let ks = self.key_order();
        Map::new(|k: Seq<char>| ks.contains(k), |k: Seq<char>| self.values@[ks.index_of(k)])
    }
}

impl<V> StringMap<V> {
    #[verifier::type_invariant]
    spec fn inv(self) -> bool {
        &&& self.keys@.len() == self.values@.len()
        &&& self.key_order().no_duplicates()
    }

    /// The keys in the order in which the entries are stored.
    pub closed spec fn key_order(&self) -> Seq<Seq<char>> {
        Self::chars_of(self.keys@)
    }

    spec fn chars_of(keys: Seq<String>) -> Seq<Seq<char>> {
        Seq::new(keys.len(), |i: int| keys[i]@)
    }

    /// An empty map.
    pub fn new() -> (m: Self)
        ensures
            m@ == Map::<Seq<char>, V>::empty(),
            m.key_order() == Seq::<Seq<char>>::empty(),
    {
        let m = StringMap { keys: Vec::new(), values: Vec::new() };
        assert(m@ =~= Map::<Seq<char>, V>::empty());
        assert(m.key_order() =~= Seq::<Seq<char>>::empty());
        m
    }

    fn position(&self, key: &str) -> (pos: Option<usize>)
        ensures
            match pos {
                Some(i) => i < self.key_order().len() && self.key_order()[i as int] == key@,
                None => !self.key_order().contains(key@),
            },
    {
        let needle = key.to_owned();
        let mut i: usize = 0;
        while i < self.keys.len()
            invariant
                i <= self.keys@.len(),
                needle@ == key@,
                forall|j: int| 0 <= j < i ==> self.key_order()[j] != key@,
            decreases self.keys@.len() - i,
        {
            if self.keys[i] == needle {
                return Some(i);
            }
            i += 1;
        }
        None
    }

    /// Whether `key` has an entry.
    pub fn contains_key(&self, key: &str) -> (found: bool)
        ensures
            found == self@.contains_key(key@),
    {
        self.position(key).is_some()
    }

    /// The value stored under `key`, if any.
    pub fn get(&self, key: &str) -> (value: Option<&V>)
        ensures
            match value {
                Some(v) => self@.contains_key(key@) && *v == self@[key@],
                None => !self@.contains_key(key@),
            },
    {
        proof {
            use_type_invariant(self);
        }
        match self.position(key) {
            Some(i) => {
                proof {
                    self.key_order().index_of_first_ensures(key@);
                }
                Some(&self.values[i])
            },
            None => None,
        }
    }

    /// Stores `value` under `key` and hands back the value it replaces, if any.
    /// A new key goes to the end of the key order.
    pub fn insert(&mut self, key: String, value: V) -> (previous: Option<V>)
        ensures
            final(self)@ == old(self)@.insert(key@, value),
            previous == if old(self)@.contains_key(key@) {
                Some(old(self)@[key@])
            } else {
                None::<V>
            },
            final(self).key_order() == if old(self)@.contains_key(key@) {
                old(self).key_order()
            } else {
                old(self).key_order().push(key@)
            },
    {
        proof {
            use_type_invariant(&*self);
        }
        let pos = self.position(key.as_str());
        let ghost before = *self;
        let mut taken = StringMap::new();
        std::mem::swap(self, &mut taken);
        let StringMap { mut keys, mut values } = taken;
        let ghost ks = before.key_order();
        let previous = match pos {
            Some(i) => {
                proof {
                    ks.index_of_first_ensures(key@);
                }
                values.push(value);
                let old_value = values.swap_remove(i);
                proof {
                    assert(values@ =~= before.values@.update(i as int, value));
                }
                Some(old_value)
            },
            None => {
                keys.push(key);
                values.push(value);
                proof {
                    assert(Self::chars_of(keys@) =~= ks.push(key@));
                    assert forall|a: int, b: int|
                        0 <= a < b < ks.push(key@).len() implies ks.push(key@)[a] != ks.push(key@)[b] by {
                        if b == ks.len() {
                            assert(ks.contains(ks[a]));
                        }
                    }
                }
                None
            },
        };
        *self = StringMap { keys, values };
        proof {
            let after = *self;
            let ks2 = after.key_order();
            if pos is Some {
                assert(ks2 =~= ks);
            } else {
                assert forall|k: Seq<char>| ks.contains(k) implies ks2.index_of(k) == ks.index_of(k) by {
                    let i = ks.index_of(k);
                    assert(ks2[i] == k);
                }
                assert(ks2[ks.len() as int] == key@);
                assert(ks2.contains(key@));
            }
            assert forall|k: Seq<char>| ks2.contains(k) <==> (ks.contains(k) || k == key@) by {
                if ks.contains(k) {
                    assert(ks2[ks.index_of(k)] == k);
                }
            }
            assert(after@ =~= before@.insert(key@, value));
        }
        previous
    }

    /// Takes the entry of `key` out of the map and hands back its value, if
    /// there was one. The other keys keep their order.
    pub fn remove(&mut self, key: &str) -> (removed: Option<V>)
        ensures
            final(self)@ == old(self)@.remove(key@),
            removed == if old(self)@.contains_key(key@) {
                Some(old(self)@[key@])
            } else {
                None::<V>
            },
            final(self).key_order() == old(self).key_order().remove_value(key@),
            final(self).key_order().len() == if old(self)@.contains_key(key@) {
                old(self).key_order().len() - 1
            } else {
                old(self).key_order().len() as int
            },
    {
        proof {
            use_type_invariant(&*self);
        }
        let pos = self.position(key);
        let ghost before = *self;
        match pos {
            Some(i) => {
                let mut taken = StringMap::new();
                std::mem::swap(self, &mut taken);
                let StringMap { mut keys, mut values } = taken;
                keys.remove(i);
                let value = values.remove(i);
                proof {
                    let ks = before.key_order();
                    assert(Self::chars_of(keys@) =~= ks.remove(i as int));
                    assert forall|a: int, b: int|
                        0 <= a < b < ks.remove(i as int).len() implies ks.remove(i as int)[a] != ks.remove(i as int)[b] by {
                        let a0 = if a < i { a } else { a + 1 };
                        let b0 = if b < i { b } else { b + 1 };
                        assert(ks[a0] != ks[b0]);
                    }
                }
                *self = StringMap { keys, values };
                proof {
                    let after = *self;
                    let ks = before.key_order();
                    ks.index_of_first_ensures(key@);
                    assert(ks.index_of_first(key@) == Some(i as int));
                    assert(after.key_order() =~= ks.remove(i as int));
                    assert(ks.remove_value(key@) == ks.remove(i as int));
                    assert forall|k: Seq<char>| after.key_order().contains(k) implies ks.contains(k) && k != key@ && before.values@[ks.index_of(k)] == after.values@[after.key_order().index_of(k)] by {
                        let j = after.key_order().index_of(k);
                        if j < i {
                            assert(ks[j] == k);
                        } else {
                            assert(ks[j + 1] == k);
                        }
                    }
                    assert forall|k: Seq<char>| ks.contains(k) && k != key@ implies after.key_order().contains(k) by {
                        let j = ks.index_of(k);
                        if j < i {
                            assert(after.key_order()[j] == k);
                        } else {
                            assert(after.key_order()[j - 1] == k);
                        }
                    }
                    assert(after@ =~= before@.remove(key@));
                }
                Some(value)
            },
            None => {
                proof {
                    let ks = before.key_order();
                    ks.index_of_first_ensures(key@);
                    assert(before@.remove(key@) =~= before@);
                }
                None
            },
        }
    }

    /// The number of entries, with what ties the key order to the view: the
    /// order lists every key of the map exactly once.
    pub fn len(&self) -> (n: usize)
        ensures
            n == self.key_order().len(),
            n == self@.dom().len(),
            self@.dom().finite(),
            self.key_order().no_duplicates(),
            self.key_order().to_set() == self@.dom(),
    {
        proof {
            use_type_invariant(self);
            let ks = self.key_order();
            assert(ks.to_set() =~= self@.dom());
            ks.unique_seq_to_set();
        }
        self.keys.len()
    }

    /// Whether the map has no entry.
    pub fn is_empty(&self) -> (empty: bool)
        ensures
            empty == (self@.dom() == Set::<Seq<char>>::empty()),
            empty == (self.key_order().len() == 0),
    {
        let n = self.len();
        proof {
            if n == 0 {
                assert(self@.dom() =~= Set::<Seq<char>>::empty());
            } else {
                assert(self.key_order().to_set().contains(self.key_order()[0]));
            }
        }
        n == 0
    }

    /// The key at place `index` of the key order, or `None` past its end.
    pub fn key_at(&self, index: usize) -> (key: Option<&String>)
        ensures
            match key {
                Some(k) => index < self.key_order().len() && k@ == self.key_order()[index as int]
                    && self@.contains_key(k@),
                None => index >= self.key_order().len(),
            },
    {
        if index < self.keys.len() {
            let k = &self.keys[index];
            assert(self.key_order()[index as int] == k@);
            Some(k)
        } else {
            None
        }
    }

    /// The value at place `index` of the key order, or `None` past its end.
    pub fn value_at(&self, index: usize) -> (value: Option<&V>)
        ensures
            match value {
                Some(v) => index < self.key_order().len() && *v == self@[self.key_order()[index as int]],
                None => index >= self.key_order().len(),
            },
    {
        proof {
            use_type_invariant(self);
        }
        if index < self.values.len() {
            proof {
                let ks = self.key_order();
                assert(ks.contains(ks[index as int]));
                assert(ks.index_of(ks[index as int]) == index);
            }
            Some(&self.values[index])
        } else {
            None
        }
    }
}

} // verus!
