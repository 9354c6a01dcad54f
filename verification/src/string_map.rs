use vstd::prelude::*;

verus! {

/// A finite map from strings to values.
///
/// The entries are kept in a vector in which no key occurs twice. The view is the
/// mathematical map from each key's characters to the view of its value; two maps
/// with the same view hold the same content, whatever the order of their entries.
#[derive(Debug)]
pub struct StringMap<V: View> {
    entries: Vec<(String, V)>,
}

impl<V: View> View for StringMap<V> {
    type V = Map<Seq<char>, V::V>;

    closed spec fn view(&self) -> Map<Seq<char>, V::V> {
        Map::new(
            |k: Seq<char>| self.key_seq().contains(k),
            |k: Seq<char>| self.entries@[self.key_seq().index_of(k)].1@,
        )
    }
}

impl<V: View + Clone> Clone for StringMap<V> {
    /// A map with the same keys in the same order, each with a clone of its value.
    fn clone(&self) -> (copy: Self)
        ensures
            copy.key_seq() == self.key_seq(),
            copy.value_seq().len() == self.value_seq().len(),
            forall|i: int|
                0 <= i < self.value_seq().len() ==> cloned(
                    #[trigger] self.value_seq()[i],
                    copy.value_seq()[i],
                ),
    {
        proof {
            use_type_invariant(self);
        }
        let mut entries: Vec<(String, V)> = Vec::new();
        let mut i: usize = 0;
        while i < self.entries.len()
            invariant
                i <= self.entries@.len(),
                entries@.len() == i,
                forall|j: int| 0 <= j < i ==> entries@[j].0@ == self.entries@[j].0@,
                forall|j: int| 0 <= j < i ==> cloned(self.entries@[j].1, entries@[j].1),
            decreases self.entries@.len() - i,
        {
            let key = self.entries[i].0.clone();
            let value = self.entries[i].1.clone();
            entries.push((key, value));
            i += 1;
        }
        proof {
            assert(Self::keys_of(entries@) =~= self.key_seq());
        }
        StringMap { entries }
    }
}

impl<V: View> StringMap<V> {
    /// The keys in the order in which `key` and `value` hand them out.
    pub closed spec fn key_seq(&self) -> Seq<Seq<char>> {
        Self::keys_of(self.entries@)
    }

    /// The values in the order in which `value` hands them out: the value at a
    /// position belongs to the key at that position.
    pub closed spec fn value_seq(&self) -> Seq<V> {
        Seq::new(self.entries@.len(), |i: int| self.entries@[i].1)
    }

    spec fn keys_of(entries: Seq<(String, V)>) -> Seq<Seq<char>> {
        Seq::new(entries.len(), |i: int| entries[i].0@)
    }

    #[verifier::type_invariant]
    spec fn keys_are_distinct(&self) -> bool {
        self.key_seq().no_duplicates()
    }

    /// What ties the key sequence to the view, for a map whose keys are distinct.
    pub open spec fn keys_describe_view(&self) -> bool {
        &&& self.key_seq().no_duplicates()
        &&& self.value_seq().len() == self.key_seq().len()
        &&& self.key_seq().to_set() == self@.dom()
        &&& self@.dom().finite()
        &&& self@.len() == self.key_seq().len()
    }

    proof fn lemma_entry(&self, i: int)
        requires
            self.key_seq().no_duplicates(),
            0 <= i < self.entries@.len(),
        ensures
            self.key_seq()[i] == self.entries@[i].0@,
            self@.contains_key(self.entries@[i].0@),
            self@[self.entries@[i].0@] == self.entries@[i].1@,
    {
        let keys = self.key_seq();
        let k = self.entries@[i].0@;
        assert(keys[i] == k);
        let j = keys.index_of(k);
        assert(0 <= j < keys.len() && keys[j] == k);
        assert(j == i);
    }

    proof fn lemma_absent(&self, k: Seq<char>)
        requires
            forall|i: int| 0 <= i < self.entries@.len() ==> self.entries@[i].0@ != k,
        ensures
            !self@.contains_key(k),
    {
        let keys = self.key_seq();
        if keys.contains(k) {
            let j = choose|j: int| 0 <= j < keys.len() && keys[j] == k;
            assert(self.entries@[j].0@ == k);
        }
    }

    proof fn lemma_present(&self, k: Seq<char>) -> (i: int)
        requires
            self.key_seq().no_duplicates(),
            self@.contains_key(k),
        ensures
            0 <= i < self.entries@.len(),
            self.entries@[i].0@ == k,
            self@[k] == self.entries@[i].1@,
    {
        let keys = self.key_seq();
        let i = choose|i: int| 0 <= i < keys.len() && keys[i] == k;
        self.lemma_entry(i);
        i
    }

    proof fn lemma_keys_describe_view(&self)
        requires
            self.key_seq().no_duplicates(),
        ensures
            self.keys_describe_view(),
    {
        let keys = self.key_seq();
        assert(keys.to_set() =~= self@.dom());
        vstd::seq_lib::seq_to_set_is_finite(keys);
        keys.unique_seq_to_set();
    }

    /// The empty map.
    pub fn new() -> (m: Self)
        ensures
            m@ == Map::<Seq<char>, V::V>::empty(),
            m.key_seq() == Seq::<Seq<char>>::empty(),
    {
        let m = StringMap { entries: Vec::new() };
        proof {
            assert(m.key_seq() =~= Seq::<Seq<char>>::empty());
            assert(m@ =~= Map::<Seq<char>, V::V>::empty());
        }
        m
    }

    /// The number of entries.
    pub fn len(&self) -> (n: usize)
        ensures
            n == self@.len(),
            n == self.key_seq().len(),
            self.keys_describe_view(),
    {
        proof {
            use_type_invariant(self);
            self.lemma_keys_describe_view();
        }
        self.entries.len()
    }

    /// Whether the map holds no entry.
    pub fn is_empty(&self) -> (b: bool)
        ensures
            b == (self@.len() == 0),
            b == (self@ == Map::<Seq<char>, V::V>::empty()),
    {
        proof {
            use_type_invariant(self);
            self.lemma_keys_describe_view();
            if self.entries@.len() == 0 {
                assert(self@ =~= Map::<Seq<char>, V::V>::empty());
            } else {
                self.lemma_entry(0);
            }
        }
        self.entries.len() == 0
    }

    /// The key of the entry at position `i`.
    pub fn key(&self, i: usize) -> (k: &String)
        requires
            i < self.key_seq().len(),
        ensures
            k@ == self.key_seq()[i as int],
            self@.contains_key(k@),
    {
        proof {
            use_type_invariant(self);
            self.lemma_entry(i as int);
        }
        &self.entries[i].0
    }

    /// The value of the entry at position `i`.
    pub fn value(&self, i: usize) -> (v: &V)
        requires
            i < self.key_seq().len(),
        ensures
            *v == self.value_seq()[i as int],
            self@.contains_key(self.key_seq()[i as int]),
            v@ == self@[self.key_seq()[i as int]],
    {
        proof {
            use_type_invariant(self);
            self.lemma_entry(i as int);
        }
        &self.entries[i].1
    }

    fn position(&self, key: &str) -> (r: Option<usize>)
        ensures
            match r {
                Some(i) => i < self.entries@.len() && self.entries@[i as int].0@ == key@,
                None => forall|i: int| 0 <= i < self.entries@.len() ==> self.entries@[i].0@ != key@,
            },
    {
        let wanted = key.to_owned();
        let mut i: usize = 0;
        while i < self.entries.len()
            invariant
                i <= self.entries@.len(),
                wanted@ == key@,
                forall|j: int| 0 <= j < i ==> self.entries@[j].0@ != key@,
            decreases self.entries@.len() - i,
        {
            if self.entries[i].0 == wanted {
                return Some(i);
            }
            i += 1;
        }
        None
    }

    /// Whether the map holds an entry for `key`.
    pub fn contains_key(&self, key: &str) -> (b: bool)
        ensures
            b == self@.contains_key(key@),
    {
        let found = self.position(key);
        proof {
            use_type_invariant(self);
            match found {
                Some(i) => self.lemma_entry(i as int),
                None => self.lemma_absent(key@),
            }
        }
        found.is_some()
    }

    /// The value stored for `key`, if there is one.
    pub fn get(&self, key: &str) -> (r: Option<&V>)
        ensures
            match r {
                Some(v) => self@.contains_key(key@) && v@ == self@[key@],
                None => !self@.contains_key(key@),
            },
    {
        let found = self.position(key);
        proof {
            use_type_invariant(self);
            match found {
                Some(i) => self.lemma_entry(i as int),
                None => self.lemma_absent(key@),
            }
        }
        match found {
            Some(i) => Some(&self.entries[i].1),
            None => None,
        }
    }

    /// Takes the entry for `key` out of the map and returns its value, if there was one.
    pub fn remove(&mut self, key: &str) -> (r: Option<V>)
        ensures
            final(self)@ == old(self)@.remove(key@),
            match r {
                Some(v) => old(self)@.contains_key(key@) && v@ == old(self)@[key@],
                None => !old(self)@.contains_key(key@),
            },
    {
        let found = self.position(key);
        proof {
            use_type_invariant(&*self);
        }
        match found {
            Some(i) => {
                let ghost before = *self;
                let mut entries: Vec<(String, V)> = Vec::new();
                proof {
                    assert(Self::keys_of(entries@) =~= Seq::<Seq<char>>::empty());
                }
                core::mem::swap(&mut self.entries, &mut entries);
                let entry = entries.remove(i);
                proof {
                    let keys = Self::keys_of(entries@);
                    assert(keys =~= before.key_seq().remove(i as int));
                    assert forall|a: int, b: int|
                        0 <= a < keys.len() && 0 <= b < keys.len() && a != b implies keys[a]
                        != keys[b] by {
                        let a0 = if a < i { a } else { a + 1 };
                        let b0 = if b < i { b } else { b + 1 };
                        assert(before.key_seq()[a0] != before.key_seq()[b0]);
                    }
                }
                core::mem::swap(&mut self.entries, &mut entries);
                proof {
                    let after = *self;
                    assert(after.entries@ == before.entries@.remove(i as int));
                    assert(after.key_seq() =~= before.key_seq().remove(i as int));
                    assert(after.key_seq().no_duplicates()) by {
                        assert forall|a: int, b: int|
                            0 <= a < after.key_seq().len() && 0 <= b < after.key_seq().len() && a
                                != b implies after.key_seq()[a] != after.key_seq()[b] by {
                            let a0 = if a < i { a } else { a + 1 };
                            let b0 = if b < i { b } else { b + 1 };
                            assert(before.key_seq()[a0] != before.key_seq()[b0]);
                        }
                    }
                    before.lemma_entry(i as int);
                    assert forall|j: int| 0 <= j < after.entries@.len() implies after.entries@[j].0@
                        != key@ by {
                        let j0 = if j < i { j } else { j + 1 };
                        assert(before.key_seq()[j0] != before.key_seq()[i as int]);
                    }
                    after.lemma_absent(key@);
                    let target = before@.remove(key@);
                    assert forall|k: Seq<char>| #[trigger]
                        after@.dom().contains(k) == target.dom().contains(k) by {
                        if k != key@ && before@.contains_key(k) {
                            let j0 = before.lemma_present(k);
                            let j = if j0 < i { j0 } else { j0 - 1 };
                            after.lemma_entry(j);
                        }
                        if k != key@ && after@.contains_key(k) {
                            let j = after.lemma_present(k);
                            let j0 = if j < i { j } else { j + 1 };
                            before.lemma_entry(j0);
                        }
                    }
                    assert forall|k: Seq<char>| #[trigger]
                        after@.dom().contains(k) implies after@[k] == target[k] by {
                        let j = after.lemma_present(k);
                        let j0 = if j < i { j } else { j + 1 };
                        before.lemma_entry(j0);
                    }
                    assert(after@ =~= target);
                }
                Some(entry.1)
            },
            None => {
                proof {
                    self.lemma_absent(key@);
                    assert(self@ =~= self@.remove(key@));
                }
                None
            },
        }
    }

    /// Stores `value` under `key`, in place of what was stored under it before.
    pub fn insert(&mut self, key: String, value: V)
        ensures
            final(self)@ == old(self)@.insert(key@, value@),
    {
        let _ = self.remove(key.as_str());
        proof {
            use_type_invariant(&*self);
        }
        let ghost before = *self;
        let ghost k = key@;
        let ghost v = value@;
        proof {
            assert(!before@.contains_key(k));
            assert forall|j: int| 0 <= j < before.entries@.len() implies before.entries@[j].0@
                != k by {
                before.lemma_entry(j);
            }
        }
        let mut entries: Vec<(String, V)> = Vec::new();
        proof {
            assert(Self::keys_of(entries@) =~= Seq::<Seq<char>>::empty());
        }
        core::mem::swap(&mut self.entries, &mut entries);
        entries.push((key, value));
        proof {
            assert(Self::keys_of(entries@) =~= before.key_seq().push(k));
            assert(Self::keys_of(entries@).no_duplicates());
        }
        core::mem::swap(&mut self.entries, &mut entries);
        proof {
            let after = *self;
            let n = before.entries@.len() as int;
            assert(after.entries@ == before.entries@.push((key, value)));
            assert(after.key_seq() =~= before.key_seq().push(k));
            assert(after.key_seq().no_duplicates());
            after.lemma_entry(n);
            let target = before@.insert(k, v);
            assert forall|q: Seq<char>| #[trigger]
                after@.dom().contains(q) == target.dom().contains(q) by {
                if q != k && before@.contains_key(q) {
                    let j = before.lemma_present(q);
                    after.lemma_entry(j);
                }
                if q != k && after@.contains_key(q) {
                    let j = after.lemma_present(q);
                    before.lemma_entry(j);
                }
            }
            assert forall|q: Seq<char>| #[trigger]
                after@.dom().contains(q) implies after@[q] == target[q] by {
                if q != k {
                    let j = after.lemma_present(q);
                    before.lemma_entry(j);
                }
            }
            assert(after@ =~= target);
            assert(before@.insert(k, v) =~= old(self)@.insert(k, v));
        }
    }
}

} // verus!
