//! A table of values kept under unique names.
use vstd::prelude::*;

verus! {

/// Values kept under unique names, in the order in which names were first
/// recorded.
#[derive(Debug)]
pub struct Ledger<V> {
    entries: Vec<(String, V)>,
}

impl<V> Ledger<V> {
    /// The names, in the order in which they were first recorded.
    closed spec fn names(&self) -> Seq<Seq<char>> {
        self.entries@.map_values(|e: (String, V)| e.0@)
    }

    /// No name is recorded twice.
    #[verifier::type_invariant]
    closed spec fn names_unique(&self) -> bool {
        self.names().no_duplicates()
    }

    /// Position `i` of the entries holds the entry for its name in the view.
    proof fn lemma_entry(&self, i: int)
        requires
            self.names_unique(),
            0 <= i < self.entries@.len(),
        ensures
            self@.contains_key(self.entries@[i].0@),
            self@[self.entries@[i].0@] == self.entries@[i].1,
            self.names().index_of(self.entries@[i].0@) == i,
    {
        let k = self.entries@[i].0@;
        assert(self.names()[i] == k);
        assert(self.names().contains(k));
        let j = self.names().index_of(k);
        assert(self.names()[j] == k);
    }

    /// The view has finitely many keys.
    proof fn lemma_finite(&self)
        ensures
            self@.dom().finite(),
    {
        assert(self@.dom() =~= self.names().to_set());
        vstd::seq_lib::seq_to_set_is_finite(self.names());
    }

    /// The view has exactly one key per entry.
    proof fn lemma_len(&self)
        requires
            self.names_unique(),
        ensures
            self@.len() == self.entries@.len(),
    {
        self.names().unique_seq_to_set();
        assert(self@.dom() =~= self.names().to_set());
    }
}

impl<V> View for Ledger<V> {
    type V = Map<Seq<char>, V>;

    /// Each recorded name, mapped to the value kept under it.
    closed spec fn view(&self) -> Map<Seq<char>, V> {
        Map::new(
            |k: Seq<char>| self.names().contains(k),
            |k: Seq<char>| self.entries@[self.names().index_of(k)].1,
        )
    }
}

impl<V> Ledger<V> {
    /// An empty ledger.
    pub fn new() -> (l: Self)
        ensures
            l@ == Map::<Seq<char>, V>::empty(),
    {
        let l = Ledger { entries: Vec::new() };
        assert(l@ =~= Map::<Seq<char>, V>::empty());
        l
    }

    /// Number of names recorded.
    pub fn len(&self) -> (n: usize)
        ensures
            self@.dom().finite(),
            n == self@.len(),
    {
        proof {
            use_type_invariant(self);
            self.lemma_len();
            self.lemma_finite();
        }
        self.entries.len()
    }

    /// Position of the entry for `name`, if there is one.
    fn position(&self, name: &str) -> (r: Option<usize>)
        ensures
            r matches Some(i) ==> i < self.entries@.len() && self.entries@[i as int].0@ == name@,
            r is None ==> !self@.contains_key(name@),
    {
        let wanted = name.to_owned();
        let mut i: usize = 0;
        while i < self.entries.len()
            invariant
                i <= self.entries@.len(),
                wanted@ == name@,
                forall|j: int| 0 <= j < i ==> self.entries@[j].0@ != name@,
            decreases self.entries@.len() - i,
        {
            if self.entries[i].0 == wanted {
                return Some(i);
            }
            i = i + 1;
        }
        proof {
            if self.names().contains(name@) {
                let j = choose|j: int| 0 <= j < self.names().len() && self.names()[j] == name@;
                assert(self.entries@[j].0@ == name@);
            }
        }
        None
    }

    /// The value kept under `name`, if any.
    pub fn get(&self, name: &str) -> (r: Option<&V>)
        ensures
            r matches Some(v) ==> self@.contains_key(name@) && *v == self@[name@],
            r is None ==> !self@.contains_key(name@),
    {
        proof {
            use_type_invariant(self);
        }
        match self.position(name) {
            Some(i) => {
                proof {
                    self.lemma_entry(i as int);
                }
                Some(&self.entries[i].1)
            },
            None => None,
        }
    }

    /// Keeps `value` under `name`, in place of any value kept there before.
    pub fn insert(&mut self, name: &str, value: V)
        ensures
            final(self)@ == old(self)@.insert(name@, value),
    {
        proof {
            use_type_invariant(&*self);
        }
        let ghost before = *self;
        match self.position(name) {
            Some(i) => {
                proof {
                    before.lemma_entry(i as int);
                }
                let owned = name.to_owned();
                let ghost names_before = self.names();
                let mut entries: Vec<(String, V)> = Vec::new();
                std::mem::swap(&mut entries, &mut self.entries);
                entries.set(i, (owned, value));
                proof {
                    assert(entries@.map_values(|e: (String, V)| e.0@) =~= names_before);
                }
                self.entries = entries;
                proof {
                    assert(self.names() =~= names_before.update(i as int, name@));
                    assert(self.names() =~= names_before);
                    assert forall|k: Seq<char>| #[trigger] self@.contains_key(k) == before@.insert(name@, value).contains_key(k) by {}
                    assert forall|k: Seq<char>| self@.contains_key(k) implies self@[k] == #[trigger] before@.insert(name@, value)[k] by {
                        let j = self.names().index_of(k);
                        self.lemma_entry(j);
                        if k != name@ {
                            before.lemma_entry(j);
                        }
                    }
                    assert(self@ =~= before@.insert(name@, value));
                }
            },
            None => {
                let owned = name.to_owned();
                let mut entries: Vec<(String, V)> = Vec::new();
                std::mem::swap(&mut entries, &mut self.entries);
                entries.push((owned, value));
                proof {
                    let ns = entries@.map_values(|e: (String, V)| e.0@);
                    assert(ns =~= before.names().push(name@));
                    assert forall|a: int, b: int| 0 <= a < ns.len() && 0 <= b < ns.len() && a != b
                        implies ns[a] != ns[b] by {
                        if a == before.names().len() || b == before.names().len() {
                            assert(!before.names().contains(name@));
                        } else {
                            assert(ns[a] == before.names()[a] && ns[b] == before.names()[b]);
                        }
                    }
                }
                self.entries = entries;
                proof {
                    assert(self.names() =~= before.names().push(name@));
                    assert forall|k: Seq<char>| #[trigger] self@.contains_key(k) == before@.insert(name@, value).contains_key(k) by {
                        if k == name@ {
                            assert(self.names()[before.names().len() as int] == k);
                        }
                        if before.names().contains(k) {
                            let j = choose|j: int| 0 <= j < before.names().len() && before.names()[j] == k;
                            assert(self.names()[j] == k);
                        }
                        if self.names().contains(k) && k != name@ {
                            let j = choose|j: int| 0 <= j < self.names().len() && self.names()[j] == k;
                            assert(before.names()[j] == k);
                        }
                    }
                    assert forall|k: Seq<char>| self@.contains_key(k) implies self@[k] == #[trigger] before@.insert(name@, value)[k] by {
                        let j = self.names().index_of(k);
                        self.lemma_entry(j);
                        if k != name@ {
                            assert(j < before.entries@.len());
                            before.lemma_entry(j);
                        }
                    }
                    assert(self@ =~= before@.insert(name@, value));
                }
            },
        }
    }

    /// Removes `name` and returns the value kept under it, if any.
    pub fn remove(&mut self, name: &str) -> (r: Option<V>)
        ensures
            final(self)@ == old(self)@.remove(name@),
            r matches Some(v) ==> old(self)@.contains_key(name@) && v == old(self)@[name@],
            r is None ==> !old(self)@.contains_key(name@),
    {
        proof {
            use_type_invariant(&*self);
        }
        let ghost before = *self;
        match self.position(name) {
            Some(i) => {
                proof {
                    before.lemma_entry(i as int);
                }
                let mut entries: Vec<(String, V)> = Vec::new();
                std::mem::swap(&mut entries, &mut self.entries);
                let (_, v) = entries.remove(i);
                proof {
                    let ns = entries@.map_values(|e: (String, V)| e.0@);
                    assert(ns =~= before.names().remove(i as int));
                    assert forall|a: int, b: int| 0 <= a < ns.len() && 0 <= b < ns.len() && a != b
                        implies ns[a] != ns[b] by {
                        let a0 = if a < i { a } else { a + 1 };
                        let b0 = if b < i { b } else { b + 1 };
                        assert(ns[a] == before.names()[a0] && ns[b] == before.names()[b0]);
                    }
                }
                self.entries = entries;
                proof {
                    let ns = self.names();
                    assert(ns =~= before.names().remove(i as int));
                    assert forall|k: Seq<char>| #[trigger] self@.contains_key(k) == before@.remove(name@).contains_key(k) by {
                        if self.names().contains(k) {
                            let j = choose|j: int| 0 <= j < ns.len() && ns[j] == k;
                            let j0 = if j < i { j } else { j + 1 };
                            assert(before.names()[j0] == k);
                            assert(j0 != i);
                        }
                        if before.names().contains(k) && k != name@ {
                            let j = choose|j: int| 0 <= j < before.names().len() && before.names()[j] == k;
                            assert(j != i);
                            let j1 = if j < i { j } else { j - 1 };
                            assert(ns[j1] == k);
                        }
                    }
                    assert forall|k: Seq<char>| self@.contains_key(k) implies self@[k] == #[trigger] before@.remove(name@)[k] by {
                        let j = self.names().index_of(k);
                        self.lemma_entry(j);
                        let j0 = if j < i { j } else { j + 1 };
                        assert(before.entries@[j0] == self.entries@[j]);
                        before.lemma_entry(j0);
                    }
                    assert(self@ =~= before@.remove(name@));
                }
                Some(v)
            },
            None => {
                assert(before@.remove(name@) =~= before@);
                None
            },
        }
    }

    /// Every name with the value kept under it, each name once.
    pub fn entries(&self) -> (r: &Vec<(String, V)>)
        ensures
            r@.len() == self@.len(),
            forall|i: int| 0 <= i < r@.len() ==> #[trigger] self@.contains_key(r@[i].0@),
            forall|i: int| 0 <= i < r@.len() ==> self@[#[trigger] r@[i].0@] == r@[i].1,
            forall|i: int, j: int| 0 <= i < j < r@.len() ==> #[trigger] r@[i].0@ != #[trigger] r@[j].0@,
            forall|k: Seq<char>| #[trigger] self@.contains_key(k) ==> exists|i: int| 0 <= i < r@.len() && r@[i].0@ == k,
    {
        proof {
            use_type_invariant(self);
            self.lemma_len();
            assert forall|i: int| 0 <= i < self.entries@.len() implies #[trigger] self@.contains_key(self.entries@[i].0@)
                && self@[self.entries@[i].0@] == self.entries@[i].1 by {
                self.lemma_entry(i);
            }
            assert forall|i: int, j: int| 0 <= i < j < self.entries@.len() implies
                #[trigger] self.entries@[i].0@ != #[trigger] self.entries@[j].0@ by {
                assert(self.names()[i] == self.entries@[i].0@);
                assert(self.names()[j] == self.entries@[j].0@);
            }
            assert forall|k: Seq<char>| #[trigger] self@.contains_key(k) implies exists|i: int| 0 <= i < self.entries@.len() && self.entries@[i].0@ == k by {
                let i = choose|i: int| 0 <= i < self.names().len() && self.names()[i] == k;
                assert(self.entries@[i].0@ == k);
            }
        }
        &self.entries
    }
}

impl<V: Clone> Clone for Ledger<V> {
    /// The same names, each with a clone of its value.
    fn clone(&self) -> (r: Self)
        ensures
            r@.dom() == self@.dom(),
            forall|k: Seq<char>| #[trigger] r@.contains_key(k) ==> cloned::<V>(self@[k], r@[k]),
    {
        proof {
            use_type_invariant(self);
        }
        let mut entries: Vec<(String, V)> = Vec::new();
        let mut i: usize = 0;
        while i < self.entries.len()
            invariant
                i <= self.entries@.len(),
                entries@.len() == i,
                forall|j: int| 0 <= j < i ==> #[trigger] entries@[j].0@ == self.entries@[j].0@,
                forall|j: int| 0 <= j < i ==> cloned::<V>(self.entries@[j].1, #[trigger] entries@[j].1),
            decreases self.entries@.len() - i,
        {
            let name = self.entries[i].0.clone();
            let value = self.entries[i].1.clone();
            entries.push((name, value));
            i = i + 1;
        }
        proof {
            assert(entries@.map_values(|e: (String, V)| e.0@) =~= self.names());
        }
        let r = Ledger { entries };
        proof {
            assert(r.names() =~= self.names());
            assert(r@.dom() =~= self@.dom());
            assert forall|k: Seq<char>| #[trigger] r@.contains_key(k) implies cloned::<V>(self@[k], r@[k]) by {
                let j = r.names().index_of(k);
                r.lemma_entry(j);
                self.lemma_entry(j);
            }
        }
        r
    }
}

} // verus!
