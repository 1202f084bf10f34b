//! A small finite map keyed by strings.
//!
//! Branch names, virtual paths and mount points are all strings, and every
//! table of the filesystem is keyed by one of them. `StrMap` keeps such a table
//! as an association list whose keys are pairwise distinct, and presents it to
//! contracts as a mathematical `Map<Seq<char>, V>`.

use vstd::prelude::*;

verus! {

/// A finite map from strings to values of `V`.
pub struct StrMap<V> {
    keys: Vec<String>,
    vals: Vec<V>,
}

impl<V> View for StrMap<V> {
    type V = Map<Seq<char>, V>;

    closed spec fn view(&self) -> Map<Seq<char>, V> {
        Map::new(|k: Seq<char>| self.slot(k) >= 0, |k: Seq<char>| self.vals@[self.slot(k)])
    }
}

impl<V> StrMap<V> {
    /// Number of entries.
    pub closed spec fn size(&self) -> nat {
        self.keys@.len()
    }

    /// The keys, in insertion order.
    pub closed spec fn keys(&self) -> Seq<Seq<char>> {
        Seq::new(self.keys@.len(), |i: int| self.keys@[i]@)
    }

    /// Key of the `i`-th entry, in insertion order.
    pub closed spec fn key_at(&self, i: int) -> Seq<char> {
        self.keys@[i]@
    }

    /// Value of the `i`-th entry, in insertion order.
    pub closed spec fn val_at(&self, i: int) -> V {
        self.vals@[i]
    }

    /// Keys and values line up and no key occurs twice.
    pub closed spec fn wf(&self) -> bool {
        &&& self.keys@.len() == self.vals@.len()
        &&& forall|i: int, j: int|
            0 <= i < j < self.keys@.len() ==> self.keys@[i]@ != self.keys@[j]@
    }

    /// Position of key `k`, or -1 when it is absent.
    pub closed spec fn slot(&self, k: Seq<char>) -> int {
        if exists|i: int| 0 <= i < self.keys@.len() && self.keys@[i]@ == k {
            choose|i: int| 0 <= i < self.keys@.len() && self.keys@[i]@ == k
        } else {
            -1
        }
    }

    /// The entries seen by position are exactly the entries of the map.
    pub proof fn lemma_entries(&self)
        requires
            self.wf(),
        ensures
            forall|i: int|
                0 <= i < self.size() ==> #[trigger] self@.contains_key(self.key_at(i))
                    && self@[self.key_at(i)] == self.val_at(i) && self.slot(self.key_at(i)) == i,
            forall|k: Seq<char>| #[trigger]
                self@.contains_key(k) <==> 0 <= self.slot(k) < self.size(),
            forall|k: Seq<char>| #[trigger]
                self@.contains_key(k) ==> self.key_at(self.slot(k)) == k && self@[k]
                    == self.val_at(self.slot(k)),
            forall|i: int, j: int|
                0 <= i < self.size() && 0 <= j < self.size() && i != j ==> #[trigger] self.key_at(i)
                    != #[trigger] self.key_at(j),
            self@.dom().finite(),
            self@.dom().len() == self.size(),
            self.keys().len() == self.size(),
            forall|i: int| 0 <= i < self.size() ==> #[trigger] self.keys()[i] == self.key_at(i),
            self.keys().no_duplicates(),
            self.keys().to_set() == self@.dom(),
    {
        assert forall|i: int| 0 <= i < self.size() implies #[trigger] self@.contains_key(
            self.key_at(i),
        ) && self@[self.key_at(i)] == self.val_at(i) && self.slot(self.key_at(i)) == i by {
            self.lemma_slot_of(i);
        }
        assert forall|k: Seq<char>| #[trigger]
            self@.contains_key(k) implies self.key_at(self.slot(k)) == k && self@[k] == self.val_at(
            self.slot(k),
        ) by {}
        let names = self.keys@.map_values(|s: String| s@);
        assert(names =~= self.keys());
        assert(names.no_duplicates());
        assert(names.to_set() =~= self@.dom()) by {
            assert forall|k: Seq<char>| names.to_set().contains(k) implies self@.dom().contains(
                k,
            ) by {
                let i = choose|i: int| 0 <= i < names.len() && names[i] == k;
                self.lemma_slot_of(i);
            }
            assert forall|k: Seq<char>| self@.dom().contains(k) implies names.to_set().contains(
                k,
            ) by {
                assert(names[self.slot(k)] == k);
            }
        }
        names.unique_seq_to_set();
    }

    proof fn lemma_slot_of(&self, i: int)
        requires
            self.wf(),
            0 <= i < self.keys@.len(),
        ensures
            self.slot(self.keys@[i]@) == i,
            self@.contains_key(self.keys@[i]@),
            self@[self.keys@[i]@] == self.vals@[i],
    {
        let k = self.keys@[i]@;
        let j = self.slot(k);
        assert(0 <= j < self.keys@.len() && self.keys@[j]@ == k);
        if j < i {
            assert(self.keys@[j]@ != self.keys@[i]@);
        } else if i < j {
            assert(self.keys@[i]@ != self.keys@[j]@);
        }
    }

    /// The empty map.
    pub fn new() -> (m: Self)
        ensures
            m.wf(),
            m@ == Map::<Seq<char>, V>::empty(),
            m.size() == 0,
            m.keys() == Seq::<Seq<char>>::empty(),
    {
        let m = StrMap { keys: Vec::new(), vals: Vec::new() };
        assert(m@ =~= Map::<Seq<char>, V>::empty());
        assert(m.keys() =~= Seq::<Seq<char>>::empty());
        m
    }

    /// Number of entries.
    pub fn len(&self) -> (n: usize)
        ensures
            n == self.size(),
    {
        self.keys.len()
    }

    /// Position of key `k`, if it is present.
    pub fn find(&self, k: &str) -> (r: Option<usize>)
        requires
            self.wf(),
        ensures
            match r {
                Some(i) => i < self.size() && self.key_at(i as int) == k@ && self@.contains_key(k@)
                    && self.slot(k@) == i,
                None => !self@.contains_key(k@),
            },
    {
        let mut i: usize = 0;
        while i < self.keys.len()
            invariant
                self.wf(),
                i <= self.keys@.len(),
                forall|j: int| 0 <= j < i ==> self.keys@[j]@ != k@,
            decreases self.keys@.len() - i,
        {
            if *self.keys[i].as_str() == *k {
                proof {
                    self.lemma_slot_of(i as int);
                }
                return Some(i);
            }
            i += 1;
        }
        None
    }

    /// Whether `k` is bound.
    pub fn contains_key(&self, k: &str) -> (r: bool)
        requires
            self.wf(),
        ensures
            r == self@.contains_key(k@),
    {
        self.find(k).is_some()
    }

    /// The value bound to `k`.
    pub fn get(&self, k: &str) -> (r: Option<&V>)
        requires
            self.wf(),
        ensures
            match r {
                Some(v) => self@.contains_key(k@) && *v == self@[k@],
                None => !self@.contains_key(k@),
            },
    {
        match self.find(k) {
            Some(i) => {
                proof {
                    self.lemma_slot_of(i as int);
                }
                Some(&self.vals[i])
            },
            None => None,
        }
    }

    /// Key of the `i`-th entry.
    pub fn key(&self, i: usize) -> (r: &String)
        requires
            self.wf(),
            i < self.size(),
        ensures
            r@ == self.key_at(i as int),
    {
        &self.keys[i]
    }

    /// Value of the `i`-th entry.
    pub fn val(&self, i: usize) -> (r: &V)
        requires
            self.wf(),
            i < self.size(),
        ensures
            *r == self.val_at(i as int),
    {
        &self.vals[i]
    }

    /// The keys, in insertion order.
    pub fn key_list(&self) -> (r: Vec<String>)
        requires
            self.wf(),
        ensures
            r@.len() == self.size(),
            forall|i: int| 0 <= i < r@.len() ==> r@[i]@ == self.key_at(i),
            crate::text::views(r@) == self.keys(),
    {
        let r = self.keys.clone();
        assert(crate::text::views(r@) =~= self.keys());
        r
    }

    /// Replaces the value of the `i`-th entry.
    pub fn set_val(&mut self, i: usize, v: V)
        requires
            old(self).wf(),
            i < old(self).size(),
        ensures
            final(self).wf(),
            final(self).size() == old(self).size(),
            final(self)@ == old(self)@.insert(old(self).key_at(i as int), v),
            forall|j: int| 0 <= j < old(self).size() ==> final(self).key_at(j) == old(self).key_at(j),
            forall|j: int|
                0 <= j < old(self).size() && j != i ==> final(self).val_at(j) == old(self).val_at(j),
            final(self).val_at(i as int) == v,
            final(self).keys() == old(self).keys(),
    {
        let ghost before = *self;
        self.vals[i] = v;
        proof {
            let after = *self;
            assert(after.keys@ == before.keys@);
            assert(after.keys() =~= before.keys());
            assert forall|k: Seq<char>| after.slot(k) == before.slot(k) by {}
            before.lemma_slot_of(i as int);
            assert(after@ =~= before@.insert(before.keys@[i as int]@, v));
        }
    }

    /// Mutable access to the value of the `i`-th entry.
    pub fn val_mut(&mut self, i: usize) -> (r: &mut V)
        requires
            old(self).wf(),
            i < old(self).size(),
        ensures
            *r == old(self).val_at(i as int),
            final(self).wf(),
            final(self).size() == old(self).size(),
            final(self)@ == old(self)@.insert(old(self).key_at(i as int), *final(r)),
            forall|j: int| 0 <= j < old(self).size() ==> final(self).key_at(j) == old(self).key_at(j),
            forall|j: int|
                0 <= j < old(self).size() && j != i ==> final(self).val_at(j) == old(self).val_at(j),
            final(self).val_at(i as int) == *final(r),
            final(self).keys() == old(self).keys(),
    {
        &mut self.vals[i]
    }

    /// Binds `k` to `v`, replacing an earlier binding of `k`.
    pub fn insert(&mut self, k: String, v: V)
        requires
            old(self).wf(),
        ensures
            final(self).wf(),
            final(self)@ == old(self)@.insert(k@, v),
            old(self)@.contains_key(k@) ==> final(self).size() == old(self).size(),
            !old(self)@.contains_key(k@) ==> final(self).size() == old(self).size() + 1
                && final(self).key_at(old(self).size() as int) == k@ && final(self).val_at(
                old(self).size() as int,
            ) == v,
            forall|j: int| 0 <= j < old(self).size() ==> final(self).key_at(j) == old(self).key_at(j),
            forall|j: int|
                0 <= j < old(self).size() && old(self).key_at(j) != k@ ==> final(self).val_at(j)
                    == old(self).val_at(j),
            final(self).keys() == if old(self)@.contains_key(k@) {
                old(self).keys()
            } else {
                old(self).keys().push(k@)
            },
    {
        match self.find(k.as_str()) {
            Some(i) => {
                proof {
                    self.lemma_slot_of(i as int);
                }
                self.set_val(i, v);
            },
            None => {
                let ghost before = *self;
                self.keys.push(k);
                self.vals.push(v);
                proof {
                    let after = *self;
                    let n = before.keys@.len() as int;
                    assert forall|i: int| 0 <= i < n implies before.keys@[i]@ != k@ by {
                        before.lemma_slot_of(i);
                    }
                    assert(after.wf());
                    assert forall|q: Seq<char>| #[trigger]
                        after@.contains_key(q) <==> before@.insert(k@, v).contains_key(q) by {
                        if q == k@ {
                            after.lemma_slot_of(n);
                        } else if before@.contains_key(q) {
                            let i = before.slot(q);
                            after.lemma_slot_of(i);
                        } else if after@.contains_key(q) {
                            let i = after.slot(q);
                            assert(i < n);
                            before.lemma_slot_of(i);
                        }
                    }
                    assert forall|q: Seq<char>| #[trigger]
                        after@.contains_key(q) implies after@[q] == before@.insert(k@, v)[q] by {
                        if q == k@ {
                            after.lemma_slot_of(n);
                        } else {
                            let i = before.slot(q);
                            after.lemma_slot_of(i);
                        }
                    }
                    assert(after@ =~= before@.insert(k@, v));
                    assert(after.keys() =~= before.keys().push(k@));
                }
            },
        }
    }

    /// Removes the `i`-th entry and returns its value; later entries move up by one.
    pub fn remove_at(&mut self, i: usize) -> (v: V)
        requires
            old(self).wf(),
            i < old(self).size(),
        ensures
            final(self).wf(),
            v == old(self).val_at(i as int),
            final(self)@ == old(self)@.remove(old(self).key_at(i as int)),
            final(self).size() == old(self).size() - 1,
            forall|j: int| 0 <= j < i ==> final(self).key_at(j) == old(self).key_at(j)
                && final(self).val_at(j) == old(self).val_at(j),
            forall|j: int|
                i <= j < final(self).size() ==> final(self).key_at(j) == old(self).key_at(j + 1)
                    && final(self).val_at(j) == old(self).val_at(j + 1),
            final(self).keys() == old(self).keys().remove(i as int),
    {
        let ghost before = *self;
        let _k = self.keys.remove(i);
        let v = self.vals.remove(i);
        proof {
            let after = *self;
            let gone = before.keys@[i as int]@;
            assert(after.wf()) by {
                assert forall|a: int, b: int| 0 <= a < b < after.keys@.len() implies after.keys@[a]@
                    != after.keys@[b]@ by {
                    let a0 = if a < i { a } else { a + 1 };
                    let b0 = if b < i { b } else { b + 1 };
                    assert(before.keys@[a0]@ != before.keys@[b0]@);
                }
            }
            before.lemma_slot_of(i as int);
            assert forall|q: Seq<char>| #[trigger]
                after@.contains_key(q) <==> before@.remove(gone).contains_key(q) by {
                if after@.contains_key(q) {
                    let a = after.slot(q);
                    let a0 = if a < i { a } else { a + 1 };
                    before.lemma_slot_of(a0);
                    assert(before.keys@[a0]@ != before.keys@[i as int]@);
                }
                if before@.remove(gone).contains_key(q) {
                    let b = before.slot(q);
                    assert(b != i);
                    let b1 = if b < i { b } else { b - 1 };
                    after.lemma_slot_of(b1);
                }
            }
            assert forall|q: Seq<char>| #[trigger]
                after@.contains_key(q) implies after@[q] == before@.remove(gone)[q] by {
                let a = after.slot(q);
                let a0 = if a < i { a } else { a + 1 };
                before.lemma_slot_of(a0);
            }
            assert(after@ =~= before@.remove(gone));
            assert(after.keys() =~= before.keys().remove(i as int));
        }
        v
    }

    /// Removes the binding of `k`, if there is one, and returns its value.
    pub fn remove(&mut self, k: &str) -> (r: Option<V>)
        requires
            old(self).wf(),
        ensures
            final(self).wf(),
            final(self)@ == old(self)@.remove(k@),
            match r {
                Some(v) => old(self)@.contains_key(k@) && v == old(self)@[k@],
                None => !old(self)@.contains_key(k@),
            },
            final(self).keys() == if old(self)@.contains_key(k@) {
                old(self).keys().remove(old(self).slot(k@))
            } else {
                old(self).keys()
            },
    {
        match self.find(k) {
            Some(i) => {
                proof {
                    self.lemma_slot_of(i as int);
                }
                Some(self.remove_at(i))
            },
            None => {
                assert(self@ =~= self@.remove(k@));
                None
            },
        }
    }

    /// Removes every binding.
    pub fn clear(&mut self)
        ensures
            final(self).wf(),
            final(self)@ == Map::<Seq<char>, V>::empty(),
            final(self).size() == 0,
            final(self).keys() == Seq::<Seq<char>>::empty(),
    {
        self.keys.clear();
        self.vals.clear();
        assert(self@ =~= Map::<Seq<char>, V>::empty());
        assert(self.keys() =~= Seq::<Seq<char>>::empty());
    }
}

} // verus!
