//! A finite map from names to values, kept as a list of distinct names.

use vstd::prelude::*;

verus! {

/// Cloning a `T` always gives a value equal to the one that was cloned.
pub open spec fn clone_is_exact<T: Clone>() -> bool {
    forall|a: T, b: T| #[trigger] vstd::pervasive::cloned::<T>(a, b) ==> a == b
}

/// A map from names to values. Viewed as a `Map` from the characters of a
/// name to the value bound to it.
#[derive(Debug)]
pub struct NameMap<T> {
    names: Vec<String>,
    values: Vec<T>,
}

impl<T> View for NameMap<T> {
    type V = Map<Seq<char>, T>;

    closed spec fn view(&self) -> Map<Seq<char>, T> {
        Map::new(|k: Seq<char>| self.has(k), |k: Seq<char>| self.values@[self.index_of(k)])
    }
}

impl<T> NameMap<T> {
    /// Some entry carries the name `k`.
    spec fn has(&self, k: Seq<char>) -> bool {
        exists|i: int| 0 <= i < self.names@.len() && (#[trigger] self.names@[i])@ == k
    }

    /// The position of an entry that carries the name `k`.
    spec fn index_of(&self, k: Seq<char>) -> int {
        choose|i: int| 0 <= i < self.names@.len() && (#[trigger] self.names@[i])@ == k
    }

    /// Every name has one value and no name occurs twice.
    pub closed spec fn wf(&self) -> bool {
        &&& self.names@.len() == self.values@.len()
        &&& forall|i: int, j: int|
            0 <= i < j < self.names@.len() ==> (#[trigger] self.names@[i])@ != (
            #[trigger] self.names@[j])@
    }

    proof fn lemma_at(&self, i: int)
        requires
            self.wf(),
            0 <= i < self.names@.len(),
        ensures
            self@.contains_key(self.names@[i]@),
            self@[self.names@[i]@] == self.values@[i],
    {
        let k = self.names@[i]@;
        let j = self.index_of(k);
        assert(self.has(k));
        assert(0 <= j < self.names@.len() && self.names@[j]@ == k);
        assert(i == j);
    }

    proof fn lemma_absent(&self, k: Seq<char>)
        requires
            forall|i: int| 0 <= i < self.names@.len() ==> (#[trigger] self.names@[i])@ != k,
        ensures
            !self@.contains_key(k),
    {
    }

    /// The empty map.
    pub fn new() -> (r: Self)
        ensures
            r.wf(),
            r@ == Map::<Seq<char>, T>::empty(),
            r.keys() == Seq::<Seq<char>>::empty(),
    {
        let r = NameMap { names: Vec::new(), values: Vec::new() };
        assert(r.keys() =~= Seq::<Seq<char>>::empty());
        assert(r@ =~= Map::<Seq<char>, T>::empty());
        r
    }

    fn find(&self, name: &str) -> (r: Option<usize>)
        ensures
            match r {
                Some(i) => i < self.names@.len() && self.names@[i as int]@ == name@,
                None => forall|i: int|
                    0 <= i < self.names@.len() ==> (#[trigger] self.names@[i])@ != name@,
            },
    {
        let key = name.to_owned();
        let mut i: usize = 0;
        while i < self.names.len()
            invariant
                i <= self.names@.len(),
                key@ == name@,
                forall|j: int| 0 <= j < i ==> (#[trigger] self.names@[j])@ != name@,
            decreases self.names@.len() - i,
        {
            if self.names[i] == key {
                return Some(i);
            }
            i += 1;
        }
        None
    }

    /// Whether `name` is bound.
    pub fn contains_key(&self, name: &str) -> (r: bool)
        requires
            self.wf(),
        ensures
            r == self@.contains_key(name@),
    {
        match self.find(name) {
            Some(i) => {
                proof {
                    self.lemma_at(i as int);
                }
                true
            },
            None => {
                proof {
                    self.lemma_absent(name@);
                }
                false
            },
        }
    }

    /// The value bound to `name`, if there is one.
    pub fn get(&self, name: &str) -> (r: Option<&T>)
        requires
            self.wf(),
        ensures
            match r {
                Some(v) => self@.contains_key(name@) && *v == self@[name@],
                None => !self@.contains_key(name@),
            },
    {
        match self.find(name) {
            Some(i) => {
                proof {
                    self.lemma_at(i as int);
                }
                Some(&self.values[i])
            },
            None => {
                proof {
                    self.lemma_absent(name@);
                }
                None
            },
        }
    }

    /// The bound names, in the order in which they are kept.
    pub closed spec fn keys(&self) -> Seq<Seq<char>> {
        self.names@.map_values(|s: String| s@)
    }

    /// The kept names are the bound names, each once.
    pub proof fn lemma_keys(&self)
        requires
            self.wf(),
        ensures
            self.keys().no_duplicates(),
            self.keys().to_set() == self@.dom(),
            self.keys().len() == self@.dom().len(),
            self@.dom().finite(),
    {
        let keys = self.keys();
        assert forall|k: Seq<char>| keys.to_set().contains(k) == self@.dom().contains(k) by {
            if keys.contains(k) {
                let i = choose|i: int| 0 <= i < keys.len() && keys[i] == k;
                assert(self.names@[i]@ == k);
            }
            if self.has(k) {
                let i = self.index_of(k);
                assert(keys[i] == k);
            }
        }
        assert(keys.to_set() =~= self@.dom());
        keys.unique_seq_to_set();
    }

    /// The number of bound names.
    pub fn len(&self) -> (r: usize)
        requires
            self.wf(),
        ensures
            r == self.keys().len(),
            r == self@.dom().len(),
    {
        proof {
            self.lemma_keys();
        }
        self.names.len()
    }

    /// The name kept at position `i`.
    pub fn key_at(&self, i: usize) -> (r: &str)
        requires
            self.wf(),
            i < self.keys().len(),
        ensures
            r@ == self.keys()[i as int],
            self@.contains_key(r@),
    {
        proof {
            self.lemma_at(i as int);
        }
        self.names[i].as_str()
    }

    /// The value bound to the name kept at position `i`.
    pub fn value_at(&self, i: usize) -> (r: &T)
        requires
            self.wf(),
            i < self.keys().len(),
        ensures
            self@.contains_key(self.keys()[i as int]),
            *r == self@[self.keys()[i as int]],
    {
        proof {
            self.lemma_at(i as int);
        }
        &self.values[i]
    }

    /// Binds `name` to `value`, replacing an earlier binding of that name.
    pub fn insert(&mut self, name: &str, value: T)
        requires
            old(self).wf(),
        ensures
            final(self).wf(),
            final(self)@ == old(self)@.insert(name@, value),
            final(self).keys() == if old(self)@.contains_key(name@) {
                old(self).keys()
            } else {
                old(self).keys().push(name@)
            },
    {
        let found = self.find(name);
        match found {
            Some(i) => {
                self.values.set(i, value);
                proof {
                    let before = *old(self);
                    let after = *self;
                    assert forall|k: Seq<char>| after@.contains_key(k) == before@.insert(
                        name@,
                        value,
                    ).contains_key(k) by {
                        before.lemma_at(i as int);
                        if before.has(k) {
                            let j = before.index_of(k);
                            assert(after.names@[j]@ == k);
                        }
                        if after.has(k) {
                            let j = after.index_of(k);
                            assert(before.names@[j]@ == k);
                        }
                    }
                    assert forall|k: Seq<char>| after@.contains_key(k) implies after@[k]
                        == before@.insert(name@, value)[k] by {
                        let j = after.index_of(k);
                        after.lemma_at(j);
                        before.lemma_at(j);
                        before.lemma_at(i as int);
                    }
                    assert(after@ =~= before@.insert(name@, value));
                    assert(after.keys() =~= before.keys());
                }
            },
            None => {
                let key = name.to_owned();
                self.names.push(key);
                self.values.push(value);
                proof {
                    let before = *old(self);
                    let after = *self;
                    let n = before.names@.len() as int;
                    assert(after.names@[n]@ == name@);
                    assert forall|k: Seq<char>| after@.contains_key(k) == before@.insert(
                        name@,
                        value,
                    ).contains_key(k) by {
                        if before.has(k) {
                            let j = before.index_of(k);
                            assert(after.names@[j]@ == k);
                        }
                        if k == name@ {
                            assert(after.names@[n]@ == k);
                        }
                        if after.has(k) {
                            let j = after.index_of(k);
                            if j < n {
                                assert(before.names@[j]@ == k);
                            }
                        }
                    }
                    assert forall|k: Seq<char>| after@.contains_key(k) implies after@[k]
                        == before@.insert(name@, value)[k] by {
                        let j = after.index_of(k);
                        after.lemma_at(j);
                        if j < n {
                            assert(before.names@[j]@ == k);
                            before.lemma_at(j);
                        }
                    }
                    assert(after@ =~= before@.insert(name@, value));
                    before.lemma_absent(name@);
                    assert(after.keys() =~= before.keys().push(name@));
                }
            },
        }
    }

    /// Removes the binding of `name`, if there is one.
    pub fn remove(&mut self, name: &str)
        requires
            old(self).wf(),
        ensures
            final(self).wf(),
            final(self)@ == old(self)@.remove(name@),
            final(self).keys() == if old(self)@.contains_key(name@) {
                old(self).keys().remove(old(self).keys().index_of(name@))
            } else {
                old(self).keys()
            },
    {
        let found = self.find(name);
        match found {
            Some(i) => {
                self.names.remove(i);
                self.values.remove(i);
                proof {
                    let before = *old(self);
                    let after = *self;
                    let p = i as int;
                    assert forall|a: int, b: int| 0 <= a < b < after.names@.len() implies (
                    #[trigger] after.names@[a])@ != (#[trigger] after.names@[b])@ by {
                        let a0 = if a < p { a } else { a + 1 };
                        let b0 = if b < p { b } else { b + 1 };
                        assert(after.names@[a] == before.names@[a0]);
                        assert(after.names@[b] == before.names@[b0]);
                    }
                    assert forall|k: Seq<char>| after@.contains_key(k) == before@.remove(
                        name@,
                    ).contains_key(k) by {
                        if after.has(k) {
                            let j = after.index_of(k);
                            let j0 = if j < p { j } else { j + 1 };
                            assert(before.names@[j0]@ == k);
                            assert(before.names@[p]@ == name@);
                        }
                        if before.has(k) && k != name@ {
                            let j0 = before.index_of(k);
                            let j = if j0 < p { j0 } else { j0 - 1 };
                            assert(after.names@[j]@ == k);
                        }
                    }
                    assert forall|k: Seq<char>| after@.contains_key(k) implies after@[k]
                        == before@.remove(name@)[k] by {
                        let j = after.index_of(k);
                        let j0 = if j < p { j } else { j + 1 };
                        after.lemma_at(j);
                        assert(before.names@[j0]@ == k);
                        before.lemma_at(j0);
                    }
                    assert(after@ =~= before@.remove(name@));
                    before.lemma_at(p);
                    assert(before.keys()[p] == name@);
                    let q = before.keys().index_of(name@);
                    assert(0 <= q < before.keys().len() && before.keys()[q] == name@);
                    assert(before.names@[q]@ == name@);
                    assert(q == p);
                    assert(after.keys() =~= before.keys().remove(p));
                }
            },
            None => {
                proof {
                    self.lemma_absent(name@);
                    assert(self@ =~= old(self)@.remove(name@));
                }
            },
        }
    }
}

impl<T: Clone> Clone for NameMap<T> {
    /// A map with the same names, each bound to a clone of its value.
    fn clone(&self) -> (r: Self)
        ensures
            self.wf() ==> r.wf() && r.keys() == self.keys() && r@.dom() == self@.dom()
                && forall|k: Seq<char>| #[trigger]
                self@.contains_key(k) ==> vstd::pervasive::cloned::<T>(self@[k], r@[k]),
    {
        let mut names: Vec<String> = Vec::new();
        let mut values: Vec<T> = Vec::new();
        let mut i: usize = 0;
        if self.names.len() != self.values.len() {
            return NameMap { names, values };
        }
        while i < self.names.len()
            invariant
                i <= self.names@.len(),
                self.names@.len() == self.values@.len(),
                names@.len() == i,
                values@.len() == i,
                forall|j: int| 0 <= j < i ==> (#[trigger] names@[j])@ == self.names@[j]@,
                forall|j: int|
                    0 <= j < i ==> vstd::pervasive::cloned::<T>(
                        self.values@[j],
                        #[trigger] values@[j],
                    ),
            decreases self.names@.len() - i,
        {
            names.push(self.names[i].clone());
            values.push(self.values[i].clone());
            i += 1;
        }
        let r = NameMap { names, values };
        proof {
            if self.wf() {
                assert(r.wf());
                assert(r.keys() =~= self.keys());
                assert forall|k: Seq<char>| r@.contains_key(k) == self@.contains_key(k) by {
                    if r.has(k) {
                        let j = r.index_of(k);
                        assert(self.names@[j]@ == k);
                    }
                    if self.has(k) {
                        let j = self.index_of(k);
                        assert(r.names@[j]@ == k);
                    }
                }
                assert(r@.dom() =~= self@.dom());
                assert forall|k: Seq<char>| #[trigger]
                    self@.contains_key(k) implies vstd::pervasive::cloned::<T>(self@[k], r@[k]) by {
                    let j = self.index_of(k);
                    self.lemma_at(j);
                    assert(r.names@[j]@ == k);
                    r.lemma_at(j);
                }
            }
        }
        r
    }
}

} // verus!
