use vstd::prelude::*;

verus! {

/// A small map from names to values, kept as a list of entries with distinct
/// names, in the order the names were first inserted.
pub struct Table<V> {
    entries: Vec<(String, V)>,
}

impl<V> View for Table<V> {
    type V = Map<Seq<char>, V>;

    closed spec fn view(&self) -> Map<Seq<char>, V> {
        Map::new(
            |k: Seq<char>| exists|i: int| 0 <= i < self.entries@.len() && #[trigger] self.entries@[i].0@ == k,
            |k: Seq<char>|
                self.entries@[choose|i: int|
                    0 <= i < self.entries@.len() && #[trigger] self.entries@[i].0@ == k].1,
        )
    }
}

impl<V> Table<V> {
    /// No name occurs twice.
    pub closed spec fn wf(&self) -> bool {
        forall|i: int, j: int|
            0 <= i < self.entries@.len() && 0 <= j < self.entries@.len() && #[trigger] self.entries@[i].0@
                == #[trigger] self.entries@[j].0@ ==> i == j
    }

    proof fn lemma_at(&self, i: int)
        requires
            self.wf(),
            0 <= i < self.entries@.len(),
        ensures
            self@.contains_key(self.entries@[i].0@),
            self@[self.entries@[i].0@] == self.entries@[i].1,
    {
        let k = self.entries@[i].0@;
        assert(self@.contains_key(k));
        let j = choose|j: int| 0 <= j < self.entries@.len() && #[trigger] self.entries@[j].0@ == k;
        assert(i == j);
    }

    pub fn new() -> (r: Table<V>)
        ensures
            r.wf(),
            r@ == Map::<Seq<char>, V>::empty(),
    {
        let r = Table { entries: Vec::new() };
        assert(r@ =~= Map::<Seq<char>, V>::empty());
        r
    }

    /// Index of the entry named `key`, if there is one.
    fn find(&self, key: &str) -> (r: Option<usize>)
        requires
            self.wf(),
        ensures
            r is None <==> !self@.contains_key(key@),
            r matches Some(i) ==> i < self.entries@.len() && self.entries@[i as int].0@ == key@,
    {
        let k = key.to_owned();
        let mut i: usize = 0;
        while i < self.entries.len()
            invariant
                i <= self.entries@.len(),
                k@ == key@,
                forall|j: int| 0 <= j < i ==> #[trigger] self.entries@[j].0@ != key@,
            decreases self.entries@.len() - i,
        {
            if self.entries[i].0 == k {
                return Some(i);
            }
            i = i + 1;
        }
        None
    }

    pub fn get(&self, key: &str) -> (r: Option<&V>)
        requires
            self.wf(),
        ensures
            r is None <==> !self@.contains_key(key@),
            r matches Some(v) ==> *v == self@[key@],
    {
        match self.find(key) {
            Some(i) => {
                proof {
                    self.lemma_at(i as int);
                }
                Some(&self.entries[i].1)
            },
            None => None,
        }
    }

    /// Replacing the value of entry `i`, under the same name, keeps the names
    /// distinct and sets that name in the map.
    proof fn lemma_set(a: &Table<V>, b: &Table<V>, i: int, v: V)
        requires
            a.wf(),
            0 <= i < a.entries@.len(),
            b.entries@.len() == a.entries@.len(),
            b.entries@[i].0@ == a.entries@[i].0@,
            b.entries@[i].1 == v,
            forall|j: int| 0 <= j < a.entries@.len() && j != i ==> b.entries@[j] == a.entries@[j],
        ensures
            b.wf(),
            b@ == a@.insert(a.entries@[i].0@, v),
    {
        let key = a.entries@[i].0@;
        assert forall|x: int, y: int|
            0 <= x < b.entries@.len() && 0 <= y < b.entries@.len() && #[trigger] b.entries@[x].0@
                == #[trigger] b.entries@[y].0@ implies x == y by {
            assert(a.entries@[x].0@ == b.entries@[x].0@);
            assert(a.entries@[y].0@ == b.entries@[y].0@);
        }
        b.lemma_at(i);
        assert forall|k2: Seq<char>| #[trigger] b@.contains_key(k2) && k2 != key implies a@.contains_key(
            k2,
        ) && b@[k2] == a@[k2] by {
            let j = choose|j: int| 0 <= j < b.entries@.len() && #[trigger] b.entries@[j].0@ == k2;
            assert(j != i);
            assert(a.entries@[j] == b.entries@[j]);
            a.lemma_at(j);
            b.lemma_at(j);
        }
        assert forall|k2: Seq<char>| #[trigger] a@.contains_key(k2) implies b@.contains_key(k2) by {
            let j = choose|j: int| 0 <= j < a.entries@.len() && #[trigger] a.entries@[j].0@ == k2;
            assert(b.entries@[j].0@ == k2);
        }
        assert(b@ =~= a@.insert(key, v));
    }

    /// Removes the entry named `key` and hands back its value.
    pub fn take(&mut self, key: &str) -> (r: Option<V>)
        requires
            old(self).wf(),
        ensures
            final(self).wf(),
            r is None <==> !old(self)@.contains_key(key@),
            r matches Some(v) ==> v == old(self)@[key@],
            final(self)@ == old(self)@.remove(key@),
    {
        match self.find(key) {
            Some(i) => {
                proof {
                    self.lemma_at(i as int);
                }
                let ghost before = self.entries@;
                let e = self.entries.remove(i);
                proof {
                    let n = self.entries@.len();
                    assert forall|j: int| 0 <= j < n implies #[trigger] self.entries@[j] == (if j < i {
                        before[j]
                    } else {
                        before[j + 1]
                    }) by {}
                    assert forall|x: int, y: int|
                        0 <= x < n && 0 <= y < n && #[trigger] self.entries@[x].0@
                            == #[trigger] self.entries@[y].0@ implies x == y by {
                        let x2 = if x < i {
                            x
                        } else {
                            x + 1
                        };
                        let y2 = if y < i {
                            y
                        } else {
                            y + 1
                        };
                        assert(before[x2].0@ == before[y2].0@);
                    }
                    assert forall|k2: Seq<char>| #[trigger] self@.contains_key(k2) implies k2 != key@
                        && old(self)@.contains_key(k2) && self@[k2] == old(self)@[k2] by {
                        let j = choose|j: int|
                            0 <= j < self.entries@.len() && #[trigger] self.entries@[j].0@ == k2;
                        let j2 = if j < i {
                            j
                        } else {
                            j + 1
                        };
                        assert(before[j2] == self.entries@[j]);
                        assert(j2 != i);
                        old(self).lemma_at(j2);
                        self.lemma_at(j);
                    }
                    assert forall|k2: Seq<char>| #[trigger] old(self)@.contains_key(k2) && k2 != key@
                        implies self@.contains_key(k2) by {
                        let j = choose|j: int| 0 <= j < before.len() && #[trigger] before[j].0@ == k2;
                        assert(j != i);
                        if j < i {
                            assert(self.entries@[j].0@ == k2);
                        } else {
                            assert(self.entries@[j - 1].0@ == k2);
                        }
                    }
                    assert(self@ =~= old(self)@.remove(key@));
                }
                Some(e.1)
            },
            None => {
                proof {
                    assert(self@ =~= old(self)@.remove(key@));
                }
                None
            },
        }
    }

    /// Sets the value under `key`, adding the name if it is new.
    pub fn insert(&mut self, key: &str, value: V)
        requires
            old(self).wf(),
        ensures
            final(self).wf(),
            final(self)@ == old(self)@.insert(key@, value),
    {
        let ghost before = self.entries@;
        match self.find(key) {
            Some(i) => {
                let k = key.to_owned();
                self.entries.set(i, (k, value));
                proof {
                    Self::lemma_set(&*old(self), &*self, i as int, value);
                }
            },
            None => {
                let k = key.to_owned();
                self.entries.push((k, value));
                proof {
                    let n = before.len() as int;
                    self.lemma_at(n);
                    assert forall|k2: Seq<char>| #[trigger] self@.contains_key(k2) && k2 != key@
                        implies old(self)@.contains_key(k2) && self@[k2] == old(self)@[k2] by {
                        let j = choose|j: int|
                            0 <= j < self.entries@.len() && #[trigger] self.entries@[j].0@ == k2;
                        assert(j != n);
                        assert(before[j] == self.entries@[j]);
                        old(self).lemma_at(j);
                        self.lemma_at(j);
                    }
                    assert forall|k2: Seq<char>| #[trigger] old(self)@.contains_key(k2)
                        implies self@.contains_key(k2) by {
                        let j = choose|j: int|
                            0 <= j < before.len() && #[trigger] before[j].0@ == k2;
                        assert(self.entries@[j].0@ == k2);
                    }
                    assert(self@ =~= old(self)@.insert(key@, value));
                }
            },
        }
    }
}

} // verus!
