//! A table from names (character sequences) to values, in which no name
//! occurs twice: the library's stand-in for a hash map keyed by string.

use vstd::prelude::*;

verus! {

/// A finite map from names to values, kept as a list of entries with
/// distinct names.
pub struct NameTable<V> {
    entries: Vec<(Vec<char>, V)>,
}

impl<V> NameTable<V> {
    /// Whether the entry at position `i` exists and is named `k`.
    pub closed spec fn named_at(self, k: Seq<char>, i: int) -> bool {
        0 <= i < self.entries@.len() && self.entries@[i].0@ == k
    }

    /// The table's invariant: no name occurs in two entries.
    pub closed spec fn wf(self) -> bool {
        forall|i: int, j: int|
            0 <= i < j < self.entries@.len() ==> #[trigger] self.entries@[i].0@
                != #[trigger] self.entries@[j].0@
    }

    /// The table as a map from names to values.
    pub closed spec fn as_map(self) -> Map<Seq<char>, V> {
        Map::new(
            |k: Seq<char>| exists|i: int| self.named_at(k, i),
            |k: Seq<char>| self.entries@[choose|i: int| self.named_at(k, i)].1,
        )
    }

    proof fn lemma_entry(self, i: int)
        requires
            self.wf(),
            0 <= i < self.entries@.len(),
        ensures
            self.as_map().dom().contains(self.entries@[i].0@),
            self.as_map()[self.entries@[i].0@] == self.entries@[i].1,
    {
        let k = self.entries@[i].0@;
        assert(self.named_at(k, i));
        let j = choose|j: int| self.named_at(k, j);
        if j != i {
            if j < i {
                assert(self.entries@[j].0@ != self.entries@[i].0@);
            } else {
                assert(self.entries@[i].0@ != self.entries@[j].0@);
            }
        }
    }

    /// An empty table.
    pub fn new() -> (t: Self)
        ensures
            t.wf(),
            t@ == Map::<Seq<char>, V>::empty(),
    {
        let t = NameTable { entries: Vec::new() };
        assert(t.as_map() =~= Map::<Seq<char>, V>::empty());
        t
    }

    /// The position of the entry named `key`, if there is one.
    fn position(&self, key: &Vec<char>) -> (r: Option<usize>)
        requires
            self.wf(),
        ensures
            r matches Some(i) ==> self.named_at(key@, i as int),
            r is None ==> !self@.dom().contains(key@),
    {
        let mut i: usize = 0;
        while i < self.entries.len()
            invariant
                i <= self.entries@.len(),
                forall|j: int| 0 <= j < i ==> self.entries@[j].0@ != key@,
            decreases self.entries@.len() - i,
        {
            if crate::text::same_chars(&self.entries[i].0, key) {
                return Some(i);
            }
            i += 1;
        }
        None
    }
}

impl<V: Copy> NameTable<V> {
    /// The value stored under `key`, if any.
    pub fn get(&self, key: &Vec<char>) -> (r: Option<V>)
        requires
            self.wf(),
        ensures
            r == (if self@.dom().contains(key@) {
                Some(self@[key@])
            } else {
                None
            }),
    {
        match self.position(key) {
            Some(i) => {
                proof {
                    self.lemma_entry(i as int);
                }
                Some(self.entries[i].1)
            },
            None => None,
        }
    }

    /// Stores `value` under `key`, replacing what was stored there.
    pub fn insert(&mut self, key: Vec<char>, value: V)
        requires
            old(self).wf(),
        ensures
            final(self).wf(),
            final(self)@ == old(self)@.insert(key@, value),
    {
        let ghost k = key@;
        let ghost before = *self;
        match self.position(&key) {
            Some(i) => {
                self.entries.set(i, (key, value));
                assert(self.wf()) by {
                    assert forall|a: int, b: int|
                        0 <= a < b < self.entries@.len() implies #[trigger] self.entries@[a].0@
                        != #[trigger] self.entries@[b].0@ by {
                        assert(before.entries@[a].0@ != before.entries@[b].0@);
                    }
                }
                assert(self@ =~= before@.insert(k, value)) by {
                    assert forall|q: Seq<char>| #[trigger] self@.dom().contains(q) <==> before@.insert(
                        k,
                        value,
                    ).dom().contains(q) by {
                        if self@.dom().contains(q) {
                            let j = choose|j: int| self.named_at(q, j);
                            if j != i {
                                assert(before.named_at(q, j));
                            }
                        }
                        if before@.dom().contains(q) && q != k {
                            let j = choose|j: int| before.named_at(q, j);
                            assert(self.named_at(q, j));
                        }
                        if q == k {
                            assert(self.named_at(q, i as int));
                        }
                    }
                    assert forall|q: Seq<char>| #[trigger] self@.dom().contains(q) implies self@[q]
                        == before@.insert(k, value)[q] by {
                        let j = choose|j: int| self.named_at(q, j);
                        self.lemma_entry(j);
                        if j != i {
                            before.lemma_entry(j);
                        }
                    }
                }
            },
            None => {
                self.entries.push((key, value));
                assert(self.wf()) by {
                    assert forall|a: int, b: int|
                        0 <= a < b < self.entries@.len() implies #[trigger] self.entries@[a].0@
                        != #[trigger] self.entries@[b].0@ by {
                        if b < before.entries@.len() {
                            assert(before.entries@[a].0@ != before.entries@[b].0@);
                        } else {
                            assert(before.named_at(self.entries@[a].0@, a));
                        }
                    }
                }
                let ghost last = (self.entries@.len() - 1) as int;
                assert(self@ =~= before@.insert(k, value)) by {
                    assert forall|q: Seq<char>| #[trigger] self@.dom().contains(q) <==> before@.insert(
                        k,
                        value,
                    ).dom().contains(q) by {
                        if self@.dom().contains(q) {
                            let j = choose|j: int| self.named_at(q, j);
                            if j != last {
                                assert(before.named_at(q, j));
                            }
                        }
                        if before@.dom().contains(q) {
                            let j = choose|j: int| before.named_at(q, j);
                            assert(self.named_at(q, j));
                        }
                        if q == k {
                            assert(self.named_at(q, last));
                        }
                    }
                    assert forall|q: Seq<char>| #[trigger] self@.dom().contains(q) implies self@[q]
                        == before@.insert(k, value)[q] by {
                        let j = choose|j: int| self.named_at(q, j);
                        self.lemma_entry(j);
                        if j != last {
                            before.lemma_entry(j);
                        }
                    }
                }
            },
        }
    }

    /// Takes the value stored under `key` out of the table, if there is one.
    pub fn remove(&mut self, key: &Vec<char>) -> (r: Option<V>)
        requires
            old(self).wf(),
        ensures
            final(self).wf(),
            r == (if old(self)@.dom().contains(key@) {
                Some(old(self)@[key@])
            } else {
                None
            }),
            final(self)@ == old(self)@.remove(key@),
    {
        let ghost k = key@;
        let ghost before = *self;
        match self.position(key) {
            Some(i) => {
                proof {
                    before.lemma_entry(i as int);
                }
                let e = self.entries.remove(i);
                assert(self.wf()) by {
                    assert forall|a: int, b: int|
                        0 <= a < b < self.entries@.len() implies #[trigger] self.entries@[a].0@
                        != #[trigger] self.entries@[b].0@ by {
                        let a0 = if a < i { a } else { a + 1 };
                        let b0 = if b < i { b } else { b + 1 };
                        assert(before.entries@[a0].0@ != before.entries@[b0].0@);
                    }
                }
                assert(self@ =~= before@.remove(k)) by {
                    assert forall|q: Seq<char>| #[trigger] self@.dom().contains(q) <==> before@.remove(
                        k,
                    ).dom().contains(q) by {
                        if self@.dom().contains(q) {
                            let j = choose|j: int| self.named_at(q, j);
                            let j0 = if j < i { j } else { j + 1 };
                            assert(before.named_at(q, j0));
                            if q == k {
                                assert(before.entries@[i as int].0@ == before.entries@[j0].0@);
                                if j0 < i {
                                    assert(before.entries@[j0].0@ != before.entries@[i as int].0@);
                                } else {
                                    assert(before.entries@[i as int].0@
                                        != before.entries@[j0].0@);
                                }
                            }
                        }
                        if before@.dom().contains(q) && q != k {
                            let j = choose|j: int| before.named_at(q, j);
                            assert(j != i);
                            let j1 = if j < i { j } else { j - 1 };
                            assert(self.named_at(q, j1));
                        }
                    }
                    assert forall|q: Seq<char>| #[trigger] self@.dom().contains(q) implies self@[q]
                        == before@.remove(k)[q] by {
                        let j = choose|j: int| self.named_at(q, j);
                        self.lemma_entry(j);
                        let j0 = if j < i { j } else { j + 1 };
                        before.lemma_entry(j0);
                    }
                }
                Some(e.1)
            },
            None => {
                assert(self@ =~= before@.remove(k));
                None
            },
        }
    }
}

impl<V> View for NameTable<V> {
    type V = Map<Seq<char>, V>;

    open spec fn view(&self) -> Map<Seq<char>, V> {
        self.as_map()
    }
}

} // verus!
