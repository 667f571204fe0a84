//! A map from strings to strings, used for request header fields and route arguments.
use vstd::prelude::*;

verus! {

/// A map from strings to strings. Entries are kept in insertion order and no key
/// occurs twice.
pub struct StrMap {
    entries: Vec<(String, String)>,
}

impl StrMap {
    pub closed spec fn key_at(self, i: int) -> Seq<char> {
        self.entries@[i].0@
    }

    pub closed spec fn value_at(self, i: int) -> Seq<char> {
        self.entries@[i].1@
    }

    pub closed spec fn len_spec(self) -> int {
        self.entries@.len() as int
    }

    /// No key occurs twice.
    #[verifier::type_invariant]
    pub closed spec fn keys_distinct(self) -> bool {
        forall|i: int, j: int|
            0 <= i < self.len_spec() && 0 <= j < self.len_spec() && i != j ==> self.key_at(i)
                != self.key_at(j)
    }

    pub closed spec fn has_key_at(self, k: Seq<char>, i: int) -> bool {
        0 <= i < self.len_spec() && self.key_at(i) == k
    }

    /// The map as a mathematical map from keys to values.
    pub closed spec fn view(self) -> Map<Seq<char>, Seq<char>> {
        Map::new(
            |k: Seq<char>| exists|i: int| self.has_key_at(k, i),
            |k: Seq<char>| self.value_at(choose|i: int| self.has_key_at(k, i)),
        )
    }

    proof fn lemma_view_at(self, k: Seq<char>, i: int)
        requires
            self.keys_distinct(),
            self.has_key_at(k, i),
        ensures
            self.view().contains_key(k),
            self.view()[k] == self.value_at(i),
    {
        let j = choose|j: int| self.has_key_at(k, j);
        assert(self.has_key_at(k, j));
    }

    /// An empty map.
    pub fn new() -> (m: StrMap)
        ensures
            m.view() == Map::<Seq<char>, Seq<char>>::empty(),
    {
        let m = StrMap { entries: Vec::new() };
        assert(m.view() =~= Map::<Seq<char>, Seq<char>>::empty());
        m
    }

    fn index_of(&self, key: &String) -> (r: Option<usize>)
        ensures
            r matches Some(i) ==> self.has_key_at(key@, i as int),
            r is None ==> forall|i: int| 0 <= i < self.len_spec() ==> self.key_at(i) != key@,
    {
        let mut i: usize = 0;
        while i < self.entries.len()
            invariant
                i <= self.entries@.len(),
                forall|j: int| 0 <= j < i ==> self.key_at(j) != key@,
            decreases self.entries@.len() - i,
        {
            if self.entries[i].0 == *key {
                return Some(i);
            }
            i = i + 1;
        }
        None
    }

    /// Sets the value of `key` to `value`, replacing any earlier value.
    pub fn insert(&mut self, key: String, value: String)
        ensures
            final(self).view() == old(self).view().insert(key@, value@),
    {
        proof {
            use_type_invariant(&*self);
        }
        let ghost k = key@;
        let ghost v = value@;
        let ghost old_map = self.view();
        match self.index_of(&key) {
            Some(i) => {
                let ghost before = *self;
                let mut entries: Vec<(String, String)> = Vec::new();
                std::mem::swap(&mut entries, &mut self.entries);
                entries.set(i, (key, value));
                proof {
                    assert forall|a: int, b: int|
                        0 <= a < entries@.len() && 0 <= b < entries@.len() && a != b implies
                        entries@[a].0@ != entries@[b].0@ by {
                        assert(before.key_at(a) != before.key_at(b));
                    }
                }
                std::mem::swap(&mut entries, &mut self.entries);
                proof {
                    assert forall|a: Seq<char>| #[trigger]
                        self.view().contains_key(a) == old_map.insert(k, v).contains_key(a) by {
                        if a != k {
                            if exists|j: int| before.has_key_at(a, j) {
                                let j = choose|j: int| before.has_key_at(a, j);
                                assert(self.has_key_at(a, j));
                            }
                            if exists|j: int| self.has_key_at(a, j) {
                                let j = choose|j: int| self.has_key_at(a, j);
                                assert(before.has_key_at(a, j));
                            }
                        } else {
                            assert(self.has_key_at(a, i as int));
                        }
                    }
                    assert forall|a: Seq<char>| #[trigger]
                        self.view().contains_key(a) implies self.view()[a] == old_map.insert(
                        k,
                        v,
                    )[a] by {
                        if a == k {
                            self.lemma_view_at(a, i as int);
                        } else {
                            let j = choose|j: int| self.has_key_at(a, j);
                            self.lemma_view_at(a, j);
                            before.lemma_view_at(a, j);
                        }
                    }
                    assert(self.view() =~= old_map.insert(k, v));
                }
            },
            None => {
                let ghost before = *self;
                let mut entries: Vec<(String, String)> = Vec::new();
                std::mem::swap(&mut entries, &mut self.entries);
                entries.push((key, value));
                proof {
                    assert forall|a: int, b: int|
                        0 <= a < entries@.len() && 0 <= b < entries@.len() && a != b implies
                        entries@[a].0@ != entries@[b].0@ by {
                        if a < before.len_spec() && b < before.len_spec() {
                            assert(before.key_at(a) != before.key_at(b));
                        } else if a < before.len_spec() {
                            assert(before.key_at(a) != k);
                        } else {
                            assert(before.key_at(b) != k);
                        }
                    }
                }
                std::mem::swap(&mut entries, &mut self.entries);
                proof {
                    let n = before.len_spec();
                    assert forall|a: Seq<char>| #[trigger]
                        self.view().contains_key(a) == old_map.insert(k, v).contains_key(a) by {
                        if a != k {
                            if exists|j: int| before.has_key_at(a, j) {
                                let j = choose|j: int| before.has_key_at(a, j);
                                assert(self.has_key_at(a, j));
                            }
                            if exists|j: int| self.has_key_at(a, j) {
                                let j = choose|j: int| self.has_key_at(a, j);
                                assert(before.has_key_at(a, j));
                            }
                        } else {
                            assert(self.has_key_at(a, n));
                        }
                    }
                    assert forall|a: Seq<char>| #[trigger]
                        self.view().contains_key(a) implies self.view()[a] == old_map.insert(
                        k,
                        v,
                    )[a] by {
                        if a == k {
                            self.lemma_view_at(a, n);
                        } else {
                            let j = choose|j: int| self.has_key_at(a, j);
                            self.lemma_view_at(a, j);
                            before.lemma_view_at(a, j);
                        }
                    }
                    assert(self.view() =~= old_map.insert(k, v));
                }
            },
        }
    }

    /// The value stored under `key`, if any.
    pub fn get(&self, key: &str) -> (r: Option<&String>)
        ensures
            r matches Some(v) ==> self.view().contains_key(key@) && self.view()[key@] == v@,
            r is None ==> !self.view().contains_key(key@),
    {
        proof {
            use_type_invariant(self);
        }
        let k = key.to_owned();
        match self.index_of(&k) {
            Some(i) => {
                proof {
                    self.lemma_view_at(key@, i as int);
                }
                Some(&self.entries[i].1)
            },
            None => None,
        }
    }
}

} // verus!
