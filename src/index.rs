use vstd::prelude::*;

use crate::command::CommandPointer;

verus! {

/// An entry of the index seen as plain values: a key and where its record lies.
pub type Entry = (Seq<char>, CommandPointer);

/// No two entries share a key.
pub open spec fn keys_unique(s: Seq<Entry>) -> bool {
    forall|i: int, j: int| 0 <= i < s.len() && 0 <= j < s.len() && i != j ==> s[i].0 != s[j].0
}

/// Some entry holds `k`.
pub open spec fn has_key(s: Seq<Entry>, k: Seq<char>) -> bool {
    exists|i: int| 0 <= i < s.len() && s[i].0 == k
}

/// The position of an entry that holds `k`.
pub open spec fn key_pos(s: Seq<Entry>, k: Seq<char>) -> int {
    choose|i: int| 0 <= i < s.len() && s[i].0 == k
}

/// The map from key to pointer that a sequence of entries stands for.
pub open spec fn entries_map(s: Seq<Entry>) -> Map<Seq<char>, CommandPointer> {
    Map::new(|k: Seq<char>| has_key(s, k), |k: Seq<char>| s[key_pos(s, k)].1)
}

/// With unique keys, the entry at `i` is what the map gives for its key.
pub proof fn lemma_entry_in_map(s: Seq<Entry>, i: int)
    requires
        keys_unique(s),
        0 <= i < s.len(),
    ensures
        entries_map(s).contains_key(s[i].0),
        entries_map(s)[s[i].0] == s[i].1,
{
    assert(has_key(s, s[i].0));
    let j = key_pos(s, s[i].0);
    assert(j == i);
}

/// The location index: each live key with the pointer to its latest `SetValue` record.
pub struct Index {
    entries: Vec<(String, CommandPointer)>,
}

impl Index {
    /// The entries, in the order in which the index holds them.
    pub closed spec fn entries(&self) -> Seq<Entry> {
        self.entries@.map_values(|e: (String, CommandPointer)| (e.0@, e.1))
    }

    pub open spec fn wf(&self) -> bool {
        keys_unique(self.entries())
    }

    pub open spec fn view(&self) -> Map<Seq<char>, CommandPointer> {
        entries_map(self.entries())
    }

    /// An empty index.
    pub fn new() -> (r: Index)
        ensures
            r.wf(),
            r.entries().len() == 0,
            r@ == Map::<Seq<char>, CommandPointer>::empty(),
    {
        let r = Index { entries: Vec::new() };
        assert(r@ =~= Map::<Seq<char>, CommandPointer>::empty());
        r
    }

    /// The number of live keys.
    pub fn len(&self) -> (r: usize)
        ensures
            r == self.entries().len(),
    {
        self.entries.len()
    }

    fn find(&self, key: &String) -> (r: Option<usize>)
        requires
            self.wf(),
        ensures
            r matches Some(i) ==> i < self.entries().len() && self.entries()[i as int].0 == key@,
            r is None ==> !has_key(self.entries(), key@),
    {
        let mut i: usize = 0;
        while i < self.entries.len()
            invariant
                i <= self.entries@.len(),
                forall|j: int| 0 <= j < i ==> self.entries()[j].0 != key@,
            decreases self.entries@.len() - i,
        {
            if self.entries[i].0 == *key {
                return Some(i);
            }
            i = i + 1;
        }
        None
    }

    /// The pointer held for `key`, if the key is live.
    pub fn get(&self, key: &String) -> (r: Option<CommandPointer>)
        requires
            self.wf(),
        ensures
            r == (if self@.contains_key(key@) {
                Some(self@[key@])
            } else {
                None::<CommandPointer>
            }),
    {
        match self.find(key) {
            Some(i) => {
                proof {
                    lemma_entry_in_map(self.entries(), i as int);
                }
                Some(self.entries[i].1)
            },
            None => None,
        }
    }

    /// Points `key` at `p`, and returns the pointer it replaced, if any.
    pub fn insert(&mut self, key: String, p: CommandPointer) -> (r: Option<CommandPointer>)
        requires
            old(self).wf(),
        ensures
            final(self).wf(),
            final(self)@ == old(self)@.insert(key@, p),
            r == (if old(self)@.contains_key(key@) {
                Some(old(self)@[key@])
            } else {
                None::<CommandPointer>
            }),
    {
        let ghost s0 = self.entries();
        match self.find(&key) {
            Some(i) => {
                proof {
                    lemma_entry_in_map(s0, i as int);
                }
                let prev = self.entries[i].1;
                self.entries.set(i, (key, p));
                proof {
                    let s1 = self.entries();
                    assert(s1 =~= s0.update(i as int, (key@, p)));
                    assert(keys_unique(s1));
                    assert forall|k: Seq<char>|
                        #![auto]
                        entries_map(s1).contains_key(k) == (has_key(s0, k) || k == key@) by {
                        if has_key(s0, k) {
                            let j = key_pos(s0, k);
                            assert(s1[j].0 == k);
                        }
                        if has_key(s1, k) {
                            let j = key_pos(s1, k);
                            assert(s0[j].0 == k);
                        }
                    }
                    assert forall|k: Seq<char>| #![auto] has_key(s1, k) implies entries_map(s1)[k]
                        == old(self)@.insert(key@, p)[k] by {
                        let j = key_pos(s1, k);
                        lemma_entry_in_map(s1, j);
                        if k != key@ {
                            assert(s0[j] == s1[j]);
                            lemma_entry_in_map(s0, j);
                        }
                    }
                    assert(self@ =~= old(self)@.insert(key@, p));
                }
                Some(prev)
            },
            None => {
                self.entries.push((key, p));
                proof {
                    let s1 = self.entries();
                    assert(s1 =~= s0.push((key@, p)));
                    assert(keys_unique(s1));
                    assert forall|k: Seq<char>|
                        #![auto]
                        entries_map(s1).contains_key(k) == (has_key(s0, k) || k == key@) by {
                        if has_key(s0, k) {
                            let j = key_pos(s0, k);
                            assert(s1[j].0 == k);
                        }
                        if has_key(s1, k) && k != key@ {
                            let j = key_pos(s1, k);
                            assert(s0[j].0 == k);
                        }
                        if k == key@ {
                            assert(s1[s0.len() as int].0 == k);
                        }
                    }
                    assert forall|k: Seq<char>| #![auto] has_key(s1, k) implies entries_map(s1)[k]
                        == old(self)@.insert(key@, p)[k] by {
                        let j = key_pos(s1, k);
                        lemma_entry_in_map(s1, j);
                        if k != key@ {
                            assert(s0[j] == s1[j]);
                            lemma_entry_in_map(s0, j);
                        }
                    }
                    assert(self@ =~= old(self)@.insert(key@, p));
                }
                None
            },
        }
    }
    /// Drops `key`, and returns the pointer it held, if any.
    pub fn remove(&mut self, key: &String) -> (r: Option<CommandPointer>)
        requires
            old(self).wf(),
        ensures
            final(self).wf(),
            final(self)@ == old(self)@.remove(key@),
            r is None ==> final(self).entries() == old(self).entries(),
            r == (if old(self)@.contains_key(key@) {
                Some(old(self)@[key@])
            } else {
                None::<CommandPointer>
            }),
    {
        let ghost s0 = self.entries();
        match self.find(key) {
            Some(i) => {
                proof {
                    lemma_entry_in_map(s0, i as int);
                }
                let (_, prev) = self.entries.remove(i);
                proof {
                    let s1 = self.entries();
                    assert(s1 =~= s0.remove(i as int));
                    assert(keys_unique(s1));
                    assert forall|k: Seq<char>|
                        #![auto]
                        entries_map(s1).contains_key(k) == (has_key(s0, k) && k != key@) by {
                        if has_key(s0, k) && k != key@ {
                            let j = key_pos(s0, k);
                            if j < i {
                                assert(s1[j].0 == k);
                            } else {
                                assert(s1[j - 1].0 == k);
                            }
                        }
                        if has_key(s1, k) {
                            let j = key_pos(s1, k);
                            if j < i {
                                assert(s0[j].0 == k);
                            } else {
                                assert(s0[j + 1].0 == k);
                            }
                        }
                    }
                    assert forall|k: Seq<char>| #![auto] has_key(s1, k) implies entries_map(s1)[k]
                        == old(self)@.remove(key@)[k] by {
                        let j = key_pos(s1, k);
                        lemma_entry_in_map(s1, j);
                        if j < i {
                            assert(s0[j] == s1[j]);
                            lemma_entry_in_map(s0, j);
                        } else {
                            assert(s0[j + 1] == s1[j]);
                            lemma_entry_in_map(s0, j + 1);
                        }
                    }
                    assert(self@ =~= old(self)@.remove(key@));
                }
                Some(prev)
            },
            None => {
                assert(self@ =~= old(self)@.remove(key@));
                None
            },
        }
    }

    /// The pointers of all entries, in the index's order.
    pub fn pointers(&self) -> (r: Vec<CommandPointer>)
        ensures
            r@.len() == self.entries().len(),
            forall|i: int| 0 <= i < r@.len() ==> r@[i] == #[trigger] self.entries()[i].1,
    {
        let mut r: Vec<CommandPointer> = Vec::new();
        let mut i: usize = 0;
        while i < self.entries.len()
            invariant
                i <= self.entries@.len(),
                r@.len() == i,
                forall|j: int| 0 <= j < i ==> r@[j] == #[trigger] self.entries()[j].1,
            decreases self.entries@.len() - i,
        {
            r.push(self.entries[i].1);
            i = i + 1;
        }
        r
    }

    /// Replaces the pointer of the entry at position `i`, keeping its key.
    pub fn repoint(&mut self, i: usize, p: CommandPointer)
        requires
            old(self).wf(),
            i < old(self).entries().len(),
        ensures
            final(self).wf(),
            final(self).entries() == old(self).entries().update(i as int, (old(self).entries()[i as int].0, p)),
    {
        let ghost s0 = self.entries();
        let key = self.entries[i].0.clone();
        self.entries.set(i, (key, p));
        proof {
            assert(self.entries() =~= s0.update(i as int, (s0[i as int].0, p)));
        }
    }
}

} // verus!
