//! The in-memory index: for each live key, where its latest `set` record starts.
use vstd::prelude::*;

verus! {

/// The address of a record: the number of its segment and the byte offset of its first byte.
#[derive(Debug, Clone, Copy, PartialEq, Eq, Structural)]
pub struct FileIndex {
    pub segment: u64,
    pub offset: u64,
}

/// A map from key to `FileIndex`, kept as a list of entries with distinct keys.
pub struct Index {
    entries: Vec<(String, FileIndex)>,
    m: Ghost<Map<Seq<char>, FileIndex>>,
}

impl View for Index {
    type V = Map<Seq<char>, FileIndex>;

    closed spec fn view(&self) -> Map<Seq<char>, FileIndex> {
        self.m@
    }
}

impl Index {
    /// The keys in the order in which `entry` hands them out.
    pub closed spec fn key_seq(&self) -> Seq<Seq<char>> {
        self.entries@.map_values(|e: (String, FileIndex)| e.0@)
    }

    /// The keys are distinct and the entries are exactly the map.
    pub closed spec fn wf(&self) -> bool {
        &&& forall|i: int, j: int|
            0 <= i < j < self.entries@.len() ==> self.entries@[i].0@ != self.entries@[j].0@
        &&& forall|i: int|
            0 <= i < self.entries@.len() ==> self.m@.contains_key(#[trigger] self.entries@[i].0@)
                && self.m@[self.entries@[i].0@] == self.entries@[i].1
        &&& forall|k: Seq<char>|
            #[trigger] self.m@.contains_key(k) ==> exists|i: int|
                0 <= i < self.entries@.len() && self.entries@[i].0@ == k
    }

    /// The keys listed by `key_seq` are exactly the keys of the map, each once.
    pub proof fn lemma_key_seq(&self)
        requires
            self.wf(),
        ensures
            forall|k: Seq<char>|
                #![trigger self@.contains_key(k)]
                self@.contains_key(k) <==> exists|i: int|
                    0 <= i < self.key_seq().len() && self.key_seq()[i] == k,
            forall|i: int, j: int|
                0 <= i < j < self.key_seq().len() ==> self.key_seq()[i] != self.key_seq()[j],
    {
        assert forall|k: Seq<char>| #![trigger self@.contains_key(k)]
            self@.contains_key(k) <==> exists|i: int|
                0 <= i < self.key_seq().len() && self.key_seq()[i] == k by {
            if self@.contains_key(k) {
                let i = choose|i: int| 0 <= i < self.entries@.len() && self.entries@[i].0@ == k;
                assert(self.key_seq()[i] == k);
            }
            if exists|i: int| 0 <= i < self.key_seq().len() && self.key_seq()[i] == k {
                let i = choose|i: int| 0 <= i < self.key_seq().len() && self.key_seq()[i] == k;
                assert(self.entries@[i].0@ == k);
            }
        }
    }

    /// An empty index.
    pub fn new() -> (r: Index)
        ensures
            r.wf(),
            r@ == Map::<Seq<char>, FileIndex>::empty(),
            r.key_seq().len() == 0,
    {
        Index { entries: Vec::new(), m: Ghost(Map::empty()) }
    }

    /// The number of keys.
    pub fn len(&self) -> (r: usize)
        requires
            self.wf(),
        ensures
            r == self.key_seq().len(),
    {
        self.entries.len()
    }

    /// The position of `key` in `key_seq`, if it is present.
    fn find(&self, key: &String) -> (r: Option<usize>)
        requires
            self.wf(),
        ensures
            match r {
                Some(i) => i < self.entries@.len() && self.entries@[i as int].0@ == key@,
                None => !self@.contains_key(key@),
            },
    {
        let mut i: usize = 0;
        while i < self.entries.len()
            invariant
                i <= self.entries@.len(),
                forall|j: int| 0 <= j < i ==> self.entries@[j].0@ != key@,
            decreases self.entries@.len() - i,
        {
            if self.entries[i].0 == *key {
                return Some(i);
            }
            i = i + 1;
        }
        None
    }

    /// Where `key`'s record starts, if `key` is present.
    pub fn get(&self, key: &String) -> (r: Option<FileIndex>)
        requires
            self.wf(),
        ensures
            r == (if self@.contains_key(key@) {
                Some(self@[key@])
            } else {
                None
            }),
    {
        match self.find(key) {
            Some(i) => Some(self.entries[i].1),
            None => None,
        }
    }

    /// Maps `key` to `fi`; returns the mapping it replaces, if any.
    pub fn put(&mut self, key: String, fi: FileIndex) -> (r: Option<FileIndex>)
        requires
            old(self).wf(),
        ensures
            final(self).wf(),
            final(self)@ == old(self)@.insert(key@, fi),
            r == (if old(self)@.contains_key(key@) {
                Some(old(self)@[key@])
            } else {
                None
            }),
    {
        let ghost k = key@;
        match self.find(&key) {
            Some(i) => {
                let prior = self.entries[i].1;
                self.entries.set(i, (key, fi));
                self.m = Ghost(self.m@.insert(k, fi));
                proof {
                    assert forall|k2: Seq<char>| #[trigger] self.m@.contains_key(k2) implies exists|
                        j: int,
                    | 0 <= j < self.entries@.len() && self.entries@[j].0@ == k2 by {
                        if k2 != k {
                            let j = choose|j: int|
                                0 <= j < old(self).entries@.len() && old(self).entries@[j].0@
                                    == k2;
                            assert(self.entries@[j].0@ == k2);
                        } else {
                            assert(self.entries@[i as int].0@ == k2);
                        }
                    }
                }
                Some(prior)
            },
            None => {
                self.entries.push((key, fi));
                self.m = Ghost(self.m@.insert(k, fi));
                proof {
                    let n = self.entries@.len() - 1;
                    assert(self.entries@[n].0@ == k);
                    assert forall|k2: Seq<char>| #[trigger] self.m@.contains_key(k2) implies exists|
                        j: int,
                    | 0 <= j < self.entries@.len() && self.entries@[j].0@ == k2 by {
                        if k2 != k {
                            let j = choose|j: int|
                                0 <= j < old(self).entries@.len() && old(self).entries@[j].0@
                                    == k2;
                            assert(self.entries@[j].0@ == k2);
                        } else {
                            assert(self.entries@[n].0@ == k2);
                        }
                    }
                }
                None
            },
        }
    }

    /// Removes `key`; returns the mapping it had, if any.
    pub fn remove(&mut self, key: &String) -> (r: Option<FileIndex>)
        requires
            old(self).wf(),
        ensures
            final(self).wf(),
            final(self)@ == old(self)@.remove(key@),
            r == (if old(self)@.contains_key(key@) {
                Some(old(self)@[key@])
            } else {
                None
            }),
    {
        match self.find(key) {
            Some(i) => {
                let ghost k = key@;
                let ghost olds = self.entries@;
                let e = self.entries.swap_remove(i);
                self.m = Ghost(self.m@.remove(k));
                proof {
                    let n = olds.len() - 1;
                    assert forall|a: int| 0 <= a < self.entries@.len() implies self.entries@[a]
                        == (if a == i { olds[n] } else { olds[a] }) by {}
                    assert forall|k2: Seq<char>| #[trigger] self.m@.contains_key(k2) implies exists|
                        j: int,
                    | 0 <= j < self.entries@.len() && self.entries@[j].0@ == k2 by {
                        let j = choose|j: int| 0 <= j < olds.len() && olds[j].0@ == k2;
                        if j == n && j != i {
                            assert(self.entries@[i as int].0@ == k2);
                        } else {
                            assert(self.entries@[j].0@ == k2);
                        }
                    }
                }
                Some(e.1)
            },
            None => {
                assert(self.m@.remove(key@) =~= self.m@);
                None
            },
        }
    }

    /// The entry at position `i` of `key_seq`.
    pub fn entry(&self, i: usize) -> (r: (&String, FileIndex))
        requires
            self.wf(),
            i < self.key_seq().len(),
        ensures
            r.0@ == self.key_seq()[i as int],
            r.1 == self@[r.0@],
    {
        (&self.entries[i].0, self.entries[i].1)
    }

    /// Points the key at position `i` of `key_seq` to `fi`.
    pub fn set_at(&mut self, i: usize, fi: FileIndex)
        requires
            old(self).wf(),
            i < old(self).key_seq().len(),
        ensures
            final(self).wf(),
            final(self).key_seq() == old(self).key_seq(),
            final(self)@ == old(self)@.insert(old(self).key_seq()[i as int], fi),
    {
        let ghost k = self.entries@[i as int].0@;
        self.entries[i].1 = fi;
        self.m = Ghost(self.m@.insert(k, fi));
        proof {
            assert(self.key_seq() =~= old(self).key_seq());
            assert forall|k2: Seq<char>| #[trigger] self.m@.contains_key(k2) implies exists|j: int|
                0 <= j < self.entries@.len() && self.entries@[j].0@ == k2 by {
                if k2 != k {
                    let j = choose|j: int|
                        0 <= j < old(self).entries@.len() && old(self).entries@[j].0@ == k2;
                    assert(self.entries@[j].0@ == k2);
                } else {
                    assert(self.entries@[i as int].0@ == k2);
                }
            }
        }
    }
}

} // verus!
