//! A small string-keyed table whose keys are kept distinct.
use vstd::prelude::*;

verus! {

/// A table from string keys to string values, each key at most once.
/// Entries keep the order in which their keys were first inserted.
pub struct StrTable {
    entries: Vec<(String, String)>,
}

impl StrTable {
    /// Number of entries.
    pub closed spec fn len_spec(&self) -> nat {
        self.entries@.len()
    }

    /// Key of the entry at position `i`.
    pub closed spec fn key_at(&self, i: int) -> Seq<char> {
        self.entries@[i].0@
    }

    /// Value of the entry at position `i`.
    pub closed spec fn val_at(&self, i: int) -> Seq<char> {
        self.entries@[i].1@
    }

    /// No key occurs twice.
    pub closed spec fn wf(&self) -> bool {
        forall|i: int, j: int|
            0 <= i < j < self.entries@.len() ==> #[trigger] self.entries@[i].0@
                != #[trigger] self.entries@[j].0@
    }

    /// The table as a map from keys to values.
    pub closed spec fn as_map(&self) -> Map<Seq<char>, Seq<char>> {
        Map::new(
            |k: Seq<char>| exists|i: int| 0 <= i < self.entries@.len() && #[trigger] self.entries@[i].0@ == k,
            |k: Seq<char>|
                self.entries@[choose|i: int|
                    0 <= i < self.entries@.len() && #[trigger] self.entries@[i].0@ == k].1@,
        )
    }

    /// Positions and keys describe the same map.
    pub proof fn lemma_index(&self, i: int)
        requires
            self.wf(),
            0 <= i < self.len_spec(),
        ensures
            self@.contains_key(self.key_at(i)),
            self@[self.key_at(i)] == self.val_at(i),
    {
        let k = self.key_at(i);
        assert(self.entries@[i].0@ == k);
        let j = choose|j: int| 0 <= j < self.entries@.len() && #[trigger] self.entries@[j].0@ == k;
        if j < i {
            assert(self.entries@[j].0@ != self.entries@[i].0@);
        } else if i < j {
            assert(self.entries@[i].0@ != self.entries@[j].0@);
        }
    }

    /// Distinct positions hold distinct keys.
    pub proof fn lemma_distinct(&self, i: int, j: int)
        requires
            self.wf(),
            0 <= i < self.len_spec(),
            0 <= j < self.len_spec(),
            i != j,
        ensures
            self.key_at(i) != self.key_at(j),
    {
        if i < j {
            assert(self.entries@[i].0@ != self.entries@[j].0@);
        } else {
            assert(self.entries@[j].0@ != self.entries@[i].0@);
        }
    }

    /// Every key of the map stands at some position.
    pub proof fn lemma_key(&self, k: Seq<char>)
        requires
            self.wf(),
            self@.contains_key(k),
        ensures
            exists|i: int| 0 <= i < self.len_spec() && self.key_at(i) == k,
    {
        let i = choose|i: int| 0 <= i < self.entries@.len() && #[trigger] self.entries@[i].0@ == k;
        assert(self.key_at(i) == k);
    }

    /// An empty table.
    pub fn new() -> (t: Self)
        ensures
            t.wf(),
            t@ == Map::<Seq<char>, Seq<char>>::empty(),
            t.len_spec() == 0,
    {
        let t = StrTable { entries: Vec::new() };
        assert(t@ =~= Map::<Seq<char>, Seq<char>>::empty());
        t
    }

    /// Number of entries.
    pub fn len(&self) -> (n: usize)
        ensures
            n == self.len_spec(),
    {
        self.entries.len()
    }

    /// Key of the entry at position `i`.
    pub fn key(&self, i: usize) -> (k: &String)
        requires
            i < self.len_spec(),
        ensures
            k@ == self.key_at(i as int),
    {
        &self.entries[i].0
    }

    /// Value of the entry at position `i`.
    pub fn value(&self, i: usize) -> (v: &String)
        requires
            i < self.len_spec(),
        ensures
            v@ == self.val_at(i as int),
    {
        &self.entries[i].1
    }

    /// Position of key `k`, if it is in the table.
    pub fn find(&self, k: &str) -> (r: Option<usize>)
        requires
            self.wf(),
        ensures
            match r {
                Some(i) => i < self.len_spec() && self.key_at(i as int) == k@,
                None => !self@.contains_key(k@),
            },
    {
        let key = k.to_owned();
        let mut i: usize = 0;
        while i < self.entries.len()
            invariant
                key@ == k@,
                i <= self.entries@.len(),
                forall|j: int| 0 <= j < i ==> self.entries@[j].0@ != k@,
            decreases self.entries@.len() - i,
        {
            if self.entries[i].0 == key {
                return Some(i);
            }
            i = i + 1;
        }
        proof {
            if self@.contains_key(k@) {
                self.lemma_key(k@);
            }
        }
        None
    }

    /// Whether key `k` is in the table.
    pub fn contains_key(&self, k: &str) -> (b: bool)
        requires
            self.wf(),
        ensures
            b == self@.contains_key(k@),
    {
        match self.find(k) {
            Some(i) => {
                proof {
                    self.lemma_index(i as int);
                }
                true
            },
            None => false,
        }
    }

    /// The value stored under `k`, if any.
    pub fn get(&self, k: &str) -> (r: Option<String>)
        requires
            self.wf(),
        ensures
            match r {
                Some(v) => self@.contains_key(k@) && v@ == self@[k@],
                None => !self@.contains_key(k@),
            },
    {
        match self.find(k) {
            Some(i) => {
                proof {
                    self.lemma_index(i as int);
                }
                Some(self.entries[i].1.clone())
            },
            None => None,
        }
    }

    /// Stores `v` under `k`, replacing what was there.
    pub fn insert(&mut self, k: &str, v: &str)
        requires
            old(self).wf(),
        ensures
            final(self).wf(),
            final(self)@ == old(self)@.insert(k@, v@),
    {
        let ghost old_map = self@;
        match self.find(k) {
            Some(i) => {
                self.entries.set(i, (k.to_owned(), v.to_owned()));
                assert(self.wf()) by {
                    assert forall|a: int, b: int|
                        0 <= a < b < self.entries@.len() implies #[trigger] self.entries@[a].0@
                        != #[trigger] self.entries@[b].0@ by {
                        assert(old(self).entries@[a].0@ != old(self).entries@[b].0@);
                    }
                }
                assert forall|key: Seq<char>| #[trigger] self@.contains_key(key) <==> old_map.insert(k@, v@).contains_key(key) by {
                    if self@.contains_key(key) {
                        self.lemma_key(key);
                        let j = choose|j: int| 0 <= j < self.len_spec() && self.key_at(j) == key;
                        if j != i {
                            old(self).lemma_index(j);
                        }
                    }
                    if old_map.contains_key(key) && key != k@ {
                        old(self).lemma_key(key);
                        let j = choose|j: int| 0 <= j < old(self).len_spec() && old(self).key_at(j) == key;
                        self.lemma_index(j);
                    }
                    if key == k@ {
                        self.lemma_index(i as int);
                    }
                }
                assert forall|key: Seq<char>| #[trigger] self@.contains_key(key) implies self@[key] == old_map.insert(k@, v@)[key] by {
                    self.lemma_key(key);
                    let j = choose|j: int| 0 <= j < self.len_spec() && self.key_at(j) == key;
                    self.lemma_index(j);
                    if j != i {
                        old(self).lemma_index(j);
                    }
                }
                assert(self@ =~= old_map.insert(k@, v@));
            },
            None => {
                self.entries.push((k.to_owned(), v.to_owned()));
                let ghost n = self.entries@.len() - 1;
                assert(self.wf()) by {
                    assert forall|a: int, b: int|
                        0 <= a < b < self.entries@.len() implies #[trigger] self.entries@[a].0@
                        != #[trigger] self.entries@[b].0@ by {
                        if b < n {
                            assert(old(self).entries@[a].0@ != old(self).entries@[b].0@);
                        } else {
                            if self.entries@[a].0@ == k@ {
                                old(self).lemma_index(a);
                            }
                        }
                    }
                }
                assert forall|key: Seq<char>| #[trigger] self@.contains_key(key) <==> old_map.insert(k@, v@).contains_key(key) by {
                    if self@.contains_key(key) {
                        self.lemma_key(key);
                        let j = choose|j: int| 0 <= j < self.len_spec() && self.key_at(j) == key;
                        if j < n {
                            old(self).lemma_index(j);
                        }
                    }
                    if old_map.contains_key(key) {
                        old(self).lemma_key(key);
                        let j = choose|j: int| 0 <= j < old(self).len_spec() && old(self).key_at(j) == key;
                        self.lemma_index(j);
                    }
                    if key == k@ {
                        self.lemma_index(n);
                    }
                }
                assert forall|key: Seq<char>| #[trigger] self@.contains_key(key) implies self@[key] == old_map.insert(k@, v@)[key] by {
                    self.lemma_key(key);
                    let j = choose|j: int| 0 <= j < self.len_spec() && self.key_at(j) == key;
                    self.lemma_index(j);
                    if j < n {
                        old(self).lemma_index(j);
                    }
                }
                assert(self@ =~= old_map.insert(k@, v@));
            },
        }
    }

    /// Removes the entry of `k`, if there is one.
    pub fn remove(&mut self, k: &str)
        requires
            old(self).wf(),
        ensures
            final(self).wf(),
            final(self)@ == old(self)@.remove(k@),
    {
        let ghost old_map = self@;
        match self.find(k) {
            Some(i) => {
                self.entries.remove(i);
                assert forall|a: int, b: int|
                    0 <= a < b < self.entries@.len() implies #[trigger] self.entries@[a].0@
                    != #[trigger] self.entries@[b].0@ by {
                    let oa = if a < i { a } else { a + 1 };
                    let ob = if b < i { b } else { b + 1 };
                    assert(self.entries@[a] == old(self).entries@[oa]);
                    assert(self.entries@[b] == old(self).entries@[ob]);
                    old(self).lemma_distinct(oa, ob);
                }
                assert forall|key: Seq<char>| #[trigger] self@.contains_key(key) <==> old_map.remove(k@).contains_key(key) by {
                    if self@.contains_key(key) {
                        self.lemma_key(key);
                        let j = choose|j: int| 0 <= j < self.len_spec() && self.key_at(j) == key;
                        let oj = if j < i { j } else { j + 1 };
                        assert(self.entries@[j] == old(self).entries@[oj]);
                        old(self).lemma_index(oj);
                        old(self).lemma_distinct(oj, i as int);
                    }
                    if old_map.contains_key(key) && key != k@ {
                        old(self).lemma_key(key);
                        let j = choose|j: int| 0 <= j < old(self).len_spec() && old(self).key_at(j) == key;
                        assert(j != i);
                        let nj = if j < i { j } else { j - 1 };
                        assert(self.entries@[nj] == old(self).entries@[j]);
                        self.lemma_index(nj);
                    }
                }
                assert forall|key: Seq<char>| #[trigger] self@.contains_key(key) implies self@[key] == old_map.remove(k@)[key] by {
                    self.lemma_key(key);
                    let j = choose|j: int| 0 <= j < self.len_spec() && self.key_at(j) == key;
                    let oj = if j < i { j } else { j + 1 };
                    assert(self.entries@[j] == old(self).entries@[oj]);
                    self.lemma_index(j);
                    old(self).lemma_index(oj);
                    old(self).lemma_distinct(oj, i as int);
                }
                assert(self@ =~= old_map.remove(k@));
            },
            None => {
                assert(old_map.remove(k@) =~= old_map);
            },
        }
    }
}

impl View for StrTable {
    type V = Map<Seq<char>, Seq<char>>;

    closed spec fn view(&self) -> Map<Seq<char>, Seq<char>> {
        self.as_map()
    }
}

} // verus!
