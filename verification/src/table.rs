use vstd::prelude::*;
use crate::text::str_equal;

verus! {

/// One key and its value.
pub struct Slot<V> {
    pub key: String,
    pub value: V,
}

/// A map from string keys to values that keeps its keys in insertion order.
/// No key occurs twice.
pub struct Table<V> {
    slots: Vec<Slot<V>>,
}

impl<V> View for Table<V> {
    type V = Map<Seq<char>, V>;

    /// The table as a map from key to value (the key order is `key_seq`).
    open spec fn view(&self) -> Map<Seq<char>, V> {
        Map::new(|k: Seq<char>| self.has(k), |k: Seq<char>| self.slots()[self.index_of(k)].value)
    }
}

impl<V> Table<V> {
    /// The slots, in order.
    pub closed spec fn slots(&self) -> Seq<Slot<V>> {
        self.slots@
    }

    /// The keys, in order.
    pub open spec fn key_seq(&self) -> Seq<Seq<char>> {
        self.slots().map_values(|s: Slot<V>| s.key@)
    }

    /// No key occurs twice.
    pub open spec fn wf(&self) -> bool {
        forall|i: int, j: int|
            0 <= i < j < self.slots().len() ==> (#[trigger] self.slots()[i]).key@
                != (#[trigger] self.slots()[j]).key@
    }

    /// Whether `k` is a key.
    pub open spec fn has(&self, k: Seq<char>) -> bool {
        exists|i: int| 0 <= i < self.slots().len() && (#[trigger] self.slots()[i]).key@ == k
    }

    /// The position of key `k`.
    pub open spec fn index_of(&self, k: Seq<char>) -> int {
        choose|i: int| 0 <= i < self.slots().len() && (#[trigger] self.slots()[i]).key@ == k
    }

    /// In a well-formed table, the slot holding a key is the one `index_of` names.
    pub proof fn lemma_index_of(&self, i: int)
        requires
            self.wf(),
            0 <= i < self.slots().len(),
        ensures
            self.has(self.slots()[i].key@),
            self.index_of(self.slots()[i].key@) == i,
    {
        let k = self.slots()[i].key@;
        assert(self.has(k));
        let j = self.index_of(k);
        if j != i {
            if i < j {
                assert(self.slots()[i].key@ != self.slots()[j].key@);
            } else {
                assert(self.slots()[j].key@ != self.slots()[i].key@);
            }
        }
    }

    /// An empty table.
    pub fn new() -> (r: Self)
        ensures
            r.wf(),
            r.view() == Map::<Seq<char>, V>::empty(),
            r.slots().len() == 0,
    {
        let r = Table { slots: Vec::new() };
        assert(r.view() =~= Map::<Seq<char>, V>::empty());
        r
    }

    /// The number of keys.
    pub fn len(&self) -> (r: usize)
        ensures
            r == self.slots().len(),
    {
        self.slots.len()
    }

    /// The key in slot `i`.
    pub fn key_at(&self, i: usize) -> (r: &String)
        requires
            i < self.slots().len(),
        ensures
            *r == self.slots()[i as int].key,
    {
        &self.slots[i].key
    }

    /// The value in slot `i`.
    pub fn value_at(&self, i: usize) -> (r: &V)
        requires
            i < self.slots().len(),
        ensures
            *r == self.slots()[i as int].value,
    {
        &self.slots[i].value
    }

    /// The slot that holds key `k`, if any.
    pub fn find(&self, k: &str) -> (r: Option<usize>)
        requires
            self.wf(),
        ensures
            match r {
                Some(i) => i < self.slots().len() && self.slots()[i as int].key@ == k@
                    && self.index_of(k@) == i,
                None => !self.has(k@),
            },
    {
        let n = self.slots.len();
        let mut i: usize = 0;
        while i < n
            invariant
                self.wf(),
                n == self.slots().len(),
                i <= n,
                forall|j: int| 0 <= j < i ==> (#[trigger] self.slots()[j]).key@ != k@,
            decreases n - i,
        {
            if str_equal(self.slots[i].key.as_str(), k) {
                proof {
                    self.lemma_index_of(i as int);
                }
                return Some(i);
            }
            i = i + 1;
        }
        None
    }

    /// The value of key `k`, if any.
    pub fn get(&self, k: &str) -> (r: Option<&V>)
        requires
            self.wf(),
        ensures
            match r {
                Some(v) => self.view().contains_key(k@) && *v == self.view()[k@],
                None => !self.view().contains_key(k@),
            },
    {
        match self.find(k) {
            Some(i) => Some(&self.slots[i].value),
            None => None,
        }
    }

    /// Sets the value of key `k`: a new key goes last, a present key keeps
    /// its place.
    pub fn insert(&mut self, k: String, v: V)
        requires
            old(self).wf(),
        ensures
            final(self).wf(),
            final(self).view() == old(self).view().insert(k@, v),
            old(self).has(k@) ==> final(self).key_seq() == old(self).key_seq(),
            !old(self).has(k@) ==> final(self).key_seq() == old(self).key_seq().push(k@),
    {
        let ghost old_t = *self;
        let ghost kv = k@;
        match self.find(k.as_str()) {
            Some(i) => {
                self.slots.set(i, Slot { key: k, value: v });
                proof {
                    assert forall|a: int, b: int|
                        0 <= a < b < self.slots().len() implies (#[trigger] self.slots()[a]).key@
                        != (#[trigger] self.slots()[b]).key@ by {
                        assert(old_t.slots()[a].key@ != old_t.slots()[b].key@);
                    }
                    assert forall|key: Seq<char>| #[trigger]
                        self.view().contains_key(key) == old_t.view().insert(kv, v).contains_key(
                            key,
                        ) by {
                        if old_t.has(key) {
                            let j = old_t.index_of(key);
                            assert(self.slots()[j].key@ == key || j == i);
                        }
                        if self.has(key) {
                            let j = self.index_of(key);
                            assert(old_t.slots()[j].key@ == key || j == i);
                        }
                    }
                    assert forall|key: Seq<char>| #[trigger] self.view().contains_key(key)
                        implies self.view()[key] == old_t.view().insert(kv, v)[key] by {
                        let j = self.index_of(key);
                        self.lemma_index_of(j);
                        if key != kv {
                            assert(j != i);
                            old_t.lemma_index_of(j);
                        }
                    }
                    assert(self.view() =~= old_t.view().insert(kv, v));
                    assert(self.key_seq() =~= old_t.key_seq());
                }
            },
            None => {
                self.slots.push(Slot { key: k, value: v });
                proof {
                    let n = old_t.slots().len() as int;
                    assert forall|a: int, b: int|
                        0 <= a < b < self.slots().len() implies (#[trigger] self.slots()[a]).key@
                        != (#[trigger] self.slots()[b]).key@ by {
                        if b < n {
                            assert(old_t.slots()[a].key@ != old_t.slots()[b].key@);
                        } else {
                            assert(old_t.slots()[a].key@ != kv);
                        }
                    }
                    assert forall|key: Seq<char>| #[trigger]
                        self.view().contains_key(key) == old_t.view().insert(kv, v).contains_key(
                            key,
                        ) by {
                        if old_t.has(key) {
                            let j = old_t.index_of(key);
                            assert(self.slots()[j] == old_t.slots()[j]);
                        }
                        if key == kv {
                            assert(self.slots()[n].key@ == kv);
                        }
                        if self.has(key) {
                            let j = self.index_of(key);
                            if j < n {
                                assert(old_t.slots()[j] == self.slots()[j]);
                            }
                        }
                    }
                    assert forall|key: Seq<char>| #[trigger] self.view().contains_key(key)
                        implies self.view()[key] == old_t.view().insert(kv, v)[key] by {
                        let j = self.index_of(key);
                        self.lemma_index_of(j);
                        if key != kv {
                            assert(j != n);
                            assert(old_t.slots()[j] == self.slots()[j]);
                            old_t.lemma_index_of(j);
                        }
                    }
                    assert(self.view() =~= old_t.view().insert(kv, v));
                    assert(self.key_seq() =~= old_t.key_seq().push(kv));
                }
            },
        }
    }

    /// Removes key `k` and gives back its value, if it was there.
    pub fn remove(&mut self, k: &str) -> (r: Option<V>)
        requires
            old(self).wf(),
        ensures
            final(self).wf(),
            final(self).view() == old(self).view().remove(k@),
            old(self).has(k@) ==> final(self).key_seq() == old(self).key_seq().remove(
                old(self).index_of(k@),
            ),
            !old(self).has(k@) ==> final(self).key_seq() == old(self).key_seq(),
            match r {
                Some(v) => old(self).view().contains_key(k@) && v == old(self).view()[k@],
                None => !old(self).view().contains_key(k@),
            },
    {
        let ghost old_t = *self;
        match self.find(k) {
            Some(i) => {
                let s = self.slots.remove(i);
                proof {
                    let n = old_t.slots().len() as int;
                    assert forall|a: int, b: int|
                        0 <= a < b < self.slots().len() implies (#[trigger] self.slots()[a]).key@
                        != (#[trigger] self.slots()[b]).key@ by {
                        let a0 = if a < i { a } else { a + 1 };
                        let b0 = if b < i { b } else { b + 1 };
                        assert(self.slots()[a] == old_t.slots()[a0]);
                        assert(self.slots()[b] == old_t.slots()[b0]);
                        assert(old_t.slots()[a0].key@ != old_t.slots()[b0].key@);
                    }
                    assert forall|key: Seq<char>| #[trigger]
                        self.view().contains_key(key) == old_t.view().remove(k@).contains_key(key) by {
                        if old_t.has(key) && key != k@ {
                            let j = old_t.index_of(key);
                            assert(j != i);
                            let j1 = if j < i { j } else { j - 1 };
                            assert(self.slots()[j1] == old_t.slots()[j]);
                        }
                        if self.has(key) {
                            let j = self.index_of(key);
                            let j0 = if j < i { j } else { j + 1 };
                            assert(self.slots()[j] == old_t.slots()[j0]);
                            assert(j0 != i);
                            old_t.lemma_index_of(i as int);
                            old_t.lemma_index_of(j0);
                        }
                    }
                    assert forall|key: Seq<char>| #[trigger] self.view().contains_key(key)
                        implies self.view()[key] == old_t.view().remove(k@)[key] by {
                        let j = self.index_of(key);
                        self.lemma_index_of(j);
                        let j0 = if j < i { j } else { j + 1 };
                        assert(self.slots()[j] == old_t.slots()[j0]);
                        old_t.lemma_index_of(j0);
                    }
                    assert(self.view() =~= old_t.view().remove(k@));
                    assert(self.key_seq() =~= old_t.key_seq().remove(i as int));
                }
                Some(s.value)
            },
            None => {
                assert(self.view() =~= old_t.view().remove(k@));
                assert(self.key_seq() =~= old_t.key_seq());
                None
            },
        }
    }
}

} // verus!
