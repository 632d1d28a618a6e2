//! A store from string keys to copyable values, held as a list of entries
//! with unique keys and seen by contracts as a `Map`.

use vstd::prelude::*;

verus! {

pub struct Entry<V> {
    pub key: String,
    pub value: V,
}

pub struct KeyedList<V> {
    pub entries: Vec<Entry<V>>,
}

pub open spec fn has_key<V>(s: Seq<Entry<V>>, k: Seq<char>) -> bool {
    exists|i: int| 0 <= i < s.len() && #[trigger] s[i].key@ == k
}

impl<V: Copy> KeyedList<V> {
    /// No key occurs twice.
    pub open spec fn wf(&self) -> bool {
        forall|i: int, j: int|
            0 <= i < self.entries@.len() && 0 <= j < self.entries@.len() && i != j
                ==> #[trigger] self.entries@[i].key@ != #[trigger] self.entries@[j].key@
    }

    pub open spec fn view(&self) -> Map<Seq<char>, V> {
        Map::new(
            |k: Seq<char>| has_key(self.entries@, k),
            |k: Seq<char>|
                self.entries@[choose|i: int|
                    0 <= i < self.entries@.len() && #[trigger] self.entries@[i].key@ == k].value,
        )
    }

    pub proof fn lemma_entry(&self, i: int)
        requires
            self.wf(),
            0 <= i < self.entries@.len(),
        ensures
            self.view().contains_key(self.entries@[i].key@),
            self.view()[self.entries@[i].key@] == self.entries@[i].value,
    {
        let k = self.entries@[i].key@;
        assert(has_key(self.entries@, k));
        let j = choose|j: int| 0 <= j < self.entries@.len() && #[trigger] self.entries@[j].key@ == k;
        assert(i == j);
    }

    pub fn new() -> (r: Self)
        ensures
            r.wf(),
            r.view() == Map::<Seq<char>, V>::empty(),
    {
        let r = KeyedList { entries: Vec::new() };
        assert(r.view() =~= Map::<Seq<char>, V>::empty());
        r
    }

    /// The index of `key`'s entry, if there is one.
    pub fn find(&self, key: &String) -> (r: Option<usize>)
        requires
            self.wf(),
        ensures
            r is None <==> !self.view().contains_key(key@),
            r matches Some(i) ==> i < self.entries@.len() && self.entries@[i as int].key@ == key@,
    {
        let mut i: usize = 0;
        while i < self.entries.len()
            invariant
                i <= self.entries@.len(),
                forall|j: int| 0 <= j < i ==> #[trigger] self.entries@[j].key@ != key@,
            decreases self.entries@.len() - i,
        {
            if self.entries[i].key == *key {
                return Some(i);
            }
            i = i + 1;
        }
        None
    }

    /// The value under `key`, if there is one.
    pub fn get(&self, key: &String) -> (r: Option<V>)
        requires
            self.wf(),
        ensures
            r is None <==> !self.view().contains_key(key@),
            r matches Some(v) ==> v == self.view()[key@],
    {
        match self.find(key) {
            Some(i) => {
                proof {
                    self.lemma_entry(i as int);
                }
                Some(self.entries[i].value)
            },
            None => None,
        }
    }

    /// Sets the value under `key`, adding an entry where there is none.
    pub fn insert(&mut self, key: String, value: V)
        requires
            old(self).wf(),
        ensures
            final(self).wf(),
            final(self).view() == old(self).view().insert(key@, value),
    {
        let ghost k = key@;
        let ghost idx: int;
        match self.find(&key) {
            Some(i) => {
                self.entries.set(i, Entry { key, value });
                proof {
                    idx = i as int;
                }
            },
            None => {
                self.entries.push(Entry { key, value });
                proof {
                    idx = old(self).entries@.len() as int;
                }
            },
        }
        proof {
            assert(self.entries@[idx].key@ == k);
            assert forall|j: int| 0 <= j < self.entries@.len() && j != idx implies
                #[trigger] self.entries@[j] == old(self).entries@[j] && self.entries@[j].key@ != k
            by {}
            assert forall|q: Seq<char>|
                #![auto] self.view().contains_key(q) == old(self).view().insert(k, value).contains_key(q)
            by {
                if has_key(old(self).entries@, q) && q != k {
                    let j = choose|j: int| 0 <= j < old(self).entries@.len() && #[trigger] old(self).entries@[j].key@ == q;
                    assert(self.entries@[j].key@ == q);
                }
                if q == k {
                    assert(has_key(self.entries@, q));
                } else if has_key(self.entries@, q) {
                    let j = choose|j: int| 0 <= j < self.entries@.len() && #[trigger] self.entries@[j].key@ == q;
                    assert(old(self).entries@[j].key@ == q);
                }
            }
            assert forall|q: Seq<char>| #![auto] self.view().contains_key(q) implies
                self.view()[q] == old(self).view().insert(k, value)[q]
            by {
                let j = choose|j: int| 0 <= j < self.entries@.len() && #[trigger] self.entries@[j].key@ == q;
                self.lemma_entry(j);
                if q != k {
                    assert(old(self).entries@[j].key@ == q);
                    old(self).lemma_entry(j);
                }
            }
            assert(self.view() =~= old(self).view().insert(k, value));
        }
    }
}

} // verus!
