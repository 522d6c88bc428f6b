//! A map keyed by strings, kept as a list of entries with distinct keys in
//! the order the keys were first inserted.
use vstd::prelude::*;

verus! {

#[derive(Debug, Clone)]
pub struct StrMap<V> {
    pub entries: Vec<(String, V)>,
}

impl<V: View> View for StrMap<V> {
    type V = Map<Seq<char>, V::V>;

    open spec fn view(&self) -> Map<Seq<char>, V::V> {
        Map::new(
            |k: Seq<char>| self.has_key(k),
            |k: Seq<char>| self.entries@[self.index_of(k)].1@,
        )
    }
}

impl<V: View> StrMap<V> {
    pub open spec fn has_key(&self, k: Seq<char>) -> bool {
        exists|i: int| 0 <= i < self.entries@.len() && self.entries@[i].0@ == k
    }

    pub open spec fn index_of(&self, k: Seq<char>) -> int {
        choose|i: int| 0 <= i < self.entries@.len() && self.entries@[i].0@ == k
    }

    /// No key occurs twice.
    pub open spec fn wf(&self) -> bool {
        forall|i: int, j: int|
            0 <= i < j < self.entries@.len() ==> self.entries@[i].0@ != self.entries@[j].0@
    }

    pub proof fn lemma_entry(&self, i: int)
        requires
            self.wf(),
            0 <= i < self.entries@.len(),
        ensures
            self@.contains_key(self.entries@[i].0@),
            self@[self.entries@[i].0@] == self.entries@[i].1@,
    {
        let k = self.entries@[i].0@;
        assert(self.has_key(k));
        let j = self.index_of(k);
        assert(self.entries@[j].0@ == k);
        assert(j == i);
    }

    pub fn new() -> (r: StrMap<V>)
        ensures
            r.wf(),
            r@ == Map::<Seq<char>, V::V>::empty(),
            r.entries@.len() == 0,
    {
        let r = StrMap { entries: Vec::new() };
        assert(r@ =~= Map::<Seq<char>, V::V>::empty());
        r
    }

    fn find(&self, k: &String) -> (r: Option<usize>)
        requires
            self.wf(),
        ensures
            match r {
                Some(i) => i < self.entries@.len() && self.entries@[i as int].0@ == k@,
                None => !self.has_key(k@),
            },
    {
        let mut i: usize = 0;
        while i < self.entries.len()
            invariant
                i <= self.entries@.len(),
                forall|j: int| 0 <= j < i ==> self.entries@[j].0@ != k@,
            decreases self.entries@.len() - i,
        {
            if self.entries[i].0 == *k {
                return Some(i);
            }
            i = i + 1;
        }
        None
    }

    pub fn get(&self, k: &String) -> (r: Option<&V>)
        requires
            self.wf(),
        ensures
            match r {
                Some(v) => self@.contains_key(k@) && self@[k@] == v@ && exists|i: int|
                    0 <= i < self.entries@.len() && #[trigger] self.entries@[i].1 == *v,
                None => !self@.contains_key(k@),
            },
    {
        match self.find(k) {
            Some(i) => {
                proof {
                    self.lemma_entry(i as int);
                }
                Some(&self.entries[i].1)
            },
            None => None,
        }
    }

    /// Sets the value under `k`, replacing any earlier one.
    pub fn insert(&mut self, k: String, v: V)
        requires
            old(self).wf(),
        ensures
            final(self).wf(),
            final(self)@ == old(self)@.insert(k@, v@),
            forall|j: int|
                0 <= j < final(self).entries@.len() ==> final(self).entries@[j].1 == v || exists|
                    i: int,
                | 0 <= i < old(self).entries@.len() && #[trigger] final(self).entries@[j].1
                    == old(self).entries@[i].1,
    {
        let ghost k_view = k@;
        let ghost v_view = v@;
        let ghost prev = *self;
        match self.find(&k) {
            Some(i) => {
                self.entries.set(i, (k, v));
                proof {
                    let cur = *self;
                    assert(cur.entries@ == prev.entries@.update(i as int, (k, v)));
                    assert forall|q: Seq<char>|
                        cur.has_key(q) == (prev.has_key(q) || q == k_view) by {
                        if prev.has_key(q) {
                            let j = choose|j: int|
                                0 <= j < prev.entries@.len() && prev.entries@[j].0@ == q;
                            if j == i {
                                assert(cur.entries@[j].0@ == q);
                            } else {
                                assert(cur.entries@[j] == prev.entries@[j]);
                            }
                        }
                        if q == k_view {
                            assert(cur.entries@[i as int].0@ == q);
                        }
                        if cur.has_key(q) {
                            let j = choose|j: int|
                                0 <= j < cur.entries@.len() && cur.entries@[j].0@ == q;
                            if j != i {
                                assert(prev.entries@[j] == cur.entries@[j]);
                            }
                        }
                    }
                    assert(cur.wf()) by {
                        assert forall|a: int, b: int|
                            0 <= a < b < cur.entries@.len() implies cur.entries@[a].0@
                                != cur.entries@[b].0@ by {
                            assert(prev.entries@[a].0@ == cur.entries@[a].0@);
                            assert(prev.entries@[b].0@ == cur.entries@[b].0@);
                        }
                    }
                    assert forall|q: Seq<char>| #[trigger] cur.has_key(q) implies cur@[q]
                        == prev@.insert(k_view, v_view)[q] by {
                        let j = cur.index_of(q);
                        cur.lemma_entry(j);
                        if q != k_view {
                            assert(j != i);
                            assert(prev.entries@[j] == cur.entries@[j]);
                            prev.lemma_entry(j);
                        }
                    }
                    assert(cur@ =~= prev@.insert(k_view, v_view));
                    assert forall|j: int| 0 <= j < cur.entries@.len() && j != i implies #[trigger] cur.entries@[j].1
                        == prev.entries@[j].1 by {}
                }
            },
            None => {
                self.entries.push((k, v));
                proof {
                    let cur = *self;
                    let n: int = prev.entries@.len() as int;
                    assert(cur.entries@ == prev.entries@.push((k, v)));
                    assert forall|q: Seq<char>|
                        cur.has_key(q) == (prev.has_key(q) || q == k_view) by {
                        if prev.has_key(q) {
                            let j = choose|j: int|
                                0 <= j < prev.entries@.len() && prev.entries@[j].0@ == q;
                            assert(cur.entries@[j] == prev.entries@[j]);
                        }
                        if q == k_view {
                            assert(cur.entries@[n].0@ == q);
                        }
                        if cur.has_key(q) {
                            let j = choose|j: int|
                                0 <= j < cur.entries@.len() && cur.entries@[j].0@ == q;
                            if j < n {
                                assert(prev.entries@[j] == cur.entries@[j]);
                            }
                        }
                    }
                    assert(cur.wf()) by {
                        assert forall|a: int, b: int|
                            0 <= a < b < cur.entries@.len() implies cur.entries@[a].0@
                                != cur.entries@[b].0@ by {
                            assert(prev.entries@[a] == cur.entries@[a]);
                            if b < n {
                                assert(prev.entries@[b] == cur.entries@[b]);
                            }
                        }
                    }
                    assert forall|q: Seq<char>| #[trigger] cur.has_key(q) implies cur@[q]
                        == prev@.insert(k_view, v_view)[q] by {
                        let j = cur.index_of(q);
                        cur.lemma_entry(j);
                        if q != k_view {
                            assert(j != n);
                            assert(prev.entries@[j] == cur.entries@[j]);
                            prev.lemma_entry(j);
                        }
                    }
                    assert(cur@ =~= prev@.insert(k_view, v_view));
                    assert forall|j: int| 0 <= j < n implies #[trigger] cur.entries@[j].1
                        == prev.entries@[j].1 by {}
                }
            },
        }
    }
}

} // verus!
