use vstd::prelude::*;
use crate::pointer::Pointer;

verus! {

/// The in-memory map from each live key to the location of its latest
/// assignment record. Keys are held once each.
pub struct Index {
    entries: Vec<(String, Pointer)>,
}

impl Index {
    pub closed spec fn has(&self, k: Seq<char>) -> bool {
        exists|i: int| 0 <= i < self.entries@.len() && #[trigger] self.entries@[i].0@ == k
    }

    pub closed spec fn wf(&self) -> bool {
        forall|i: int, j: int|
            0 <= i < self.entries@.len() && 0 <= j < self.entries@.len() && i != j
                ==> #[trigger] self.entries@[i].0@ != #[trigger] self.entries@[j].0@
    }

    pub closed spec fn at(&self, k: Seq<char>) -> Pointer {
        self.entries@[choose|i: int| 0 <= i < self.entries@.len() && #[trigger] self.entries@[i].0@ == k].1
    }

    pub closed spec fn view(&self) -> Map<Seq<char>, Pointer> {
        Map::new(|k: Seq<char>| self.has(k), |k: Seq<char>| self.at(k))
    }

    proof fn lemma_at(&self, i: int)
        requires
            self.wf(),
            0 <= i < self.entries@.len(),
        ensures
            self.view().contains_key(self.entries@[i].0@),
            self.view()[self.entries@[i].0@] == self.entries@[i].1,
    {
        let k = self.entries@[i].0@;
        assert(self.has(k));
        let j = choose|j: int| 0 <= j < self.entries@.len() && #[trigger] self.entries@[j].0@ == k;
        assert(i == j);
    }

    pub fn new() -> (r: Self)
        ensures
            r.wf(),
            r.view() == Map::<Seq<char>, Pointer>::empty(),
    {
        let r = Index { entries: Vec::new() };
        assert(r.view() =~= Map::<Seq<char>, Pointer>::empty());
        r
    }

    pub fn len(&self) -> (r: usize)
        requires
            self.wf(),
        ensures
            r == self.view().len(),
    {
        proof { self.lemma_len(); }
        self.entries.len()
    }

    proof fn lemma_len(&self)
        requires
            self.wf(),
        ensures
            self.view().len() == self.entries@.len(),
        decreases self.entries@.len(),
    {
        let keys = self.entries@.map_values(|e: (String, Pointer)| e.0@);
        assert forall|q: Seq<char>| self.view().dom().contains(q) <==> keys.to_set().contains(q) by {
            if self.has(q) {
                let j = choose|j: int| 0 <= j < self.entries@.len() && #[trigger] self.entries@[j].0@ == q;
                assert(keys[j] == q);
            }
            if keys.to_set().contains(q) {
                let j = choose|j: int| 0 <= j < keys.len() && keys[j] == q;
                assert(self.entries@[j].0@ == q);
            }
        }
        assert(self.view().dom() =~= keys.to_set());
        assert(keys.no_duplicates()) by {
            assert forall|i: int, j: int| 0 <= i < keys.len() && 0 <= j < keys.len() && i != j implies keys[i] != keys[j] by {
                assert(self.entries@[i].0@ != self.entries@[j].0@);
            }
        }
        keys.unique_seq_to_set();
    }

    fn find(&self, k: &String) -> (r: Option<usize>)
        requires
            self.wf(),
        ensures
            r matches Some(i) ==> i < self.entries@.len() && self.entries@[i as int].0@ == k@,
            r is None ==> !self.view().contains_key(k@),
    {
        let mut i: usize = 0;
        while i < self.entries.len()
            invariant
                0 <= i <= self.entries@.len(),
                forall|j: int| 0 <= j < i ==> #[trigger] self.entries@[j].0@ != k@,
            decreases self.entries@.len() - i,
        {
            if self.entries[i].0.eq(k) {
                return Some(i);
            }
            i = i + 1;
        }
        None
    }

    /// The location held for `k`, if any.
    pub fn get(&self, k: &String) -> (r: Option<Pointer>)
        requires
            self.wf(),
        ensures
            r == (if self.view().contains_key(k@) { Some(self.view()[k@]) } else { None::<Pointer> }),
    {
        match self.find(k) {
            Some(i) => {
                proof { self.lemma_at(i as int); }
                Some(self.entries[i].1)
            },
            None => None,
        }
    }

    /// Sets the location of `k`, and returns the one it replaced.
    pub fn insert(&mut self, k: String, p: Pointer) -> (r: Option<Pointer>)
        requires
            old(self).wf(),
        ensures
            final(self).wf(),
            final(self).view() == old(self).view().insert(k@, p),
            r == (if old(self).view().contains_key(k@) { Some(old(self).view()[k@]) } else { None::<Pointer> }),
    {
        match self.find(&k) {
            Some(i) => {
                proof { self.lemma_at(i as int); }
                let prev = self.entries[i].1;
                let ghost before = *self;
                self.entries.set(i, (k, p));
                proof {
                    assert(self.wf());
                    assert forall|q: Seq<char>| #![auto] self.view().contains_key(q) <==> before.view().insert(k@, p).contains_key(q) by {
                        if before.has(q) {
                            let j = choose|j: int| 0 <= j < before.entries@.len() && #[trigger] before.entries@[j].0@ == q;
                            assert(self.entries@[j].0@ == q);
                        }
                        if self.has(q) {
                            let j = choose|j: int| 0 <= j < self.entries@.len() && #[trigger] self.entries@[j].0@ == q;
                            if j != i { assert(before.entries@[j].0@ == q); }
                        }
                    }
                    assert forall|q: Seq<char>| #![auto] self.view().contains_key(q) implies self.view()[q] == before.view().insert(k@, p)[q] by {
                        let j = choose|j: int| 0 <= j < self.entries@.len() && #[trigger] self.entries@[j].0@ == q;
                        self.lemma_at(j);
                        if j != i {
                            before.lemma_at(j);
                        }
                    }
                    assert(self.view() =~= before.view().insert(k@, p));
                }
                Some(prev)
            },
            None => {
                let ghost before = *self;
                self.entries.push((k, p));
                proof {
                    let n = before.entries@.len() as int;
                    assert(self.wf());
                    assert forall|q: Seq<char>| #![auto] self.view().contains_key(q) <==> before.view().insert(k@, p).contains_key(q) by {
                        if before.has(q) {
                            let j = choose|j: int| 0 <= j < before.entries@.len() && #[trigger] before.entries@[j].0@ == q;
                            assert(self.entries@[j].0@ == q);
                        }
                        if q == k@ { assert(self.entries@[n].0@ == q); }
                        if self.has(q) {
                            let j = choose|j: int| 0 <= j < self.entries@.len() && #[trigger] self.entries@[j].0@ == q;
                            if j != n { assert(before.entries@[j].0@ == q); }
                        }
                    }
                    assert forall|q: Seq<char>| #![auto] self.view().contains_key(q) implies self.view()[q] == before.view().insert(k@, p)[q] by {
                        let j = choose|j: int| 0 <= j < self.entries@.len() && #[trigger] self.entries@[j].0@ == q;
                        self.lemma_at(j);
                        if j != n {
                            before.lemma_at(j);
                        }
                    }
                    assert(self.view() =~= before.view().insert(k@, p));
                }
                None
            },
        }
    }

    /// Takes `k` out, and returns the location it had.
    pub fn remove(&mut self, k: &String) -> (r: Option<Pointer>)
        requires
            old(self).wf(),
        ensures
            final(self).wf(),
            final(self).view() == old(self).view().remove(k@),
            r == (if old(self).view().contains_key(k@) { Some(old(self).view()[k@]) } else { None::<Pointer> }),
    {
        match self.find(k) {
            Some(i) => {
                proof { self.lemma_at(i as int); }
                let ghost before = *self;
                let n = self.entries.len();
                let e = self.entries.swap_remove(i);
                proof {
                    let last = n - 1;
                    assert forall|a: int, b: int|
                        0 <= a < self.entries@.len() && 0 <= b < self.entries@.len() && a != b
                            implies #[trigger] self.entries@[a].0@ != #[trigger] self.entries@[b].0@ by {
                        let a2 = if a == i { last as int } else { a };
                        let b2 = if b == i { last as int } else { b };
                        assert(self.entries@[a] == before.entries@[a2]);
                        assert(self.entries@[b] == before.entries@[b2]);
                    }
                    assert(self.wf());
                    assert forall|q: Seq<char>| #![auto] self.view().contains_key(q) <==> before.view().remove(k@).contains_key(q) by {
                        if before.has(q) && q != k@ {
                            let j = choose|j: int| 0 <= j < before.entries@.len() && #[trigger] before.entries@[j].0@ == q;
                            let j2 = if j == last { i as int } else { j };
                            assert(self.entries@[j2].0@ == q);
                        }
                        if self.has(q) {
                            let j = choose|j: int| 0 <= j < self.entries@.len() && #[trigger] self.entries@[j].0@ == q;
                            let j2 = if j == i { last as int } else { j };
                            assert(before.entries@[j2].0@ == q);
                        }
                    }
                    assert forall|q: Seq<char>| #![auto] self.view().contains_key(q) implies self.view()[q] == before.view().remove(k@)[q] by {
                        let j = choose|j: int| 0 <= j < self.entries@.len() && #[trigger] self.entries@[j].0@ == q;
                        self.lemma_at(j);
                        let j2 = if j == i { last as int } else { j };
                        before.lemma_at(j2);
                    }
                    assert(self.view() =~= before.view().remove(k@));
                }
                Some(e.1)
            },
            None => {
                proof { assert(self.view() =~= self.view().remove(k@)); }
                None
            },
        }
    }

    /// The keys held, in no particular order.
    pub fn keys(&self) -> (r: Vec<String>)
        requires
            self.wf(),
        ensures
            r@.len() == self.view().len(),
            forall|i: int| 0 <= i < r@.len() ==> self.view().contains_key(#[trigger] r@[i]@),
            forall|i: int, j: int| 0 <= i < r@.len() && 0 <= j < r@.len() && i != j ==> #[trigger] r@[i]@ != #[trigger] r@[j]@,
    {
        proof { self.lemma_len(); }
        let mut out: Vec<String> = Vec::new();
        let mut i: usize = 0;
        while i < self.entries.len()
            invariant
                self.wf(),
                0 <= i <= self.entries@.len(),
                out@.len() == i,
                forall|j: int| 0 <= j < i ==> #[trigger] out@[j]@ == self.entries@[j].0@,
            decreases self.entries@.len() - i,
        {
            out.push(self.entries[i].0.clone());
            proof { self.lemma_at(i as int); }
            i = i + 1;
        }
        proof {
            assert forall|j: int| 0 <= j < out@.len() implies self.view().contains_key(#[trigger] out@[j]@) by {
                self.lemma_at(j);
            }
        }
        out
    }
}

} // verus!
