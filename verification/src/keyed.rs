//! A table of rows keyed by text, each key held at most once: the storage
//! behind the wallet's balances, encumbrances, deposit references and keys.
use vstd::prelude::*;

verus! {

/// The keys of `rows`, in row order.
pub open spec fn key_seq<V>(rows: Seq<(String, V)>) -> Seq<Seq<char>> {
    Seq::new(rows.len(), |i: int| rows[i].0@)
}

/// Some row of `rows` has key `k`.
pub open spec fn has_key<V>(rows: Seq<(String, V)>, k: Seq<char>) -> bool {
    exists|i: int| 0 <= i < rows.len() && rows[i].0@ == k
}

/// The view of the value of a row of `rows` with key `k`.
pub open spec fn value_under<V: View>(rows: Seq<(String, V)>, k: Seq<char>) -> V::V {
    rows[choose|i: int| 0 <= i < rows.len() && rows[i].0@ == k].1@
}

/// Rows keyed by text; no key is held twice.
#[derive(Debug)]
pub struct KeyedTable<V> {
    rows: Vec<(String, V)>,
}

impl<V: View> View for KeyedTable<V> {
    type V = Map<Seq<char>, V::V>;

    closed spec fn view(&self) -> Map<Seq<char>, V::V> {
        Map::new(|k: Seq<char>| has_key(self.rows@, k), |k: Seq<char>| value_under(self.rows@, k))
    }
}

impl<V: View> KeyedTable<V> {
    /// The rows, in the order their keys were first inserted.
    pub closed spec fn entries(&self) -> Seq<(String, V)> {
        self.rows@
    }

    /// No key is held twice.
    pub closed spec fn wf(&self) -> bool {
        key_seq(self.rows@).no_duplicates()
    }

    /// An empty table.
    pub fn new() -> (r: KeyedTable<V>)
        ensures
            r.wf(),
            r@ == Map::<Seq<char>, V::V>::empty(),
            r.entries().len() == 0,
    {
        let r = KeyedTable { rows: Vec::new() };
        proof {
            assert(r@ =~= Map::<Seq<char>, V::V>::empty());
        }
        r
    }

    /// Row `i` is the row of its key.
    pub proof fn lemma_entry(&self, i: int)
        requires
            self.wf(),
            0 <= i < self.entries().len(),
        ensures
            self@.dom().contains(self.entries()[i].0@),
            self@[self.entries()[i].0@] == self.entries()[i].1@,
    {
        let rows = self.rows@;
        let k = rows[i].0@;
        let ks = key_seq(rows);
        assert(ks[i] == k);
        assert forall|c: int| 0 <= c < rows.len() && rows[c].0@ == k implies c == i by {
            assert(ks[c] == rows[c].0@);
        }
    }

    /// Two rows have two keys.
    pub proof fn lemma_distinct(&self, i: int, j: int)
        requires
            self.wf(),
            0 <= i < self.entries().len(),
            0 <= j < self.entries().len(),
            i != j,
        ensures
            self.entries()[i].0@ != self.entries()[j].0@,
    {
        let ks = key_seq(self.rows@);
        assert(ks[i] == self.rows@[i].0@ && ks[j] == self.rows@[j].0@);
    }

    /// Every key held is the key of some row.
    pub proof fn lemma_key_has_entry(&self, k: Seq<char>)
        requires
            self@.dom().contains(k),
        ensures
            exists|i: int| 0 <= i < self.entries().len() && #[trigger] self.entries()[i].0@ == k,
    {
        let j = choose|j: int| 0 <= j < self.rows@.len() && self.rows@[j].0@ == k;
        assert(self.entries()[j].0@ == k);
    }

    /// The keys held are as many as the rows.
    pub proof fn lemma_len(&self)
        requires
            self.wf(),
        ensures
            self@.dom().finite(),
            self@.dom().len() == self.entries().len(),
    {
        let ks = key_seq(self.rows@);
        assert(self@.dom() =~= ks.to_set()) by {
            assert forall|k: Seq<char>| self@.dom().contains(k) <==> ks.to_set().contains(k) by {
                if self@.dom().contains(k) {
                    let j = choose|j: int| 0 <= j < self.rows@.len() && self.rows@[j].0@ == k;
                    assert(ks[j] == k);
                }
                if ks.to_set().contains(k) {
                    let j = choose|j: int| 0 <= j < ks.len() && ks[j] == k;
                    assert(self.rows@[j].0@ == k);
                }
            }
        }
        ks.unique_seq_to_set();
    }

    /// How many rows there are.
    pub fn len(&self) -> (r: usize)
        ensures
            r == self.entries().len(),
    {
        self.rows.len()
    }

    /// The key of row `i`.
    pub fn key_at(&self, i: usize) -> (r: &String)
        requires
            i < self.entries().len(),
        ensures
            *r == self.entries()[i as int].0,
    {
        &self.rows[i].0
    }

    /// The value of row `i`.
    pub fn value_at(&self, i: usize) -> (r: &V)
        requires
            i < self.entries().len(),
        ensures
            *r == self.entries()[i as int].1,
    {
        &self.rows[i].1
    }

    /// The row holding `k`, if any.
    pub fn position(&self, k: &str) -> (r: Option<usize>)
        ensures
            r matches Some(i) ==> i < self.entries().len() && self.entries()[i as int].0@ == k@,
            r is None ==> !self@.dom().contains(k@),
    {
        let mut i: usize = 0;
        while i < self.rows.len()
            invariant
                i <= self.rows@.len(),
                forall|j: int| 0 <= j < i ==> self.rows@[j].0@ != k@,
            decreases self.rows@.len() - i,
        {
            if crate::text::str_eq(self.rows[i].0.as_str(), k) {
                return Some(i);
            }
            i = i + 1;
        }
        None
    }

    /// The value held under `k`.
    pub fn get(&self, k: &str) -> (r: Option<&V>)
        requires
            self.wf(),
        ensures
            self@.dom().contains(k@) ==> (r matches Some(x) && x@ == self@[k@]),
            !self@.dom().contains(k@) ==> r is None,
    {
        match self.position(k) {
            Some(i) => {
                proof {
                    self.lemma_entry(i as int);
                }
                Some(&self.rows[i].1)
            },
            None => None,
        }
    }

    /// Hold `v` under `k`, replacing what was held there.
    pub fn insert(&mut self, k: String, v: V)
        requires
            old(self).wf(),
        ensures
            final(self).wf(),
            final(self)@ == old(self)@.insert(k@, v@),
            old(self)@.dom().contains(k@) ==> final(self).entries().len() == old(self).entries().len(),
            !old(self)@.dom().contains(k@) ==> final(self).entries() == old(self).entries().push((k, v)),
    {
        let ghost before = self.rows@;
        let ghost ks0 = key_seq(before);
        let ghost key = k@;
        let ghost val = v@;
        match self.position(k.as_str()) {
            Some(i) => {
                self.rows.set(i, (k, v));
                proof {
                    let rows = self.rows@;
                    let ks = key_seq(rows);
                    assert(ks =~= ks0.update(i as int, key));
                    assert(ks.no_duplicates()) by {
                        assert forall|x: int, y: int| 0 <= x < ks.len() && 0 <= y < ks.len() && x != y implies ks[x] != ks[y] by {
                            assert(ks0[i as int] == key);
                        }
                    }
                    assert forall|q: Seq<char>| #[trigger] self@.dom().contains(q) <==> old(self)@.insert(key, val).dom().contains(q) by {
                        if old(self)@.dom().contains(q) && q != key {
                            let j = choose|j: int| 0 <= j < before.len() && before[j].0@ == q;
                            assert(rows[j] == before[j]);
                        }
                        if self@.dom().contains(q) && q != key {
                            let j = choose|j: int| 0 <= j < rows.len() && rows[j].0@ == q;
                            assert(rows[j] == before[j]);
                        }
                        if q == key {
                            assert(rows[i as int].0@ == q);
                        }
                    }
                    assert forall|q: Seq<char>| #[trigger] self@.dom().contains(q)
                        implies self@[q] == old(self)@.insert(key, val)[q] by {
                        let j = choose|j: int| 0 <= j < rows.len() && rows[j].0@ == q;
                        self.lemma_entry(j);
                        if q != key {
                            assert(rows[j] == before[j]);
                            let j2 = choose|j2: int| 0 <= j2 < before.len() && before[j2].0@ == q;
                            assert(ks0[j2] == q && ks0[j] == q);
                        } else {
                            assert(ks[i as int] == q);
                            assert(ks[j] == rows[j].0@);
                        }
                    }
                    assert(self@ =~= old(self)@.insert(key, val));
                }
            },
            None => {
                self.rows.push((k, v));
                proof {
                    let rows = self.rows@;
                    let n = before.len() as int;
                    let ks = key_seq(rows);
                    assert(ks =~= ks0.push(key));
                    assert(ks.no_duplicates()) by {
                        assert forall|x: int, y: int| 0 <= x < ks.len() && 0 <= y < ks.len() && x != y implies ks[x] != ks[y] by {
                            if x == n {
                                assert(before[y].0@ != key);
                            } else if y == n {
                                assert(before[x].0@ != key);
                            }
                        }
                    }
                    assert forall|q: Seq<char>| #[trigger] self@.dom().contains(q) <==> old(self)@.insert(key, val).dom().contains(q) by {
                        if old(self)@.dom().contains(q) {
                            let j = choose|j: int| 0 <= j < before.len() && before[j].0@ == q;
                            assert(rows[j] == before[j]);
                        }
                        if self@.dom().contains(q) && q != key {
                            let j = choose|j: int| 0 <= j < rows.len() && rows[j].0@ == q;
                            assert(j < n);
                            assert(rows[j] == before[j]);
                        }
                        if q == key {
                            assert(rows[n].0@ == q);
                        }
                    }
                    assert forall|q: Seq<char>| #[trigger] self@.dom().contains(q)
                        implies self@[q] == old(self)@.insert(key, val)[q] by {
                        let j = choose|j: int| 0 <= j < rows.len() && rows[j].0@ == q;
                        self.lemma_entry(j);
                        if q != key {
                            assert(j < n);
                            assert(rows[j] == before[j]);
                            let j2 = choose|j2: int| 0 <= j2 < before.len() && before[j2].0@ == q;
                            assert(ks0[j2] == q && ks0[j] == q);
                        } else {
                            assert(ks[n] == q);
                        }
                    }
                    assert(self@ =~= old(self)@.insert(key, val));
                }
            },
        }
    }

    /// Remove row `i`, and with it its key, handing the row back.
    pub fn remove_at(&mut self, i: usize) -> (r: (String, V))
        requires
            old(self).wf(),
            i < old(self).entries().len(),
        ensures
            r == old(self).entries()[i as int],
            final(self).wf(),
            final(self)@ == old(self)@.remove(old(self).entries()[i as int].0@),
            final(self).entries() == old(self).entries().remove(i as int),
    {
        let ghost before = self.rows@;
        let ghost ks0 = key_seq(before);
        let ghost key = before[i as int].0@;
        proof {
            self.lemma_entry(i as int);
        }
        let gone = self.rows.remove(i);
        proof {
            let rows = self.rows@;
            let ks = key_seq(rows);
            assert(ks =~= ks0.remove(i as int));
            assert(ks.no_duplicates()) by {
                assert forall|x: int, y: int| 0 <= x < ks.len() && 0 <= y < ks.len() && x != y implies ks[x] != ks[y] by {
                    let x0 = if x < i { x } else { x + 1 };
                    let y0 = if y < i { y } else { y + 1 };
                    assert(ks[x] == ks0[x0] && ks[y] == ks0[y0]);
                }
            }
            assert forall|q: Seq<char>| #[trigger] self@.dom().contains(q) <==> old(self)@.remove(key).dom().contains(q) by {
                if self@.dom().contains(q) {
                    let j = choose|j: int| 0 <= j < rows.len() && rows[j].0@ == q;
                    let j0 = if j < i { j } else { j + 1 };
                    assert(rows[j] == before[j0]);
                    assert(ks0[j0] == q && ks0[i as int] == key);
                }
                if old(self)@.remove(key).dom().contains(q) {
                    let j0 = choose|j: int| 0 <= j < before.len() && before[j].0@ == q;
                    assert(j0 != i);
                    let j = if j0 < i { j0 } else { j0 - 1 };
                    assert(rows[j] == before[j0]);
                }
            }
            assert forall|q: Seq<char>| #[trigger] self@.dom().contains(q)
                implies self@[q] == old(self)@.remove(key)[q] by {
                let j = choose|j: int| 0 <= j < rows.len() && rows[j].0@ == q;
                self.lemma_entry(j);
                let j0 = if j < i { j } else { j + 1 };
                assert(rows[j] == before[j0]);
                old(self).lemma_entry(j0);
            }
            assert(self@ =~= old(self)@.remove(key));
        }
        gone
    }

    /// Hand out every row, in order, leaving the table empty.
    pub fn drain_all(&mut self) -> (r: Vec<(String, V)>)
        ensures
            final(self).wf(),
            final(self)@ == Map::<Seq<char>, V::V>::empty(),
            final(self).entries().len() == 0,
            r@ == old(self).entries(),
    {
        let mut v: Vec<(String, V)> = Vec::new();
        std::mem::swap(&mut v, &mut self.rows);
        proof {
            assert(self@ =~= Map::<Seq<char>, V::V>::empty());
        }
        v
    }
}

} // verus!
