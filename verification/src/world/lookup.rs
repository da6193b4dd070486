use vstd::prelude::*;

use crate::world::position::ChunkPosition;

verus! {

/// A finite map from chunk positions to values, kept as a list of entries
/// in which no position occurs twice.
pub struct PositionMap<V> {
    keys: Vec<ChunkPosition>,
    values: Vec<V>,
}

impl<V> View for PositionMap<V> {
    type V = Map<ChunkPosition, V>;

    closed spec fn view(&self) -> Map<ChunkPosition, V> {
        Map::new(
            |p: ChunkPosition| self.keys@.contains(p),
            |p: ChunkPosition| self.values@[self.keys@.index_of(p)],
        )
    }
}

impl<V> PositionMap<V> {
    /// The positions in the order in which the entries are kept.
    pub closed spec fn positions(&self) -> Seq<ChunkPosition> {
        self.keys@
    }

    /// The values in the order in which the entries are kept.
    pub closed spec fn entries(&self) -> Seq<V> {
        self.values@
    }

    /// There is one value for each position and no position occurs twice.
    pub closed spec fn wf(&self) -> bool {
        self.keys@.len() == self.values@.len() && self.keys@.no_duplicates()
    }

    /// How the list of entries and the map relate.
    pub proof fn lemma_entries(&self)
        requires
            self.wf(),
        ensures
            self.positions().len() == self.entries().len(),
            self.positions().no_duplicates(),
            self@.dom().finite(),
            forall|p: ChunkPosition| self@.contains_key(p) <==> self.positions().contains(p),
            forall|i: int|
                0 <= i < self.positions().len() ==> self@.contains_key(
                    #[trigger] self.positions()[i],
                ) && self@[self.positions()[i]] == self.entries()[i],
    {
        assert forall|i: int| 0 <= i < self.keys@.len() implies self@.contains_key(
            #[trigger] self.keys@[i],
        ) && self@[self.keys@[i]] == self.values@[i] by {
            let p = self.keys@[i];
            assert(self.keys@.contains(p));
            let j = self.keys@.index_of(p);
            assert(self.keys@[j] == p);
        }
        assert(self@.dom() =~= self.keys@.to_set());
        vstd::seq_lib::seq_to_set_is_finite(self.keys@);
    }

    pub fn new() -> (r: PositionMap<V>)
        ensures
            r.wf(),
            r@ == Map::<ChunkPosition, V>::empty(),
            r.positions().len() == 0,
    {
        let r = PositionMap { keys: Vec::new(), values: Vec::new() };
        assert(r@ =~= Map::<ChunkPosition, V>::empty());
        r
    }

    /// Number of entries.
    pub fn len(&self) -> (r: usize)
        requires
            self.wf(),
        ensures
            r == self.positions().len(),
            r == self@.dom().len(),
    {
        proof {
            self.lemma_entries();
            assert(self@.dom() =~= self.keys@.to_set());
            self.keys@.unique_seq_to_set();
        }
        self.keys.len()
    }

    /// Where the entry of `p` stands in the list, if there is one.
    pub fn index_of(&self, p: ChunkPosition) -> (r: Option<usize>)
        requires
            self.wf(),
        ensures
            match r {
                Some(i) => i < self.positions().len() && self.positions()[i as int] == p
                    && self@.contains_key(p) && self@[p] == self.entries()[i as int],
                None => !self@.contains_key(p) && !self.positions().contains(p),
            },
    {
        proof {
            self.lemma_entries();
        }
        let mut i: usize = 0;
        while i < self.keys.len()
            invariant
                self.wf(),
                i <= self.keys@.len(),
                forall|k: int| 0 <= k < i ==> self.keys@[k] != p,
            decreases self.keys@.len() - i,
        {
            if self.keys[i] == p {
                proof {
                    self.lemma_entries();
                }
                return Some(i);
            }
            i = i + 1;
        }
        proof {
            self.lemma_entries();
        }
        None
    }

    pub fn contains(&self, p: ChunkPosition) -> (r: bool)
        requires
            self.wf(),
        ensures
            r == self@.contains_key(p),
    {
        self.index_of(p).is_some()
    }

    /// The value at `p`, if there is one.
    pub fn get(&self, p: ChunkPosition) -> (r: Option<&V>)
        requires
            self.wf(),
        ensures
            match r {
                Some(v) => self@.contains_key(p) && *v == self@[p],
                None => !self@.contains_key(p),
            },
    {
        match self.index_of(p) {
            Some(i) => Some(&self.values[i]),
            None => None,
        }
    }

    /// The positions of all entries, in the order in which they are kept.
    pub fn keys(&self) -> (r: Vec<ChunkPosition>)
        requires
            self.wf(),
        ensures
            r@ == self.positions(),
            r@.no_duplicates(),
            forall|p: ChunkPosition| r@.contains(p) <==> self@.contains_key(p),
    {
        proof {
            self.lemma_entries();
        }
        let mut out: Vec<ChunkPosition> = Vec::new();
        let mut i: usize = 0;
        while i < self.keys.len()
            invariant
                i <= self.keys@.len(),
                out@ == self.keys@.take(i as int),
            decreases self.keys@.len() - i,
        {
            out.push(self.keys[i]);
            assert(out@ =~= self.keys@.take(i + 1));
            i = i + 1;
        }
        assert(out@ =~= self.keys@);
        out
    }

    /// Puts `v` at `p` and hands back what was there.
    pub fn insert(&mut self, p: ChunkPosition, v: V) -> (r: Option<V>)
        requires
            old(self).wf(),
        ensures
            final(self).wf(),
            final(self)@ == old(self)@.insert(p, v),
            r == (if old(self)@.contains_key(p) {
                Some(old(self)@[p])
            } else {
                None
            }),
    {
        proof {
            self.lemma_entries();
        }
        match self.index_of(p) {
            Some(i) => {
                self.values.push(v);
                let held: V = self.values.swap_remove(i);
                proof {
                    assert(self.keys@ == old(self).keys@);
                    assert(self.values@ =~= old(self).values@.update(i as int, v));
                    self.lemma_entries();
                    assert(self@ =~= old(self)@.insert(p, v)) by {
                        assert forall|q: ChunkPosition| self@.contains_key(q) implies self@[q]
                            == old(self)@.insert(p, v)[q] by {
                            let j = self.keys@.index_of(q);
                            assert(self.keys@.contains(q));
                            assert(self.keys@[j] == q);
                        }
                    }
                }
                Some(held)
            },
            None => {
                self.keys.push(p);
                self.values.push(v);
                proof {
                    let n = old(self).keys@.len() as int;
                    assert(self.keys@.no_duplicates()) by {
                        assert forall|a: int, b: int|
                            0 <= a < self.keys@.len() && 0 <= b < self.keys@.len()
                                && a != b implies self.keys@[a]
                            != self.keys@[b] by {
                            if a < n && b < n {
                                assert(old(self).keys@[a] != old(self).keys@[b]);
                            } else if a < n {
                                assert(old(self).keys@.contains(old(self).keys@[a]));
                            } else {
                                assert(old(self).keys@.contains(old(self).keys@[b]));
                            }
                        }
                    }
                    self.lemma_entries();
                    assert(self@ =~= old(self)@.insert(p, v)) by {
                        assert forall|q: ChunkPosition| self@.contains_key(q)
                            <==> old(self)@.insert(p, v).contains_key(q) by {
                            if q == p {
                                assert(self.keys@[n] == p);
                            } else if old(self).keys@.contains(q) {
                                let j = old(self).keys@.index_of(q);
                                assert(self.keys@[j] == q);
                            } else if self.keys@.contains(q) {
                                let j = self.keys@.index_of(q);
                                assert(self.keys@[j] == q);
                                assert(j < n);
                                assert(old(self).keys@[j] == q);
                            }
                        }
                        assert forall|q: ChunkPosition| self@.contains_key(q) implies self@[q]
                            == old(self)@.insert(p, v)[q] by {
                            let j = self.keys@.index_of(q);
                            assert(self.keys@.contains(q));
                            assert(self.keys@[j] == q);
                            if q != p {
                                assert(j < n);
                                assert(old(self).keys@[j] == q);
                            } else {
                                assert(self.keys@[n] == p);
                            }
                        }
                    }
                }
                None
            },
        }
    }

    /// Takes the entry of `p` out and hands back its value.
    pub fn remove(&mut self, p: ChunkPosition) -> (r: Option<V>)
        requires
            old(self).wf(),
        ensures
            final(self).wf(),
            final(self)@ == old(self)@.remove(p),
            r == (if old(self)@.contains_key(p) {
                Some(old(self)@[p])
            } else {
                None
            }),
    {
        proof {
            self.lemma_entries();
        }
        match self.index_of(p) {
            Some(i) => {
                self.keys.swap_remove(i);
                let v: V = self.values.swap_remove(i);
                proof {
                    let n = old(self).keys@.len() as int;
                    let ok = old(self).keys@;
                    assert forall|a: int| 0 <= a < self.keys@.len() implies #[trigger] self.keys@[a]
                        == ok[if a == i {
                        n - 1
                    } else {
                        a
                    }] && self.values@[a] == old(self).values@[if a == i {
                        n - 1
                    } else {
                        a
                    }] by {}
                    assert(self.keys@.no_duplicates());
                    self.lemma_entries();
                    assert(self@ =~= old(self)@.remove(p)) by {
                        assert forall|q: ChunkPosition| self@.contains_key(q)
                            <==> old(self)@.remove(p).contains_key(q) by {
                            if self.keys@.contains(q) {
                                let j = self.keys@.index_of(q);
                                assert(self.keys@[j] == q);
                                let jj = if j == i {
                                    n - 1
                                } else {
                                    j
                                };
                                assert(ok[jj] == q);
                                assert(jj != i);
                            }
                            if q != p && ok.contains(q) {
                                let j = ok.index_of(q);
                                assert(ok[j] == q);
                                if j == n - 1 {
                                    assert(self.keys@[i as int] == q);
                                } else {
                                    assert(self.keys@[j] == q);
                                }
                            }
                        }
                        assert forall|q: ChunkPosition| self@.contains_key(q) implies self@[q]
                            == old(self)@.remove(p)[q] by {
                            let j = self.keys@.index_of(q);
                            assert(self.keys@.contains(q));
                            assert(self.keys@[j] == q);
                            let jj = if j == i {
                                n - 1
                            } else {
                                j
                            };
                            assert(ok[jj] == q);
                        }
                    }
                }
                Some(v)
            },
            None => {
                assert(self@ =~= old(self)@.remove(p));
                None
            },
        }
    }
}

/// A finite set of chunk positions, kept as a list without repetition.
pub struct PositionSet {
    items: Vec<ChunkPosition>,
}

impl View for PositionSet {
    type V = Set<ChunkPosition>;

    closed spec fn view(&self) -> Set<ChunkPosition> {
        self.items@.to_set()
    }
}

impl PositionSet {
    /// The positions in the order in which they are kept.
    pub closed spec fn positions(&self) -> Seq<ChunkPosition> {
        self.items@
    }

    /// No position occurs twice.
    pub closed spec fn wf(&self) -> bool {
        self.items@.no_duplicates()
    }

    /// How the list and the set relate.
    pub proof fn lemma_positions(&self)
        requires
            self.wf(),
        ensures
            self.positions().no_duplicates(),
            self@.finite(),
            self@.len() == self.positions().len(),
            forall|p: ChunkPosition| self@.contains(p) <==> self.positions().contains(p),
    {
        vstd::seq_lib::seq_to_set_is_finite(self.items@);
        self.items@.unique_seq_to_set();
    }

    pub fn new() -> (r: PositionSet)
        ensures
            r.wf(),
            r@ == Set::<ChunkPosition>::empty(),
    {
        let r = PositionSet { items: Vec::new() };
        assert(r@ =~= Set::<ChunkPosition>::empty());
        r
    }

    pub fn len(&self) -> (r: usize)
        requires
            self.wf(),
        ensures
            r == self@.len(),
            r == self.positions().len(),
    {
        proof {
            self.lemma_positions();
        }
        self.items.len()
    }

    /// The `i`-th position of the list.
    pub fn at(&self, i: usize) -> (r: ChunkPosition)
        requires
            i < self.positions().len(),
        ensures
            r == self.positions()[i as int],
            self@.contains(r),
    {
        assert(self.items@.contains(self.items@[i as int]));
        self.items[i]
    }

    fn find(&self, p: ChunkPosition) -> (r: Option<usize>)
        ensures
            match r {
                Some(i) => i < self.items@.len() && self.items@[i as int] == p,
                None => !self.items@.contains(p),
            },
    {
        let mut i: usize = 0;
        while i < self.items.len()
            invariant
                i <= self.items@.len(),
                forall|k: int| 0 <= k < i ==> self.items@[k] != p,
            decreases self.items@.len() - i,
        {
            if self.items[i] == p {
                return Some(i);
            }
            i = i + 1;
        }
        None
    }

    pub fn contains(&self, p: ChunkPosition) -> (r: bool)
        ensures
            r == self@.contains(p),
    {
        match self.find(p) {
            Some(i) => {
                assert(self.items@.contains(self.items@[i as int]));
                true
            },
            None => false,
        }
    }

    /// Adds `p` and says whether it was new.
    pub fn insert(&mut self, p: ChunkPosition) -> (r: bool)
        requires
            old(self).wf(),
        ensures
            final(self).wf(),
            final(self)@ == old(self)@.insert(p),
            r == !old(self)@.contains(p),
    {
        if self.contains(p) {
            assert(self@ =~= old(self)@.insert(p));
            false
        } else {
            self.items.push(p);
            proof {
                let n = old(self).items@.len() as int;
                assert forall|a: int, b: int|
                    0 <= a < self.items@.len() && 0 <= b < self.items@.len()
                        && a != b implies self.items@[a]
                    != self.items@[b] by {
                    if a < n && b < n {
                        assert(old(self).items@[a] != old(self).items@[b]);
                    } else if a < n {
                        assert(old(self).items@.contains(old(self).items@[a]));
                    } else {
                        assert(old(self).items@.contains(old(self).items@[b]));
                    }
                }
                assert(self@ =~= old(self)@.insert(p)) by {
                    assert forall|q: ChunkPosition| self@.contains(q) <==> old(self)@.insert(
                        p,
                    ).contains(q) by {
                        if q == p {
                            assert(self.items@[n] == p);
                        } else if old(self).items@.contains(q) {
                            let j = old(self).items@.index_of(q);
                            assert(self.items@[j] == q);
                        } else if self.items@.contains(q) {
                            let j = self.items@.index_of(q);
                            assert(old(self).items@[j] == q);
                        }
                    }
                }
            }
            true
        }
    }

    /// Takes `p` out and says whether it was there.
    pub fn remove(&mut self, p: ChunkPosition) -> (r: bool)
        requires
            old(self).wf(),
        ensures
            final(self).wf(),
            final(self)@ == old(self)@.remove(p),
            r == old(self)@.contains(p),
    {
        match self.find(p) {
            Some(i) => {
                self.items.swap_remove(i);
                proof {
                    let n = old(self).items@.len() as int;
                    let ok = old(self).items@;
                    assert(ok.contains(ok[i as int]));
                    assert forall|a: int| 0
                        <= a < self.items@.len() implies #[trigger] self.items@[a]
                        == ok[if a == i {
                        n - 1
                    } else {
                        a
                    }] by {}
                    assert(self.items@.no_duplicates());
                    assert(self@ =~= old(self)@.remove(p)) by {
                        assert forall|q: ChunkPosition| self@.contains(q) <==> old(self)@.remove(
                            p,
                        ).contains(q) by {
                            if self.items@.contains(q) {
                                let j = self.items@.index_of(q);
                                let jj = if j == i {
                                    n - 1
                                } else {
                                    j
                                };
                                assert(ok[jj] == q);
                            }
                            if q != p && ok.contains(q) {
                                let j = ok.index_of(q);
                                if j == n - 1 {
                                    assert(self.items@[i as int] == q);
                                } else {
                                    assert(self.items@[j] == q);
                                }
                            }
                        }
                    }
                }
                true
            },
            None => {
                assert(self@ =~= old(self)@.remove(p));
                false
            },
        }
    }

    /// The positions of the set, in the order in which they are kept.
    pub fn to_vec(&self) -> (r: Vec<ChunkPosition>)
        requires
            self.wf(),
        ensures
            r@ == self.positions(),
            r@.no_duplicates(),
            forall|p: ChunkPosition| r@.contains(p) <==> self@.contains(p),
    {
        let mut out: Vec<ChunkPosition> = Vec::new();
        let mut i: usize = 0;
        while i < self.items.len()
            invariant
                i <= self.items@.len(),
                out@ == self.items@.take(i as int),
            decreases self.items@.len() - i,
        {
            out.push(self.items[i]);
            assert(out@ =~= self.items@.take(i + 1));
            i = i + 1;
        }
        assert(out@ =~= self.items@);
        out
    }

    /// Empties the set and hands back what it held, without repetition.
    pub fn drain(&mut self) -> (r: Vec<ChunkPosition>)
        requires
            old(self).wf(),
        ensures
            final(self).wf(),
            final(self)@ == Set::<ChunkPosition>::empty(),
            r@ == old(self).positions(),
            r@.no_duplicates(),
            r@.to_set() == old(self)@,
    {
        let mut out: Vec<ChunkPosition> = Vec::new();
        std::mem::swap(&mut self.items, &mut out);
        assert(self@ =~= Set::<ChunkPosition>::empty());
        out
    }
}

} // verus!
