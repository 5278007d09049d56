use vstd::prelude::*;
use vstd::slice::slice_to_vec;

use crate::commit::{ids_view, TweetId};

verus! {

/// Read-through cache from a head identifier to the full payload written
/// or fetched under it. Entries are never evicted.
pub struct ContentCache {
    keys: Vec<TweetId>,
    values: Vec<Vec<u8>>,
}

impl View for ContentCache {
    type V = Map<Seq<char>, Seq<u8>>;

    closed spec fn view(&self) -> Map<Seq<char>, Seq<u8>> {
        Map::new(
            |k: Seq<char>| ids_view(self.keys@).contains(k),
            |k: Seq<char>| self.values@[ids_view(self.keys@).index_of(k)]@,
        )
    }
}

impl ContentCache {
    /// One payload per key.
    pub closed spec fn wf(&self) -> bool {
        &&& self.keys@.len() == self.values@.len()
        &&& ids_view(self.keys@).no_duplicates()
    }

    proof fn lemma_finite(&self)
        ensures
            self@.dom().finite(),
    {
        let ks = ids_view(self.keys@);
        assert(self@.dom() =~= ks.to_set());
        vstd::seq_lib::seq_to_set_is_finite(ks);
    }

    proof fn lemma_entry(&self, i: int)
        requires
            self.wf(),
            0 <= i < self.keys@.len(),
        ensures
            self@.contains_key(self.keys@[i]@),
            self@[self.keys@[i]@] == self.values@[i]@,
    {
        let ks = ids_view(self.keys@);
        assert(ks[i] == self.keys@[i]@);
        assert(ks.contains(ks[i]));
        let j = ks.index_of(ks[i]);
        assert(ks[j] == ks[i]);
    }

    /// An empty cache.
    pub fn new() -> (r: ContentCache)
        ensures
            r.wf(),
            r@ == Map::<Seq<char>, Seq<u8>>::empty(),
            r@.dom().finite(),
    {
        let r = ContentCache { keys: Vec::new(), values: Vec::new() };
        assert(r@ =~= Map::<Seq<char>, Seq<u8>>::empty());
        proof {
            r.lemma_finite();
        }
        r
    }

    fn find(&self, id: &TweetId) -> (r: Option<usize>)
        requires
            self.wf(),
        ensures
            match r {
                Some(i) => i < self.keys@.len() && self.keys@[i as int]@ == id@,
                None => !self@.contains_key(id@),
            },
    {
        let mut i: usize = 0;
        while i < self.keys.len()
            invariant
                i <= self.keys@.len(),
                forall|j: int| 0 <= j < i ==> self.keys@[j]@ != id@,
            decreases self.keys@.len() - i,
        {
            if self.keys[i] == *id {
                return Some(i);
            }
            i = i + 1;
        }
        assert(!ids_view(self.keys@).contains(id@));
        None
    }

    /// The payload cached under `id`.
    pub fn get(&self, id: &TweetId) -> (r: Option<Vec<u8>>)
        requires
            self.wf(),
        ensures
            match r {
                Some(v) => self@.contains_key(id@) && v@ == self@[id@],
                None => !self@.contains_key(id@),
            },
    {
        match self.find(id) {
            Some(i) => {
                proof {
                    self.lemma_entry(i as int);
                }
                Some(slice_to_vec(self.values[i].as_slice()))
            },
            None => None,
        }
    }

    /// Caches `content` under `id`, replacing what was there.
    pub fn put(&mut self, id: TweetId, content: Vec<u8>)
        requires
            old(self).wf(),
        ensures
            final(self).wf(),
            final(self)@ == old(self)@.insert(id@, content@),
            final(self)@.dom().finite(),
    {
        let ghost pre = *self;
        match self.find(&id) {
            Some(i) => {
                self.values.set(i, content);
                proof {
                    assert(ids_view(self.keys@) == ids_view(pre.keys@));
                    assert forall|k: Seq<char>| #[trigger] self@.contains_key(k) implies
                        self@[k] == pre@.insert(id@, content@)[k] by {
                        let ks = ids_view(self.keys@);
                        let j = ks.index_of(k);
                        if k != id@ {
                            pre.lemma_entry(j);
                            assert(ks[i as int] == id@);
                        } else {
                            assert(ks[i as int] == id@);
                            assert(ks[j] == id@);
                        }
                    }
                    pre.lemma_entry(i as int);
                    assert(self@.dom() =~= pre@.insert(id@, content@).dom());
                    assert(self@ =~= pre@.insert(id@, content@));
                }
            },
            None => {
                let ghost key = id@;
                self.keys.push(id);
                self.values.push(content);
                proof {
                    let ks = ids_view(self.keys@);
                    assert(ks =~= ids_view(pre.keys@).push(key));
                    assert(ks.no_duplicates()) by {
                        assert forall|a: int, b: int| 0 <= a < ks.len() && 0 <= b < ks.len() && a != b
                            implies ks[a] != ks[b] by {
                            if a < ks.len() - 1 && b < ks.len() - 1 {
                                assert(ids_view(pre.keys@)[a] == ks[a]);
                                assert(ids_view(pre.keys@)[b] == ks[b]);
                            } else if a == ks.len() - 1 {
                                assert(ids_view(pre.keys@)[b] == ks[b]);
                                assert(ids_view(pre.keys@).contains(ks[b]));
                            } else {
                                assert(ids_view(pre.keys@)[a] == ks[a]);
                                assert(ids_view(pre.keys@).contains(ks[a]));
                            }
                        }
                    }
                    assert forall|k: Seq<char>| #[trigger] self@.contains_key(k) implies
                        self@[k] == pre@.insert(key, content@)[k] by {
                        let j = ks.index_of(k);
                        let last = ks.len() - 1;
                        if k != key {
                            assert(j != last);
                            assert(ids_view(pre.keys@)[j] == k);
                            pre.lemma_entry(j);
                        } else {
                            self.lemma_entry(last);
                            assert(ks[last] == key);
                        }
                    }
                    assert forall|k: Seq<char>| #[trigger] pre@.insert(key, content@).contains_key(k)
                        implies self@.contains_key(k) by {
                        if k != key {
                            let j = ids_view(pre.keys@).index_of(k);
                            assert(ks[j] == k);
                        } else {
                            assert(ks[ks.len() - 1] == key);
                        }
                    }
                    assert(self@ =~= pre@.insert(key, content@));
                }
            },
        }
        proof {
            self.lemma_finite();
        }
    }

    /// Drops the payload cached under `id`, if any.
    pub fn remove(&mut self, id: &TweetId)
        requires
            old(self).wf(),
        ensures
            final(self).wf(),
            final(self)@ == old(self)@.remove(id@),
            final(self)@.dom().finite(),
    {
        let ghost pre = *self;
        match self.find(id) {
            Some(i) => {
                self.keys.remove(i);
                self.values.remove(i);
                proof {
                    let ks0 = ids_view(pre.keys@);
                    let ks = ids_view(self.keys@);
                    assert(ks =~= ks0.remove(i as int));
                    assert forall|a: int, b: int| 0 <= a < ks.len() && 0 <= b < ks.len() && a != b
                        implies ks[a] != ks[b] by {
                        let a0 = if a < i { a } else { a + 1 };
                        let b0 = if b < i { b } else { b + 1 };
                        assert(ks[a] == ks0[a0] && ks[b] == ks0[b0]);
                    }
                    assert(ks.no_duplicates());
                    assert forall|k: Seq<char>| #[trigger] self@.contains_key(k) implies
                        pre@.remove(id@).contains_key(k) && self@[k] == pre@.remove(id@)[k] by {
                        let j = ks.index_of(k);
                        let j0 = if j < i { j } else { j + 1 };
                        assert(ks0[j0] == k);
                        assert(ks0[i as int] == id@);
                        assert(k != id@);
                        pre.lemma_entry(j0);
                        self.lemma_entry(j);
                    }
                    assert forall|k: Seq<char>| #[trigger] pre@.remove(id@).contains_key(k)
                        implies self@.contains_key(k) by {
                        let j0 = ks0.index_of(k);
                        assert(ks0[j0] == k);
                        assert(ks0[i as int] == id@);
                        assert(j0 != i);
                        let j = if j0 < i { j0 } else { j0 - 1 };
                        assert(ks[j] == k);
                    }
                    assert(self@ =~= pre@.remove(id@));
                }
            },
            None => {
                assert(self@ =~= pre@.remove(id@));
            },
        }
        proof {
            self.lemma_finite();
        }
    }

    /// Drops every cached payload.
    pub fn clear(&mut self)
        requires
            old(self).wf(),
        ensures
            final(self).wf(),
            final(self)@ == Map::<Seq<char>, Seq<u8>>::empty(),
            final(self)@.dom().finite(),
    {
        self.keys.clear();
        self.values.clear();
        assert(ids_view(self.keys@) =~= Seq::<Seq<char>>::empty());
        assert(self@ =~= Map::<Seq<char>, Seq<u8>>::empty());
        proof {
            self.lemma_finite();
        }
    }

    /// The number of cached payloads.
    pub fn size(&self) -> (r: usize)
        requires
            self.wf(),
        ensures
            r == self@.len(),
    {
        proof {
            let ks = ids_view(self.keys@);
            ks.unique_seq_to_set();
            assert(self@.dom() =~= ks.to_set());
        }
        self.keys.len()
    }
}

} // verus!
