//! A small association map from packed chunk keys (`u64`) to values,
//! stored as parallel vectors.
//!
//! The terrain keeps a handful of per-chunk tables (heights, textures,
//! meshes, dirty regions) that are looked up by chunk, mutated by taking an
//! entry out and putting it back, and walked in a stable order when a frame
//! is processed. A vector-backed map gives all three with a plain
//! mathematical view: `Map<u64, V>`.

use vstd::prelude::*;
use vstd::seq_lib::*;

verus! {

pub struct VecMap<V> {
    keys: Vec<u64>,
    vals: Vec<V>,
}

impl<V> VecMap<V> {
    /// Internal consistency: one value per key, no key twice.
    pub closed spec fn wf(self) -> bool {
        &&& self.keys@.len() == self.vals@.len()
        &&& self.keys@.no_duplicates()
    }

    /// The keys in storage order; stable between mutations, so loops can
    /// walk the map by index.
    pub closed spec fn keys_seq(self) -> Seq<u64> {
        self.keys@
    }

    pub proof fn lemma_keys_seq(self)
        requires
            self.wf(),
        ensures
            self.keys_seq().no_duplicates(),
            self.keys_seq().to_set() == self@.dom(),
            forall|i: int|
                0 <= i < self.keys_seq().len() ==> self@.contains_key(#[trigger] self.keys_seq()[i]),
    {
        assert(self.keys_seq().to_set() =~= self@.dom());
    }

    pub proof fn lemma_dom_finite(self)
        requires
            self.wf(),
        ensures
            self@.dom().finite(),
            self@.dom().len() <= self.keys_seq().len(),
    {
        broadcast use vstd::seq_lib::seq_to_set_is_finite;

        self.keys@.unique_seq_to_set();
        assert(self.keys@.to_set() =~= self@.dom());
    }

    pub fn new() -> (m: VecMap<V>)
        ensures
            m.wf(),
            m@ == Map::<u64, V>::empty(),
    {
        let m = VecMap { keys: Vec::new(), vals: Vec::new() };
        proof {
            assert(m@ =~= Map::<u64, V>::empty());
        }
        m
    }

    pub fn len(&self) -> (n: usize)
        requires
            self.wf(),
        ensures
            n == self.keys_seq().len(),
            n == self@.dom().len(),
    {
        proof {
            self.keys@.unique_seq_to_set();
            assert(self.keys@.to_set() =~= self@.dom());
        }
        self.keys.len()
    }

    fn find(&self, k: u64) -> (r: Option<usize>)
        requires
            self.wf(),
        ensures
            match r {
                Some(i) => i < self.keys@.len() && self.keys@[i as int] == k,
                None => !self.keys@.contains(k),
            },
    {
        let mut i: usize = 0;
        while i < self.keys.len()
            invariant
                i <= self.keys@.len(),
                forall|j: int| 0 <= j < i ==> self.keys@[j] != k,
            decreases self.keys@.len() - i,
        {
            if self.keys[i] == k {
                return Some(i);
            }
            i += 1;
        }
        None
    }

    pub fn contains_key(&self, k: u64) -> (r: bool)
        requires
            self.wf(),
        ensures
            r == self@.contains_key(k),
    {
        self.find(k).is_some()
    }

    pub fn get(&self, k: u64) -> (r: Option<&V>)
        requires
            self.wf(),
        ensures
            match r {
                Some(v) => self@.contains_key(k) && *v == self@[k],
                None => !self@.contains_key(k),
            },
    {
        match self.find(k) {
            Some(i) => {
                proof {
                    self.lemma_at(i as int);
                }
                Some(&self.vals[i])
            },
            None => None,
        }
    }

    /// With no duplicate keys, position `i` is exactly where `index_of`
    /// finds its key, so the view maps that key to the value beside it.
    proof fn lemma_at(self, i: int)
        requires
            self.wf(),
            0 <= i < self.keys@.len(),
        ensures
            self@.contains_key(self.keys@[i]),
            self.keys@.index_of(self.keys@[i]) == i,
            self@[self.keys@[i]] == self.vals@[i],
    {
        assert(self.keys@.contains(self.keys@[i]));
        let j = self.keys@.index_of(self.keys@[i]);
        assert(self.keys@[j] == self.keys@[i]);
    }

    /// Key at storage position `i`; lets callers walk the map by index.
    pub fn key_at(&self, i: usize) -> (k: u64)
        requires
            self.wf(),
            i < self.keys_seq().len(),
        ensures
            k == self.keys_seq()[i as int],
            self@.contains_key(k),
    {
        proof {
            self.lemma_at(i as int);
        }
        self.keys[i]
    }

    pub fn insert(&mut self, k: u64, v: V)
        requires
            old(self).wf(),
        ensures
            final(self).wf(),
            final(self)@ == old(self)@.insert(k, v),
    {
        match self.find(k) {
            Some(i) => {
                proof {
                    self.lemma_at(i as int);
                }
                self.vals[i] = v;
                proof {
                    assert forall|q: u64| #[trigger] self.keys@.contains(q) implies self@[q]
                        == old(self)@.insert(k, v)[q] by {
                        let j = self.keys@.index_of(q);
                        assert(self.keys@[j] == q);
                        old(self).lemma_at(j);
                    };
                    assert(self@ =~= old(self)@.insert(k, v));
                }
            },
            None => {
                self.keys.push(k);
                self.vals.push(v);
                proof {
                    assert forall|q: u64| #[trigger] self.keys@.contains(q) implies self@[q]
                        == old(self)@.insert(k, v)[q] by {
                        let j = self.keys@.index_of(q);
                        assert(self.keys@[j] == q);
                        if j < self.keys@.len() - 1 {
                            old(self).lemma_at(j);
                            assert(old(self).keys@.contains(q));
                        }
                    };
                    assert forall|q: u64| old(self)@.insert(k, v).contains_key(q) implies self
                        @.contains_key(q) by {
                        if q != k {
                            let j = old(self).keys@.index_of(q);
                            assert(old(self).keys@[j] == q);
                            assert(self.keys@[j] == q);
                        } else {
                            assert(self.keys@[self.keys@.len() - 1] == k);
                        }
                    };
                    assert(self@ =~= old(self)@.insert(k, v));
                }
            },
        }
    }

    pub fn remove(&mut self, k: u64) -> (r: Option<V>)
        requires
            old(self).wf(),
        ensures
            final(self).wf(),
            final(self)@ == old(self)@.remove(k),
            match r {
                Some(v) => old(self)@.contains_key(k) && v == old(self)@[k],
                None => !old(self)@.contains_key(k),
            },
    {
        match self.find(k) {
            Some(i) => {
                proof {
                    self.lemma_at(i as int);
                }
                let _ = self.keys.swap_remove(i);
                let v = self.vals.swap_remove(i);
                proof {
                    let n = old(self).keys@.len() - 1;
                    assert forall|q: u64| #[trigger] self.keys@.contains(q) implies old(self)
                        @.remove(k).contains_key(q) && self@[q] == old(self)@.remove(k)[q] by {
                        let j = self.keys@.index_of(q);
                        assert(self.keys@[j] == q);
                        if j == i && i < n {
                            old(self).lemma_at(n);
                        } else {
                            old(self).lemma_at(j);
                        }
                    };
                    assert forall|q: u64| old(self)@.remove(k).contains_key(q) implies self
                        @.contains_key(q) by {
                        let j = old(self).keys@.index_of(q);
                        assert(old(self).keys@[j] == q);
                        if j == n && i < n {
                            assert(self.keys@[i as int] == q);
                        } else if j != i {
                            assert(self.keys@[j] == q);
                        }
                    };
                    assert(self@ =~= old(self)@.remove(k));
                }
                Some(v)
            },
            None => {
                proof {
                    assert(self@ =~= old(self)@.remove(k));
                }
                None
            },
        }
    }
}

impl<V> VecMap<V> {
    /// Empties the map and hands back its keys and values as parallel
    /// vectors, for a caller that wants to consume every entry.
    pub fn take_entries(&mut self) -> (r: (Vec<u64>, Vec<V>))
        requires
            old(self).wf(),
        ensures
            final(self).wf(),
            final(self)@ == Map::<u64, V>::empty(),
            r.0@ == old(self).keys_seq(),
            r.0@.no_duplicates(),
            r.1@.len() == r.0@.len(),
            forall|i: int|
                0 <= i < r.0@.len() ==> old(self)@.contains_key(#[trigger] r.0@[i]) && r.1@[i]
                    == old(self)@[r.0@[i]],
            forall|k: u64| old(self)@.contains_key(k) ==> r.0@.contains(k),
    {
        let mut keys: Vec<u64> = Vec::new();
        let mut vals: Vec<V> = Vec::new();
        core::mem::swap(&mut keys, &mut self.keys);
        core::mem::swap(&mut vals, &mut self.vals);
        proof {
            assert(self@ =~= Map::<u64, V>::empty());
            assert forall|i: int| 0 <= i < keys@.len() implies old(self)@.contains_key(
                #[trigger] keys@[i],
            ) && vals@[i] == old(self)@[keys@[i]] by {
                old(self).lemma_at(i);
            };
            assert forall|k: u64| old(self)@.contains_key(k) implies keys@.contains(k) by {};
        }
        (keys, vals)
    }
}

impl<V> View for VecMap<V> {
    type V = Map<u64, V>;

    closed spec fn view(&self) -> Map<u64, V> {
        Map::new(
            |k: u64| self.keys@.contains(k),
            |k: u64| self.vals@[self.keys@.index_of(k)],
        )
    }
}

} // verus!
