//! A map from `u128` keys kept in two parallel vectors, the keys strictly
//! increasing, so that a walk over it visits the keys in order.

use vstd::prelude::*;

verus! {

/// Keys strictly increasing.
pub open spec fn increasing(ks: Seq<u128>) -> bool {
    forall|a: int, b: int| 0 <= a < b < ks.len() ==> #[trigger] ks[a] < #[trigger] ks[b]
}

/// The map that parallel key and value sequences stand for.
pub open spec fn zip_map<V>(ks: Seq<u128>, vs: Seq<V>) -> Map<u128, V> {
    Map::new(
        |k: u128| ks.contains(k),
        |k: u128| vs[choose|i: int| 0 <= i < ks.len() && ks[i] == k],
    )
}

/// Index of the entry with key `k`, when an increasing key sequence holds it.
pub proof fn lemma_zip_at<V>(ks: Seq<u128>, vs: Seq<V>, i: int)
    requires
        increasing(ks),
        ks.len() == vs.len(),
        0 <= i < ks.len(),
    ensures
        zip_map(ks, vs).dom().contains(ks[i]),
        zip_map(ks, vs)[ks[i]] == vs[i],
{
    let k = ks[i];
    assert(ks.contains(k));
    let j = choose|j: int| 0 <= j < ks.len() && ks[j] == k;
    if j < i {
        assert(ks[j] < ks[i]);
    } else if j > i {
        assert(ks[i] < ks[j]);
    }
}

/// A map with keys in increasing order.
pub struct SortedMap<V> {
    ks: Vec<u128>,
    vs: Vec<V>,
}

impl<V> SortedMap<V> {
    /// The keys, increasing.
    pub closed spec fn keys(&self) -> Seq<u128> {
        self.ks@
    }

    /// The values, in key order.
    pub closed spec fn vals(&self) -> Seq<V> {
        self.vs@
    }

    /// The map.
    pub open spec fn map(&self) -> Map<u128, V> {
        zip_map(self.keys(), self.vals())
    }

    /// Keys increasing, one value per key.
    pub open spec fn wf(&self) -> bool {
        &&& increasing(self.keys())
        &&& self.keys().len() == self.vals().len()
    }

    /// The map holds exactly the listed keys, the `i`-th with the `i`-th value.
    pub proof fn lemma_entries(&self)
        requires
            self.wf(),
        ensures
            forall|k: u128| #[trigger] self.map().dom().contains(k) <==> self.keys().contains(k),
            forall|i: int| 0 <= i < self.keys().len() ==> #[trigger] self.map()[self.keys()[i]] == self.vals()[i],
    {
        assert forall|i: int| 0 <= i < self.keys().len() implies #[trigger] self.map()[self.keys()[i]] == self.vals()[i] by {
            lemma_zip_at(self.keys(), self.vals(), i);
        }
    }

    /// An empty map.
    pub fn new() -> (r: Self)
        ensures
            r.wf(),
            r.keys().len() == 0,
            r.map() == Map::<u128, V>::empty(),
    {
        let r = SortedMap { ks: Vec::new(), vs: Vec::new() };
        proof {
            assert(r.map() =~= Map::<u128, V>::empty());
        }
        r
    }

    /// Number of entries.
    pub fn len(&self) -> (n: usize)
        requires
            self.wf(),
        ensures
            n == self.keys().len(),
            n == self.map().len(),
    {
        proof {
            self.lemma_len();
        }
        self.ks.len()
    }

    /// The map has as many entries as keys are listed.
    pub proof fn lemma_len(&self)
        requires
            self.wf(),
        ensures
            self.map().dom().finite(),
            self.map().len() == self.keys().len(),
    {
        self.lemma_entries();
        assert(self.keys().no_duplicates()) by {
            assert forall|a: int, b: int| 0 <= a < self.keys().len() && 0 <= b < self.keys().len() && a != b
                implies self.keys()[a] != self.keys()[b] by {
                if a < b {
                    assert(self.keys()[a] < self.keys()[b]);
                } else {
                    assert(self.keys()[b] < self.keys()[a]);
                }
            }
        }
        self.keys().unique_seq_to_set();
        assert(self.map().dom() =~= self.keys().to_set());
    }

    /// Key of the `i`-th entry.
    pub fn key_at(&self, i: usize) -> (k: u128)
        requires
            i < self.keys().len(),
        ensures
            k == self.keys()[i as int],
    {
        self.ks[i]
    }

    /// Value of the `i`-th entry.
    pub fn value_at(&self, i: usize) -> (v: &V)
        requires
            self.wf(),
            i < self.keys().len(),
        ensures
            *v == self.vals()[i as int],
    {
        &self.vs[i]
    }

    /// Position of `k`, or where it would go.
    pub fn find(&self, k: u128) -> (r: Result<usize, usize>)
        requires
            self.wf(),
        ensures
            match r {
                Ok(i) => i < self.keys().len() && self.keys()[i as int] == k,
                Err(i) => i <= self.keys().len() && !self.keys().contains(k)
                    && (forall|a: int| 0 <= a < i ==> #[trigger] self.keys()[a] < k)
                    && (forall|a: int| i <= a < self.keys().len() ==> #[trigger] self.keys()[a] > k),
            },
    {
        let mut lo: usize = 0;
        let mut hi: usize = self.ks.len();
        while lo < hi
            invariant
                increasing(self.ks@),
                lo <= hi <= self.ks@.len(),
                forall|a: int| 0 <= a < lo ==> #[trigger] self.ks@[a] < k,
                forall|a: int| hi <= a < self.ks@.len() ==> #[trigger] self.ks@[a] > k,
            decreases hi - lo,
        {
            let mid = lo + (hi - lo) / 2;
            let m = self.ks[mid];
            if m == k {
                return Ok(mid);
            } else if m < k {
                lo = mid + 1;
            } else {
                hi = mid;
            }
        }
        proof {
            if self.ks@.contains(k) {
                let j = choose|j: int| 0 <= j < self.ks@.len() && self.ks@[j] == k;
                if j < lo {
                } else {
                }
            }
        }
        Err(lo)
    }

    /// The value under `k`, if any.
    pub fn get(&self, k: u128) -> (r: Option<&V>)
        requires
            self.wf(),
        ensures
            match r {
                Some(v) => self.map().dom().contains(k) && *v == self.map()[k],
                None => !self.map().dom().contains(k),
            },
    {
        proof {
            self.lemma_entries();
        }
        match self.find(k) {
            Ok(i) => Some(&self.vs[i]),
            Err(_) => None,
        }
    }

    /// Stores `v` under `k`, replacing what was there.
    pub fn insert(&mut self, k: u128, v: V)
        requires
            old(self).wf(),
        ensures
            final(self).wf(),
            final(self).map() == old(self).map().insert(k, v),
    {
        let ghost ks0 = self.ks@;
        let ghost vs0 = self.vs@;
        let ghost m0 = self.map();
        proof {
            self.lemma_entries();
        }
        match self.find(k) {
            Ok(i) => {
                self.vs.set(i, v);
                proof {
                    assert(self.vs@ == vs0.update(i as int, v));
                    self.lemma_entries();
                    assert forall|x: u128| #[trigger] self.map().dom().contains(x) <==> m0.insert(k, v).dom().contains(x) by {}
                    assert forall|x: u128| #[trigger] self.map().dom().contains(x) implies self.map()[x] == m0.insert(k, v)[x] by {
                        let j = choose|j: int| 0 <= j < ks0.len() && ks0[j] == x;
                        assert(self.map()[ks0[j]] == self.vs@[j]);
                        lemma_zip_at(ks0, vs0, j);
                        if j != i {
                            assert(ks0[j] != ks0[i as int]) by {
                                if j < i {
                                    assert(ks0[j] < ks0[i as int]);
                                } else {
                                    assert(ks0[i as int] < ks0[j]);
                                }
                            }
                        }
                    }
                    assert(self.map() =~= m0.insert(k, v));
                }
            },
            Err(i) => {
                self.ks.insert(i, k);
                self.vs.insert(i, v);
                proof {
                    let ks1 = self.ks@;
                    let vs1 = self.vs@;
                    assert(ks1 == ks0.insert(i as int, k));
                    assert(vs1 == vs0.insert(i as int, v));
                    assert forall|a: int, b: int| 0 <= a < b < ks1.len() implies #[trigger] ks1[a] < #[trigger] ks1[b] by {
                        if a < i && b > i {
                            assert(ks1[b] == ks0[b - 1]);
                        } else if a > i {
                            assert(ks1[a] == ks0[a - 1]);
                            assert(ks1[b] == ks0[b - 1]);
                        } else if a == i {
                            assert(ks1[b] == ks0[b - 1]);
                        }
                    }
                    self.lemma_entries();
                    assert forall|x: u128| #[trigger] self.map().dom().contains(x) <==> m0.insert(k, v).dom().contains(x) by {
                        if ks0.contains(x) {
                            let j = choose|j: int| 0 <= j < ks0.len() && ks0[j] == x;
                            if j < i {
                                assert(ks1[j] == x);
                            } else {
                                assert(ks1[j + 1] == x);
                            }
                        }
                        if ks1.contains(x) && x != k {
                            let j = choose|j: int| 0 <= j < ks1.len() && ks1[j] == x;
                            if j < i {
                                assert(ks0[j] == x);
                            } else {
                                assert(ks0[j - 1] == x);
                            }
                        }
                        assert(ks1[i as int] == k);
                    }
                    assert forall|x: u128| #[trigger] self.map().dom().contains(x) implies self.map()[x] == m0.insert(k, v)[x] by {
                        if x == k {
                            assert(self.map()[ks1[i as int]] == vs1[i as int]);
                        } else {
                            let j = choose|j: int| 0 <= j < ks0.len() && ks0[j] == x;
                            lemma_zip_at(ks0, vs0, j);
                            if j < i {
                                assert(self.map()[ks1[j]] == vs1[j]);
                            } else {
                                assert(self.map()[ks1[j + 1]] == vs1[j + 1]);
                            }
                        }
                    }
                    assert(self.map() =~= m0.insert(k, v));
                }
            },
        }
    }

    /// Removes `k`, returning its value.
    pub fn remove(&mut self, k: u128) -> (r: Option<V>)
        requires
            old(self).wf(),
        ensures
            final(self).wf(),
            final(self).map() == old(self).map().remove(k),
            match r {
                Some(v) => old(self).map().dom().contains(k) && v == old(self).map()[k],
                None => !old(self).map().dom().contains(k),
            },
    {
        let ghost ks0 = self.ks@;
        let ghost vs0 = self.vs@;
        let ghost m0 = self.map();
        proof {
            self.lemma_entries();
        }
        match self.find(k) {
            Ok(i) => {
                proof {
                    lemma_zip_at(ks0, vs0, i as int);
                }
                self.ks.remove(i);
                let v = self.vs.remove(i);
                proof {
                    let ks1 = self.ks@;
                    let vs1 = self.vs@;
                    assert(ks1 == ks0.remove(i as int));
                    assert(vs1 == vs0.remove(i as int));
                    assert forall|a: int, b: int| 0 <= a < b < ks1.len() implies #[trigger] ks1[a] < #[trigger] ks1[b] by {
                        if a < i && b >= i {
                            assert(ks1[b] == ks0[b + 1]);
                        } else if a >= i {
                            assert(ks1[a] == ks0[a + 1]);
                            assert(ks1[b] == ks0[b + 1]);
                        }
                    }
                    self.lemma_entries();
                    assert forall|x: u128| #[trigger] self.map().dom().contains(x) <==> m0.remove(k).dom().contains(x) by {
                        if ks0.contains(x) && x != k {
                            let j = choose|j: int| 0 <= j < ks0.len() && ks0[j] == x;
                            if j < i {
                                assert(ks1[j] == x);
                            } else {
                                assert(j != i);
                                assert(ks1[j - 1] == x);
                            }
                        }
                        if ks1.contains(x) {
                            let j = choose|j: int| 0 <= j < ks1.len() && ks1[j] == x;
                            if j < i {
                                assert(ks0[j] == x);
                                assert(ks0[j] < ks0[i as int]);
                            } else {
                                assert(ks0[j + 1] == x);
                                assert(ks0[i as int] < ks0[j + 1]);
                            }
                        }
                    }
                    assert forall|x: u128| #[trigger] self.map().dom().contains(x) implies self.map()[x] == m0.remove(k)[x] by {
                        let j = choose|j: int| 0 <= j < ks1.len() && ks1[j] == x;
                        assert(self.map()[ks1[j]] == vs1[j]);
                        if j < i {
                            lemma_zip_at(ks0, vs0, j);
                        } else {
                            lemma_zip_at(ks0, vs0, j + 1);
                        }
                    }
                    assert(self.map() =~= m0.remove(k));
                }
                Some(v)
            },
            Err(_) => {
                proof {
                    assert(m0.remove(k) =~= m0);
                }
                None
            },
        }
    }
}

} // verus!
