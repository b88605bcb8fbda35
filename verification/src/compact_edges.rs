//! Edges kept compactly: one sorted vector of edge keys (`from`, then `to`)
//! with, for each edge, its weight bits and its properties in the compact
//! encoding of [`crate::compact_storage`].

use vstd::prelude::*;
use crate::compact_storage::{encode_properties, decode_properties, decoded_properties, encoded_as};
use crate::persistent_graph::{edge_key, key_from, key_to, lemma_edge_key, lemma_edge_key_order, make_edge_key};
use crate::properties::Properties;
use crate::sorted_map::SortedMap;

verus! {

/// Edges with their weight bits and encoded properties, by increasing
/// `(from, to)`.
pub struct CompactEdgeStore {
    edges: SortedMap<(u64, Vec<u8>)>,
}

impl CompactEdgeStore {
    /// Each edge with its weight bits and encoded properties.
    pub closed spec fn raw(&self) -> Map<(u64, u64), (u64, Seq<u8>)> {
        Map::new(
            |e: (u64, u64)| self.edges.map().dom().contains(edge_key(e.0, e.1)),
            |e: (u64, u64)| (self.edges.map()[edge_key(e.0, e.1)].0, self.edges.map()[edge_key(e.0, e.1)].1@),
        )
    }

    /// The edges, by increasing `(from, to)`.
    pub closed spec fn edge_list(&self) -> Seq<(u64, u64)> {
        self.edges.keys().map_values(|k: u128| (key_from(k), key_to(k)))
    }

    /// Keys increasing, one entry per key.
    pub closed spec fn wf(&self) -> bool {
        self.edges.wf()
    }

    /// The listed edges are exactly those stored, in increasing order.
    pub proof fn lemma_list(&self)
        requires
            self.wf(),
        ensures
            forall|e: (u64, u64)| #[trigger] self.raw().dom().contains(e) <==> self.edge_list().contains(e),
            forall|a: int, b: int|
                0 <= a < b < self.edge_list().len() ==> #[trigger] self.edge_list()[a].0 < #[trigger] self.edge_list()[b].0
                    || (self.edge_list()[a].0 == self.edge_list()[b].0 && self.edge_list()[a].1 < self.edge_list()[b].1),
    {
        self.edges.lemma_entries();
        let ks = self.edges.keys();
        assert forall|e: (u64, u64)| #[trigger] self.raw().dom().contains(e) <==> self.edge_list().contains(e) by {
            lemma_edge_key(e.0, e.1, 0);
            if self.raw().dom().contains(e) {
                let i = choose|i: int| 0 <= i < ks.len() && ks[i] == edge_key(e.0, e.1);
                assert(self.edge_list()[i] == e);
            }
            if self.edge_list().contains(e) {
                let i = choose|i: int| 0 <= i < self.edge_list().len() && self.edge_list()[i] == e;
                lemma_edge_key(0, 0, ks[i]);
                assert(ks.contains(ks[i]));
            }
        }
        assert forall|a: int, b: int|
            0 <= a < b < self.edge_list().len() implies #[trigger] self.edge_list()[a].0 < #[trigger] self.edge_list()[b].0
                || (self.edge_list()[a].0 == self.edge_list()[b].0 && self.edge_list()[a].1 < self.edge_list()[b].1) by {
            lemma_edge_key(0, 0, ks[a]);
            lemma_edge_key(0, 0, ks[b]);
            assert(ks[a] < ks[b]);
            lemma_edge_key_order(key_from(ks[a]), key_to(ks[a]), key_from(ks[b]), key_to(ks[b]));
        }
    }

    /// An empty store.
    pub fn new() -> (r: Self)
        ensures
            r.wf(),
            r.raw() == Map::<(u64, u64), (u64, Seq<u8>)>::empty(),
            r.edge_list().len() == 0,
    {
        let r = CompactEdgeStore { edges: SortedMap::new() };
        proof {
            assert(r.raw() =~= Map::<(u64, u64), (u64, Seq<u8>)>::empty());
        }
        r
    }

    /// Stores the edge `from -> to` with its weight bits and the encoding
    /// of `properties`, replacing what was stored for it.
    pub fn insert(&mut self, from: u64, to: u64, weight_bits: u64, properties: &Properties)
        requires
            old(self).wf(),
            properties.wf(),
        ensures
            final(self).wf(),
            final(self).raw().dom() == old(self).raw().dom().insert((from, to)),
            forall|e: (u64, u64)| e != (from, to) && old(self).raw().dom().contains(e) ==> #[trigger] final(self).raw()[e] == old(self).raw()[e],
            final(self).raw()[(from, to)].0 == weight_bits,
            encoded_as(properties@, final(self).raw()[(from, to)].1),
    {
        let encoded = encode_properties(properties);
        let ghost enc = encoded@;
        let ghost m0 = self.edges.map();
        let k = make_edge_key(from, to);
        self.edges.insert(k, (weight_bits, encoded));
        proof {
            assert forall|e: (u64, u64)| e != (from, to) implies (edge_key(e.0, e.1) != k) by {
                lemma_edge_key(e.0, e.1, 0);
                lemma_edge_key(from, to, 0);
            }
            assert(self.raw().dom() =~= old(self).raw().dom().insert((from, to)));
        }
    }

    /// Removes the edge `from -> to`, returning its weight bits and decoded
    /// properties.
    pub fn remove(&mut self, from: u64, to: u64) -> (r: Option<(u64, Properties)>)
        requires
            old(self).wf(),
        ensures
            final(self).wf(),
            final(self).raw() == old(self).raw().remove((from, to)),
            match r {
                Some((w, p)) => old(self).raw().dom().contains((from, to)) && w == old(self).raw()[(from, to)].0 && p.wf()
                    && p.map() == decoded_properties(old(self).raw()[(from, to)].1),
                None => !old(self).raw().dom().contains((from, to)),
            },
    {
        let k = make_edge_key(from, to);
        let r = self.edges.remove(k);
        proof {
            assert forall|e: (u64, u64)| e != (from, to) implies (edge_key(e.0, e.1) != k) by {
                lemma_edge_key(e.0, e.1, 0);
                lemma_edge_key(from, to, 0);
            }
            assert(self.raw() =~= old(self).raw().remove((from, to)));
        }
        match r {
            Some((w, bytes)) => Some((w, decode_properties(bytes.as_slice()))),
            None => None,
        }
    }

    /// Weight bits and decoded properties of the edge `from -> to`.
    pub fn get(&self, from: u64, to: u64) -> (r: Option<(u64, Properties)>)
        requires
            self.wf(),
        ensures
            match r {
                Some((w, p)) => self.raw().dom().contains((from, to)) && w == self.raw()[(from, to)].0 && p.wf()
                    && p.map() == decoded_properties(self.raw()[(from, to)].1),
                None => !self.raw().dom().contains((from, to)),
            },
    {
        let k = make_edge_key(from, to);
        match self.edges.get(k) {
            Some(entry) => Some((entry.0, decode_properties(entry.1.as_slice()))),
            None => None,
        }
    }

    /// Whether the edge `from -> to` is stored.
    pub fn contains_key(&self, from: u64, to: u64) -> (r: bool)
        requires
            self.wf(),
        ensures
            r == self.raw().dom().contains((from, to)),
    {
        let k = make_edge_key(from, to);
        self.edges.get(k).is_some()
    }

    /// Number of edges.
    pub fn len(&self) -> (n: usize)
        requires
            self.wf(),
        ensures
            n == self.edge_list().len(),
    {
        self.edges.len()
    }

    /// Whether no edge is stored.
    pub fn is_empty(&self) -> (b: bool)
        requires
            self.wf(),
        ensures
            b == (self.edge_list().len() == 0),
    {
        self.edges.len() == 0
    }

    /// The edges, by increasing `(from, to)`.
    pub fn keys(&self) -> (r: Vec<(u64, u64)>)
        requires
            self.wf(),
        ensures
            r@ == self.edge_list(),
    {
        let n = self.edges.len();
        let mut r: Vec<(u64, u64)> = Vec::new();
        let mut i: usize = 0;
        while i < n
            invariant
                self.wf(),
                n == self.edge_list().len(),
                i <= n,
                r@ == self.edge_list().take(i as int),
            decreases n - i,
        {
            let k = self.edges.key_at(i);
            proof {
                lemma_edge_key(0, 0, k);
            }
            let from = (k / 0x1_0000_0000_0000_0000u128) as u64;
            let to = (k % 0x1_0000_0000_0000_0000u128) as u64;
            r.push((from, to));
            proof {
                assert(r@ =~= self.edge_list().take(i + 1));
            }
            i = i + 1;
        }
        proof {
            assert(self.edge_list().take(n as int) =~= self.edge_list());
        }
        r
    }

    /// Every edge with its weight bits and decoded properties, by
    /// increasing `(from, to)`.
    pub fn iter(&self) -> (r: Vec<((u64, u64), u64, Properties)>)
        requires
            self.wf(),
        ensures
            r@.len() == self.edge_list().len(),
            forall|i: int|
                0 <= i < r@.len() ==> (#[trigger] r@[i]).0 == self.edge_list()[i] && r@[i].1 == self.raw()[self.edge_list()[i]].0
                    && r@[i].2.wf() && r@[i].2.map() == decoded_properties(self.raw()[self.edge_list()[i]].1),
    {
        proof {
            self.edges.lemma_entries();
        }
        let n = self.edges.len();
        let mut r: Vec<((u64, u64), u64, Properties)> = Vec::new();
        let mut i: usize = 0;
        while i < n
            invariant
                self.wf(),
                n == self.edge_list().len(),
                i <= n,
                r@.len() == i,
                forall|k: int| 0 <= k < self.edges.keys().len() ==> #[trigger] self.edges.map()[self.edges.keys()[k]] == self.edges.vals()[k],
                forall|k: u128| #[trigger] self.edges.map().dom().contains(k) <==> self.edges.keys().contains(k),
                forall|j: int|
                    0 <= j < i ==> (#[trigger] r@[j]).0 == self.edge_list()[j] && r@[j].1 == self.raw()[self.edge_list()[j]].0
                        && r@[j].2.wf() && r@[j].2.map() == decoded_properties(self.raw()[self.edge_list()[j]].1),
            decreases n - i,
        {
            let k = self.edges.key_at(i);
            let entry = self.edges.value_at(i);
            proof {
                lemma_edge_key(0, 0, k);
                assert(self.edges.keys().contains(k));
                let e = self.edge_list()[i as int];
                assert(edge_key(e.0, e.1) == k);
            }
            let from = (k / 0x1_0000_0000_0000_0000u128) as u64;
            let to = (k % 0x1_0000_0000_0000_0000u128) as u64;
            let p = decode_properties(entry.1.as_slice());
            r.push(((from, to), entry.0, p));
            i = i + 1;
        }
        r
    }

    /// Removes every edge.
    pub fn clear(&mut self)
        ensures
            final(self).wf(),
            final(self).raw() == Map::<(u64, u64), (u64, Seq<u8>)>::empty(),
            final(self).edge_list().len() == 0,
    {
        self.edges = SortedMap::new();
        proof {
            assert(self.raw() =~= Map::<(u64, u64), (u64, Seq<u8>)>::empty());
        }
    }

    /// A store holding the given edges with their weight bits and
    /// properties; for an edge given twice the last wins.
    pub fn from_hashmap(items: &Vec<((u64, u64), u64, Properties)>) -> (r: Self)
        requires
            forall|i: int| 0 <= i < items@.len() ==> (#[trigger] items@[i]).2.wf(),
        ensures
            r.wf(),
            forall|e: (u64, u64)| #[trigger] r.raw().dom().contains(e) <==> exists|i: int| 0 <= i < items@.len() && items@[i].0 == e,
            forall|i: int| 0 <= i < items@.len() && (forall|j: int| i < j < items@.len() ==> items@[j].0 != items@[i].0)
                ==> r.raw()[(#[trigger] items@[i]).0].0 == items@[i].1 && encoded_as(items@[i].2@, r.raw()[items@[i].0].1),
    {
        let mut store = CompactEdgeStore::new();
        let mut i: usize = 0;
        while i < items.len()
            invariant
                store.wf(),
                i <= items@.len(),
                forall|j: int| 0 <= j < items@.len() ==> (#[trigger] items@[j]).2.wf(),
                forall|e: (u64, u64)| #[trigger] store.raw().dom().contains(e) <==> exists|j: int| 0 <= j < i && items@[j].0 == e,
                forall|a: int| 0 <= a < i && (forall|j: int| a < j < i ==> items@[j].0 != items@[a].0)
                    ==> store.raw()[(#[trigger] items@[a]).0].0 == items@[a].1 && encoded_as(items@[a].2@, store.raw()[items@[a].0].1),
            decreases items@.len() - i,
        {
            let ghost raw0 = store.raw();
            let item = &items[i];
            store.insert(item.0.0, item.0.1, item.1, &item.2);
            proof {
                assert forall|e: (u64, u64)| #[trigger] store.raw().dom().contains(e) <==> exists|j: int| 0 <= j < i + 1 && items@[j].0 == e by {
                    if store.raw().dom().contains(e) && e != items@[i as int].0 {
                        assert(raw0.dom().contains(e));
                    }
                    if e == items@[i as int].0 {
                        assert(items@[i as int].0 == e);
                    } else if exists|j: int| 0 <= j < i + 1 && items@[j].0 == e {
                        let j = choose|j: int| 0 <= j < i + 1 && items@[j].0 == e;
                        assert(j < i);
                        assert(raw0.dom().contains(e));
                    }
                }
                assert forall|a: int| 0 <= a < i + 1 && (forall|j: int| a < j < i + 1 ==> items@[j].0 != items@[a].0)
                    implies store.raw()[(#[trigger] items@[a]).0].0 == items@[a].1 && encoded_as(items@[a].2@, store.raw()[items@[a].0].1) by {
                    if a < i {
                        assert(items@[i as int].0 != items@[a].0);
                        assert(raw0.dom().contains(items@[a].0)) by {
                            assert(items@[a].0 == items@[a].0);
                        }
                    }
                }
            }
            i = i + 1;
        }
        store
    }

    /// Every edge with its weight bits and decoded properties, by
    /// increasing `(from, to)`.
    pub fn to_hashmap(&self) -> (r: Vec<((u64, u64), u64, Properties)>)
        requires
            self.wf(),
        ensures
            r@.len() == self.edge_list().len(),
            forall|i: int|
                0 <= i < r@.len() ==> (#[trigger] r@[i]).0 == self.edge_list()[i] && r@[i].1 == self.raw()[self.edge_list()[i]].0
                    && r@[i].2.wf() && r@[i].2.map() == decoded_properties(self.raw()[self.edge_list()[i]].1),
    {
        self.iter()
    }
}

} // verus!
