//! The property graph that is saved to disk: vertices and edges with
//! property maps, the edges with a weight; writing it in the graph file
//! format and reading it back.

use vstd::prelude::*;
use crate::{PropertyValue, PropertyValueView};
use crate::properties::{Properties, keys_distinct, as_map};
use crate::compact_storage::{encode_properties, encoded_as, lengths_fit};
use crate::persistence::{be16_at, be64_at, read_u16, read_u64, write_u16, write_u64, write_bytes, DecodeError};
use crate::axol_format::{
    PropMap, read_properties, axol_header, axol_magic, axol_at, vertex_records, edge_records, vertices_from,
    edges_from, insert_vertices, insert_edges, storable, read_edge_record, lemma_vertex_records_push,
    lemma_edge_records_push, lemma_vertices_decode, lemma_edges_decode, lemma_insert_vertices, lemma_insert_edges,
    lemma_header,
};
use crate::sorted_map::{SortedMap, increasing, zip_map, lemma_zip_at};
use crate::wal::ReplayOp;
use crate::index::{
    IndexManager, IndexState, IndexDef, IndexType, added, deleted, changed, indexes_complete, cleared, added_all,
    lemma_added_complete, lemma_deleted_complete, lemma_forgotten_complete, lemma_changed_complete,
    lemma_rebuilt_complete,
};

verus! {

/// 2^64: edge keys put `from` above `to`.
pub open spec fn shift() -> int {
    0x1_0000_0000_0000_0000
}

/// The key an edge `from -> to` is stored under; keys order edges by
/// `from`, then by `to`.
pub open spec fn edge_key(from: u64, to: u64) -> u128 {
    (from * shift() + to) as u128
}

/// Source of the edge stored under `k`.
pub open spec fn key_from(k: u128) -> u64 {
    ((k as int) / shift()) as u64
}

/// Target of the edge stored under `k`.
pub open spec fn key_to(k: u128) -> u64 {
    ((k as int) % shift()) as u64
}

/// Edge keys take `from` and `to` apart again, and every key is one.
pub proof fn lemma_edge_key(from: u64, to: u64, k: u128)
    ensures
        edge_key(from, to) == from * shift() + to,
        key_from(edge_key(from, to)) == from,
        key_to(edge_key(from, to)) == to,
        edge_key(key_from(k), key_to(k)) == k,
{
    assert(from * shift() + to < 0x1_0000_0000_0000_0000_0000_0000_0000_0000) by (nonlinear_arith)
        requires
            from < shift(),
            to < shift(),
            shift() == 0x1_0000_0000_0000_0000,
    ;
    let x = from * shift() + to;
    assert(x / shift() == from && x % shift() == to) by (nonlinear_arith)
        requires
            x == from * shift() + to,
            0 <= to < shift(),
            0 <= from,
            shift() == 0x1_0000_0000_0000_0000,
    ;
    let ki = k as int;
    assert(ki / shift() < shift() && ki == (ki / shift()) * shift() + ki % shift() && 0 <= ki % shift() < shift()) by (nonlinear_arith)
        requires
            0 <= ki < 0x1_0000_0000_0000_0000_0000_0000_0000_0000,
            shift() == 0x1_0000_0000_0000_0000,
    ;
}

/// Edge keys order edges by source, then by target.
pub proof fn lemma_edge_key_order(a: u64, b: u64, c: u64, d: u64)
    ensures
        (edge_key(a, b) < edge_key(c, d)) == (a < c || (a == c && b < d)),
{
    lemma_edge_key(a, b, 0);
    lemma_edge_key(c, d, 0);
    if a < c {
        assert(a * shift() + shift() <= c * shift()) by (nonlinear_arith)
            requires
                a < c,
                shift() > 0,
        ;
    } else if a > c {
        assert(c * shift() + shift() <= a * shift()) by (nonlinear_arith)
            requires
                c < a,
                shift() > 0,
        ;
    }
}

/// The key of `from -> to`.
pub(crate) fn make_edge_key(from: u64, to: u64) -> (k: u128)
    ensures
        k == edge_key(from, to),
{
    proof {
        lemma_edge_key(from, to, 0);
        assert((from as u128) * 0x1_0000_0000_0000_0000u128 <= 0xffff_ffff_ffff_ffff_0000_0000_0000_0000u128) by (nonlinear_arith)
            requires
                from < 0x1_0000_0000_0000_0000u128,
        ;
    }
    (from as u128) * 0x1_0000_0000_0000_0000u128 + (to as u128)
}

/// An edge's weight, kept as the bit pattern of an `f64`, and its
/// properties.
#[derive(Debug)]
pub struct EdgeRecord {
    pub weight_bits: u64,
    pub properties: Properties,
}

/// `vm` with `id` present, added without properties if it was not.
pub open spec fn with_vertex(vm: Map<u64, PropMap>, id: u64) -> Map<u64, PropMap> {
    if vm.dom().contains(id) {
        vm
    } else {
        vm.insert(id, Map::empty())
    }
}

/// A property graph with its file path. Vertices are kept by increasing
/// id and edges by increasing `(from, to)`; at most one edge per pair.
pub struct PersistentGraph {
    vertices: SortedMap<Properties>,
    edges: SortedMap<EdgeRecord>,
    file_path: String,
    index_manager: IndexManager,
}

impl PersistentGraph {
    /// Each vertex id with its property map.
    pub closed spec fn vertex_map(&self) -> Map<u64, PropMap> {
        Map::new(
            |id: u64| self.vertices.map().dom().contains(id as u128),
            |id: u64| self.vertices.map()[id as u128].map(),
        )
    }

    /// Each edge `(from, to)` with its weight bits and property map.
    pub closed spec fn edge_map(&self) -> Map<(u64, u64), (u64, PropMap)> {
        Map::new(
            |e: (u64, u64)| self.edges.map().dom().contains(edge_key(e.0, e.1)),
            |e: (u64, u64)| (self.edges.map()[edge_key(e.0, e.1)].weight_bits, self.edges.map()[edge_key(e.0, e.1)].properties.map()),
        )
    }

    /// The file the graph is saved to.
    pub closed spec fn path(&self) -> Seq<char> {
        self.file_path@
    }

    /// The file the graph is saved to.
    pub fn file_path(&self) -> (r: &String)
        ensures
            r@ == self.path(),
    {
        &self.file_path
    }

    /// The vertex ids, increasing.
    pub closed spec fn vertex_ids(&self) -> Seq<u64> {
        self.vertices.keys().map_values(|k: u128| k as u64)
    }

    /// The edges, by increasing `(from, to)`.
    pub closed spec fn edge_list(&self) -> Seq<(u64, u64)> {
        self.edges.keys().map_values(|k: u128| (key_from(k), key_to(k)))
    }

    /// Sorted storage, ids that fit 64 bits, property maps without
    /// repeated keys, well-formed indexes.
    pub closed spec fn store_wf(&self) -> bool {
        &&& self.vertices.wf()
        &&& self.edges.wf()
        &&& forall|i: int| 0 <= i < self.vertices.keys().len() ==> (#[trigger] self.vertices.keys()[i]) < shift()
        &&& forall|i: int| 0 <= i < self.vertices.vals().len() ==> (#[trigger] self.vertices.vals()[i]).wf()
        &&& forall|i: int| 0 <= i < self.edges.vals().len() ==> (#[trigger] self.edges.vals()[i]).properties.wf()
        &&& self.index_manager.wf()
    }

    /// The stored graph is well formed and every non-unique index lists
    /// each vertex that has its key under its value.
    pub closed spec fn wf(&self) -> bool {
        &&& self.store_wf()
        &&& indexes_complete(self.index_manager.states(), self.vertex_map())
    }

    /// The indexes, in creation order.
    pub closed spec fn indexes(&self) -> Seq<IndexState> {
        self.index_manager.states()
    }

    /// The listed ids are exactly the vertices, increasing; the listed
    /// edges exactly the edges, in key order.
    pub proof fn lemma_views(&self)
        requires
            self.wf(),
        ensures
            forall|id: u64| #[trigger] self.vertex_map().dom().contains(id) <==> self.vertex_ids().contains(id),
            forall|a: int, b: int| 0 <= a < b < self.vertex_ids().len() ==> #[trigger] self.vertex_ids()[a] < #[trigger] self.vertex_ids()[b],
            forall|e: (u64, u64)| #[trigger] self.edge_map().dom().contains(e) <==> self.edge_list().contains(e),
            forall|a: int, b: int| 0 <= a < b < self.edge_list().len() ==> edge_key(#[trigger] self.edge_list()[a].0, self.edge_list()[a].1)
                < edge_key(#[trigger] self.edge_list()[b].0, self.edge_list()[b].1),
    {
        self.vertices.lemma_entries();
        self.edges.lemma_entries();
        let vk = self.vertices.keys();
        let ek = self.edges.keys();
        assert forall|id: u64| #[trigger] self.vertex_map().dom().contains(id) <==> self.vertex_ids().contains(id) by {
            if vk.contains(id as u128) {
                let i = choose|i: int| 0 <= i < vk.len() && vk[i] == id as u128;
                assert(self.vertex_ids()[i] == id);
            }
            if self.vertex_ids().contains(id) {
                let i = choose|i: int| 0 <= i < self.vertex_ids().len() && self.vertex_ids()[i] == id;
                assert(vk[i] < shift());
                assert(vk[i] == id as u128);
            }
        }
        assert forall|a: int, b: int| 0 <= a < b < self.vertex_ids().len() implies #[trigger] self.vertex_ids()[a] < #[trigger] self.vertex_ids()[b] by {
            assert(vk[a] < vk[b]);
            assert(vk[b] < shift());
        }
        assert forall|e: (u64, u64)| #[trigger] self.edge_map().dom().contains(e) <==> self.edge_list().contains(e) by {
            lemma_edge_key(e.0, e.1, 0);
            if ek.contains(edge_key(e.0, e.1)) {
                let i = choose|i: int| 0 <= i < ek.len() && ek[i] == edge_key(e.0, e.1);
                assert(self.edge_list()[i] == e);
            }
            if self.edge_list().contains(e) {
                let i = choose|i: int| 0 <= i < self.edge_list().len() && self.edge_list()[i] == e;
                lemma_edge_key(0, 0, ek[i]);
                assert(ek[i] == edge_key(e.0, e.1));
            }
        }
        assert forall|a: int, b: int| 0 <= a < b < self.edge_list().len() implies edge_key(#[trigger] self.edge_list()[a].0, self.edge_list()[a].1)
            < edge_key(#[trigger] self.edge_list()[b].0, self.edge_list()[b].1) by {
            lemma_edge_key(0, 0, ek[a]);
            lemma_edge_key(0, 0, ek[b]);
            assert(ek[a] < ek[b]);
        }
    }

    /// An empty graph to be saved at `file_path`.
    pub fn new(file_path: String) -> (g: Self)
        ensures
            g.wf(),
            g.vertex_map() == Map::<u64, PropMap>::empty(),
            g.edge_map() == Map::<(u64, u64), (u64, PropMap)>::empty(),
            g.vertex_ids().len() == 0,
            g.edge_list().len() == 0,
            g.path() == file_path@,
            g.indexes() == Seq::<IndexState>::empty(),
    {
        let g = PersistentGraph {
            vertices: SortedMap::new(),
            edges: SortedMap::new(),
            file_path,
            index_manager: IndexManager::new(),
        };
        proof {
            assert(g.vertex_map() =~= Map::<u64, PropMap>::empty());
            assert(g.edge_map() =~= Map::<(u64, u64), (u64, PropMap)>::empty());
        }
        g
    }

    /// Number of vertices.
    pub fn vertex_count(&self) -> (n: usize)
        requires
            self.wf(),
        ensures
            n == self.vertex_ids().len(),
    {
        self.vertices.len()
    }

    /// Number of edges.
    pub fn edge_count(&self) -> (n: usize)
        requires
            self.wf(),
        ensures
            n == self.edge_list().len(),
    {
        self.edges.len()
    }

    /// The properties of vertex `id`, if it exists.
    pub fn get_vertex(&self, id: u64) -> (r: Option<&Properties>)
        requires
            self.wf(),
        ensures
            match r {
                Some(p) => self.vertex_map().dom().contains(id) && p.wf() && p.map() == self.vertex_map()[id],
                None => !self.vertex_map().dom().contains(id),
            },
    {
        proof {
            self.vertices.lemma_entries();
        }
        let r = self.vertices.get(id as u128);
        proof {
            if r.is_some() {
                let i = choose|i: int| 0 <= i < self.vertices.keys().len() && self.vertices.keys()[i] == id as u128;
                assert(self.vertices.vals()[i].wf());
            }
        }
        r
    }

    /// Whether vertex `id` exists.
    pub fn contains_vertex(&self, id: u64) -> (r: bool)
        requires
            self.wf(),
        ensures
            r == self.vertex_map().dom().contains(id),
    {
        self.vertices.get(id as u128).is_some()
    }

    /// The edge `from -> to`, if it exists.
    pub fn get_edge(&self, from: u64, to: u64) -> (r: Option<&EdgeRecord>)
        requires
            self.wf(),
        ensures
            match r {
                Some(e) => self.edge_map().dom().contains((from, to)) && e.properties.wf()
                    && (e.weight_bits, e.properties.map()) == self.edge_map()[(from, to)],
                None => !self.edge_map().dom().contains((from, to)),
            },
    {
        proof {
            self.edges.lemma_entries();
        }
        let k = make_edge_key(from, to);
        let r = self.edges.get(k);
        proof {
            if r.is_some() {
                let i = choose|i: int| 0 <= i < self.edges.keys().len() && self.edges.keys()[i] == k;
                assert(self.edges.vals()[i].properties.wf());
            }
        }
        r
    }

    /// Adds vertex `id` with `properties`, replacing its properties if it
    /// exists, and keeps the indexes up to date: a new vertex is recorded
    /// (see [`added`]); a replaced one moves from its old values to its new
    /// ones (see [`changed`]).
    pub fn add_vertex(&mut self, id: u64, properties: Properties)
        requires
            old(self).wf(),
            properties.wf(),
        ensures
            final(self).wf(),
            final(self).vertex_map() == old(self).vertex_map().insert(id, properties.map()),
            final(self).edge_map() == old(self).edge_map(),
            final(self).edge_list() == old(self).edge_list(),
            final(self).path() == old(self).path(),
            final(self).indexes() == if old(self).vertex_map().dom().contains(id) {
                changed(old(self).indexes(), id, old(self).vertex_map()[id], properties.map())
            } else {
                added(old(self).indexes(), id, properties.map())
            },
    {
        let ghost ss = self.indexes();
        let ghost vm = self.vertex_map();
        let existing = match self.get_vertex(id) {
            Some(p) => Some(p.duplicate()),
            None => None,
        };
        match existing {
            Some(old_props) => {
                self.index_manager.on_vertex_updated(id, &old_props, &properties);
                self.store_vertex(id, properties);
                proof {
                    lemma_changed_complete(ss, vm, id, self.vertex_map()[id]);
                }
            },
            None => {
                self.index_manager.on_vertex_added(id, &properties);
                self.store_vertex(id, properties);
                proof {
                    lemma_added_complete(ss, vm, id, self.vertex_map()[id]);
                }
            },
        }
    }

    /// Stores vertex `id` with `properties`, leaving the indexes as they are.
    fn store_vertex(&mut self, id: u64, properties: Properties)
        requires
            old(self).store_wf(),
            properties.wf(),
        ensures
            final(self).store_wf(),
            final(self).vertex_map() == old(self).vertex_map().insert(id, properties.map()),
            final(self).edge_map() == old(self).edge_map(),
            final(self).edge_list() == old(self).edge_list(),
            final(self).path() == old(self).path(),
            final(self).index_manager == old(self).index_manager,
    {
        let ghost vm0 = self.vertex_map();
        let ghost pm = properties.map();
        let ghost m0 = self.vertices.map();
        proof {
            self.vertices.lemma_entries();
        }
        self.vertices.insert(id as u128, properties);
        proof {
            self.vertices.lemma_entries();
            let m1 = self.vertices.map();
            assert(m1 == m0.insert(id as u128, properties));
            assert forall|i: int| 0 <= i < self.vertices.keys().len() implies (#[trigger] self.vertices.keys()[i]) < shift() && self.vertices.vals()[i].wf() by {
                let k = self.vertices.keys()[i];
                assert(m1.dom().contains(k));
                if k != id as u128 {
                    let j = choose|j: int| 0 <= j < old(self).vertices.keys().len() && old(self).vertices.keys()[j] == k;
                    assert(m1[k] == m0[k]);
                    assert(m0[k] == old(self).vertices.vals()[j]);
                    assert(old(self).vertices.vals()[j].wf());
                }
                assert(self.vertices.vals()[i] == m1[k]);
            }
            assert forall|i: int| 0 <= i < self.vertices.vals().len() implies (#[trigger] self.vertices.vals()[i]).wf() by {
                assert(self.vertices.keys()[i] < shift());
            }
            assert(self.edges == old(self).edges);
            assert(self.vertex_map() =~= vm0.insert(id, pm));
        }
    }

    /// Adds the edge `from -> to` with its weight bits and properties,
    /// replacing an existing edge between the same pair; missing endpoints
    /// are added without properties.
    pub fn add_edge(&mut self, from: u64, to: u64, weight_bits: u64, properties: Properties)
        requires
            old(self).wf(),
            properties.wf(),
        ensures
            final(self).wf(),
            final(self).vertex_map() == with_vertex(with_vertex(old(self).vertex_map(), from), to),
            final(self).edge_map() == old(self).edge_map().insert((from, to), (weight_bits, properties.map())),
            final(self).path() == old(self).path(),
            final(self).indexes() == old(self).indexes(),
    {
        let ghost vm0 = self.vertex_map();
        let ghost ss0 = self.indexes();
        if !self.contains_vertex(from) {
            let p = Properties::new();
            proof {
                assert(p.map() =~= Map::<Seq<char>, PropertyValueView>::empty());
            }
            self.add_vertex(from, p);
            proof {
                assert(added(ss0, from, p.map()) =~= ss0);
            }
        }
        let ghost vm1 = self.vertex_map();
        if !self.contains_vertex(to) {
            let p = Properties::new();
            proof {
                assert(p.map() =~= Map::<Seq<char>, PropertyValueView>::empty());
            }
            self.add_vertex(to, p);
            proof {
                assert(added(ss0, to, p.map()) =~= ss0);
            }
        }
        proof {
            assert(vm1 == with_vertex(vm0, from));
            assert(self.vertex_map() == with_vertex(vm1, to));
        }
        let ghost em0 = self.edge_map();
        let ghost m0 = self.edges.map();
        let ghost ks0 = self.edges.keys();
        let ghost vs0 = self.edges.vals();
        let ghost pm = properties.map();
        let k = make_edge_key(from, to);
        proof {
            self.edges.lemma_entries();
        }
        self.edges.insert(k, EdgeRecord { weight_bits, properties });
        proof {
            self.edges.lemma_entries();
            let m1 = self.edges.map();
            assert forall|i: int| 0 <= i < self.edges.vals().len() implies (#[trigger] self.edges.vals()[i]).properties.wf() by {
                let kk = self.edges.keys()[i];
                assert(m1.dom().contains(kk));
                if kk != k {
                    assert(m0.dom().contains(kk));
                    let j = choose|j: int| 0 <= j < ks0.len() && ks0[j] == kk;
                    lemma_zip_at(ks0, vs0, j);
                    assert(vs0[j].properties.wf());
                }
                assert(self.edges.vals()[i] == m1[kk]);
            }
            assert forall|e: (u64, u64)| #[trigger] self.edge_map().dom().contains(e) <==> em0.insert((from, to), (weight_bits, pm)).dom().contains(e) by {
                lemma_edge_key(e.0, e.1, 0);
                lemma_edge_key(from, to, 0);
            }
            assert(self.edge_map() =~= em0.insert((from, to), (weight_bits, pm)));
        }
    }
}

/// The edges of `em` that neither start nor end at `id`.
pub open spec fn edges_avoiding(em: Map<(u64, u64), (u64, PropMap)>, id: u64) -> Map<(u64, u64), (u64, PropMap)> {
    Map::new(|e: (u64, u64)| em.dom().contains(e) && e.0 != id && e.1 != id, |e: (u64, u64)| em[e])
}

/// Records still in a map all come from a map whose records are well
/// formed.
proof fn lemma_records_wf(e1: SortedMap<EdgeRecord>, ks0: Seq<u128>, vs0: Seq<EdgeRecord>)
    requires
        e1.wf(),
        increasing(ks0),
        ks0.len() == vs0.len(),
        forall|i: int| 0 <= i < vs0.len() ==> (#[trigger] vs0[i]).properties.wf(),
        forall|k: u128| #[trigger] e1.map().dom().contains(k) ==> zip_map(ks0, vs0).dom().contains(k) && e1.map()[k] == zip_map(ks0, vs0)[k],
    ensures
        forall|i: int| 0 <= i < e1.vals().len() ==> (#[trigger] e1.vals()[i]).properties.wf(),
{
    e1.lemma_entries();
    assert forall|i: int| 0 <= i < e1.vals().len() implies (#[trigger] e1.vals()[i]).properties.wf() by {
        let k = e1.keys()[i];
        assert(e1.map().dom().contains(k));
        let j = choose|j: int| 0 <= j < ks0.len() && ks0[j] == k;
        lemma_zip_at(ks0, vs0, j);
    }
}

impl PersistentGraph {
    /// Removes the edge `from -> to`, returning its weight bits and
    /// properties.
    pub fn delete_edge(&mut self, from: u64, to: u64) -> (r: Option<(u64, Properties)>)
        requires
            old(self).wf(),
        ensures
            final(self).wf(),
            final(self).vertex_map() == old(self).vertex_map(),
            final(self).edge_map() == old(self).edge_map().remove((from, to)),
            final(self).path() == old(self).path(),
            match r {
                Some((w, p)) => old(self).edge_map().dom().contains((from, to)) && p.wf()
                    && (w, p.map()) == old(self).edge_map()[(from, to)],
                None => !old(self).edge_map().dom().contains((from, to)),
            },
    {
        let ghost em0 = self.edge_map();
        let ghost ks0 = self.edges.keys();
        let ghost vs0 = self.edges.vals();
        let k = make_edge_key(from, to);
        proof {
            self.edges.lemma_entries();
        }
        let removed = self.edges.remove(k);
        proof {
            lemma_records_wf(self.edges, ks0, vs0);
            assert forall|e: (u64, u64)| #[trigger] self.edge_map().dom().contains(e) <==> em0.remove((from, to)).dom().contains(e) by {
                lemma_edge_key(e.0, e.1, 0);
                lemma_edge_key(from, to, 0);
            }
            assert(self.edge_map() =~= em0.remove((from, to)));
            if removed.is_some() {
                let j = choose|j: int| 0 <= j < ks0.len() && ks0[j] == k;
                lemma_zip_at(ks0, vs0, j);
            }
        }
        match removed {
            Some(rec) => Some((rec.weight_bits, rec.properties)),
            None => None,
        }
    }

    /// Replaces the properties of vertex `id` if it exists, and tells the
    /// indexes (see [`changed`]).
    pub fn update_vertex(&mut self, id: u64, properties: Properties)
        requires
            old(self).wf(),
            properties.wf(),
        ensures
            final(self).wf(),
            final(self).vertex_map() == if old(self).vertex_map().dom().contains(id) {
                old(self).vertex_map().insert(id, properties.map())
            } else {
                old(self).vertex_map()
            },
            final(self).edge_map() == old(self).edge_map(),
            final(self).path() == old(self).path(),
            final(self).indexes() == if old(self).vertex_map().dom().contains(id) {
                changed(old(self).indexes(), id, old(self).vertex_map()[id], properties.map())
            } else {
                old(self).indexes()
            },
    {
        let ghost ss = self.indexes();
        let ghost vm = self.vertex_map();
        let old_props = match self.get_vertex(id) {
            Some(p) => p.duplicate(),
            None => {
                return;
            },
        };
        self.index_manager.on_vertex_updated(id, &old_props, &properties);
        self.store_vertex(id, properties);
        proof {
            lemma_changed_complete(ss, vm, id, self.vertex_map()[id]);
        }
    }

    /// Removes vertex `id` and every edge that starts or ends at it,
    /// returning the vertex's properties if it existed.
    pub fn delete_vertex(&mut self, id: u64) -> (r: Option<Properties>)
        requires
            old(self).wf(),
        ensures
            final(self).wf(),
            final(self).vertex_map() == old(self).vertex_map().remove(id),
            final(self).edge_map() == edges_avoiding(old(self).edge_map(), id),
            final(self).path() == old(self).path(),
            match r {
                Some(p) => old(self).vertex_map().dom().contains(id) && p.wf() && p.map() == old(self).vertex_map()[id],
                None => !old(self).vertex_map().dom().contains(id),
            },
            final(self).indexes() == if old(self).vertex_map().dom().contains(id) {
                deleted(old(self).indexes(), id, old(self).vertex_map()[id])
            } else {
                old(self).indexes()
            },
    {
        let ghost vm0 = self.vertex_map();
        let ghost ss0 = self.indexes();
        let ghost em0 = self.edge_map();
        let ghost vks0 = self.vertices.keys();
        let ghost vvs0 = self.vertices.vals();
        let ghost mv0 = self.vertices.map();
        proof {
            self.vertices.lemma_entries();
        }
        let removed = self.vertices.remove(id as u128);
        proof {
            self.vertices.lemma_entries();
            assert forall|i: int| 0 <= i < self.vertices.keys().len() implies (#[trigger] self.vertices.keys()[i]) < shift() && self.vertices.vals()[i].wf() by {
                let k = self.vertices.keys()[i];
                assert(self.vertices.map().dom().contains(k));
                assert(mv0.dom().contains(k));
                assert(vks0.contains(k));
                let j = choose|j: int| 0 <= j < vks0.len() && vks0[j] == k;
                assert(self.vertices.map()[k] == mv0[k]);
                lemma_zip_at(vks0, vvs0, j);
                assert(vvs0[j].wf());
                assert(vks0[j] < shift());
            }
            assert forall|i: int| 0 <= i < self.vertices.vals().len() implies (#[trigger] self.vertices.vals()[i]).wf() by {
                assert(self.vertices.keys()[i] < shift());
            }
            assert(self.vertex_map() =~= vm0.remove(id));
            if removed.is_some() {
                let j = choose|j: int| 0 <= j < vks0.len() && vks0[j] == id as u128;
                lemma_zip_at(vks0, vvs0, j);
            }
        }
        match &removed {
            Some(p) => {
                self.index_manager.on_vertex_deleted(id, p);
                proof {
                    lemma_deleted_complete(ss0, vm0, id, p.map());
                }
            },
            None => {
                proof {
                    lemma_forgotten_complete(ss0, vm0, id);
                }
            },
        }
        let ghost vsnap = self.vertices;
        let ghost isnap = self.index_manager;
        let ghost psnap = self.file_path@;
        // the keys of the edges at `id`
        let ghost ks0 = self.edges.keys();
        let ghost vs0 = self.edges.vals();
        let ghost m0 = self.edges.map();
        let mut doomed: Vec<u128> = Vec::new();
        let mut i: usize = 0;
        let n = self.edges.len();
        while i < n
            invariant
                self.vertices == vsnap,
                self.index_manager == isnap,
                self.file_path@ == psnap,
                self.edges.wf(),
                self.edges.keys() == ks0,
                n == ks0.len(),
                i <= n,
                forall|k: u128| #[trigger] doomed@.contains(k) <==> exists|j: int| 0 <= j < i && ks0[j] == k && (key_from(k) == id || key_to(k) == id),
            decreases n - i,
        {
            let k = self.edges.key_at(i);
            let from = (k / 0x1_0000_0000_0000_0000u128) as u64;
            let to = (k % 0x1_0000_0000_0000_0000u128) as u64;
            proof {
                lemma_edge_key(0, 0, k);
            }
            let ghost d0 = doomed@;
            if from == id || to == id {
                doomed.push(k);
            }
            proof {
                assert forall|kk: u128| #[trigger] doomed@.contains(kk) <==> exists|j: int| 0 <= j < i + 1 && ks0[j] == kk && (key_from(kk) == id || key_to(kk) == id) by {
                    if doomed@.contains(kk) && !d0.contains(kk) {
                        assert(doomed@.last() == kk) by {
                            let q = choose|q: int| 0 <= q < doomed@.len() && doomed@[q] == kk;
                            if q < d0.len() {
                                assert(d0[q] == kk);
                            }
                        }
                        assert(ks0[i as int] == kk);
                    }
                    if exists|j: int| 0 <= j < i + 1 && ks0[j] == kk && (key_from(kk) == id || key_to(kk) == id) {
                        let j = choose|j: int| 0 <= j < i + 1 && ks0[j] == kk && (key_from(kk) == id || key_to(kk) == id);
                        if j == i {
                            assert(doomed@.last() == kk);
                        } else {
                            assert(d0.contains(kk));
                            let q = choose|q: int| 0 <= q < d0.len() && d0[q] == kk;
                            assert(doomed@[q] == kk);
                        }
                    }
                }
            }
            i = i + 1;
        }
        let mut t: usize = 0;
        while t < doomed.len()
            invariant
                self.vertices == vsnap,
                self.index_manager == isnap,
                self.file_path@ == psnap,
                self.edges.wf(),
                t <= doomed@.len(),
                self.edges.map() == Map::new(|k: u128| m0.dom().contains(k) && !doomed@.take(t as int).contains(k), |k: u128| m0[k]),
            decreases doomed@.len() - t,
        {
            let ghost before = self.edges.map();
            let _ = self.edges.remove(doomed[t]);
            proof {
                let dk = doomed@[t as int];
                let d1 = doomed@.take(t + 1);
                let d0 = doomed@.take(t as int);
                assert(d1 =~= d0.push(dk));
                assert forall|k: u128| #[trigger] d1.contains(k) <==> (d0.contains(k) || k == dk) by {
                    if d1.contains(k) {
                        let q = choose|q: int| 0 <= q < d1.len() && #[trigger] d1[q] == k;
                        if q < t {
                            assert(d0[q] == k);
                        }
                    }
                    if d0.contains(k) {
                        let q = choose|q: int| 0 <= q < d0.len() && #[trigger] d0[q] == k;
                        assert(d1[q] == k);
                    }
                    if k == dk {
                        assert(d1[t as int] == k);
                    }
                }
                assert(self.edges.map() =~= Map::new(|k: u128| m0.dom().contains(k) && !doomed@.take(t + 1).contains(k), |k: u128| m0[k]));
            }
            t = t + 1;
        }
        proof {
            assert(doomed@.take(doomed@.len() as int) =~= doomed@);
            self.edges.lemma_entries();
            lemma_records_wf(self.edges, ks0, vs0);
            assert forall|e: (u64, u64)| #[trigger] self.edge_map().dom().contains(e) <==> edges_avoiding(em0, id).dom().contains(e) by {
                lemma_edge_key(e.0, e.1, 0);
                let k = edge_key(e.0, e.1);
                if doomed@.contains(k) {
                    let j = choose|j: int| 0 <= j < n && ks0[j] == k && (key_from(k) == id || key_to(k) == id);
                }
                if m0.dom().contains(k) && (e.0 == id || e.1 == id) {
                    let j = choose|j: int| 0 <= j < ks0.len() && ks0[j] == k;
                    assert(doomed@.contains(k));
                }
            }
            assert(self.edge_map() =~= edges_avoiding(em0, id));
        }
        removed
    }

    /// Targets of the edges from `vertex_id`, increasing.
    pub fn out_neighbors(&self, vertex_id: u64) -> (r: Vec<u64>)
        requires
            self.wf(),
        ensures
            forall|a: int, b: int| 0 <= a < b < r@.len() ==> #[trigger] r@[a] < #[trigger] r@[b],
            forall|to: u64| #[trigger] r@.contains(to) <==> self.edge_map().dom().contains((vertex_id, to)),
    {
        let ghost ks = self.edges.keys();
        proof {
            self.edges.lemma_entries();
        }
        let mut r: Vec<u64> = Vec::new();
        let mut i: usize = 0;
        let n = self.edges.len();
        while i < n
            invariant
                self.edges.wf(),
                ks == self.edges.keys(),
                n == ks.len(),
                i <= n,
                forall|a: int, b: int| 0 <= a < b < r@.len() ==> #[trigger] r@[a] < #[trigger] r@[b],
                forall|to: u64| #[trigger] r@.contains(to) <==> exists|j: int| 0 <= j < i && ks[j] == edge_key(vertex_id, to),
            decreases n - i,
        {
            let k = self.edges.key_at(i);
            let from = (k / 0x1_0000_0000_0000_0000u128) as u64;
            let to = (k % 0x1_0000_0000_0000_0000u128) as u64;
            proof {
                lemma_edge_key(0, 0, k);
            }
            let ghost r0 = r@;
            if from == vertex_id {
                proof {
                    assert forall|a: int| 0 <= a < r0.len() implies #[trigger] r0[a] < to by {
                        assert(r0.contains(r0[a]));
                        let j = choose|j: int| 0 <= j < i && ks[j] == edge_key(vertex_id, r0[a]);
                        assert(ks[j] < ks[i as int]);
                        lemma_edge_key_order(vertex_id, r0[a], vertex_id, to);
                    }
                }
                r.push(to);
            }
            proof {
                assert forall|x: u64| #[trigger] r@.contains(x) <==> exists|j: int| 0 <= j < i + 1 && ks[j] == edge_key(vertex_id, x) by {
                    lemma_edge_key(vertex_id, x, 0);
                    if r@.contains(x) && !r0.contains(x) {
                        let q = choose|q: int| 0 <= q < r@.len() && r@[q] == x;
                        if q < r0.len() {
                            assert(r0[q] == x);
                        }
                        assert(ks[i as int] == edge_key(vertex_id, x));
                    }
                    if exists|j: int| 0 <= j < i + 1 && ks[j] == edge_key(vertex_id, x) {
                        let j = choose|j: int| 0 <= j < i + 1 && ks[j] == edge_key(vertex_id, x);
                        if j == i {
                            assert(r@.last() == x);
                        } else {
                            assert(r0.contains(x));
                            let q = choose|q: int| 0 <= q < r0.len() && r0[q] == x;
                            assert(r@[q] == x);
                        }
                    }
                }
            }
            i = i + 1;
        }
        r
    }

    /// Sources of the edges into `vertex_id`, increasing.
    pub fn in_neighbors(&self, vertex_id: u64) -> (r: Vec<u64>)
        requires
            self.wf(),
        ensures
            forall|a: int, b: int| 0 <= a < b < r@.len() ==> #[trigger] r@[a] < #[trigger] r@[b],
            forall|from: u64| #[trigger] r@.contains(from) <==> self.edge_map().dom().contains((from, vertex_id)),
    {
        let ghost ks = self.edges.keys();
        proof {
            self.edges.lemma_entries();
        }
        let mut r: Vec<u64> = Vec::new();
        let mut i: usize = 0;
        let n = self.edges.len();
        while i < n
            invariant
                self.edges.wf(),
                ks == self.edges.keys(),
                n == ks.len(),
                i <= n,
                forall|a: int, b: int| 0 <= a < b < r@.len() ==> #[trigger] r@[a] < #[trigger] r@[b],
                forall|from: u64| #[trigger] r@.contains(from) <==> exists|j: int| 0 <= j < i && ks[j] == edge_key(from, vertex_id),
            decreases n - i,
        {
            let k = self.edges.key_at(i);
            let from = (k / 0x1_0000_0000_0000_0000u128) as u64;
            let to = (k % 0x1_0000_0000_0000_0000u128) as u64;
            proof {
                lemma_edge_key(0, 0, k);
            }
            let ghost r0 = r@;
            if to == vertex_id {
                proof {
                    assert forall|a: int| 0 <= a < r0.len() implies #[trigger] r0[a] < from by {
                        assert(r0.contains(r0[a]));
                        let j = choose|j: int| 0 <= j < i && ks[j] == edge_key(r0[a], vertex_id);
                        assert(ks[j] < ks[i as int]);
                        lemma_edge_key_order(r0[a], vertex_id, from, vertex_id);
                    }
                }
                r.push(from);
            }
            proof {
                assert forall|x: u64| #[trigger] r@.contains(x) <==> exists|j: int| 0 <= j < i + 1 && ks[j] == edge_key(x, vertex_id) by {
                    lemma_edge_key(x, vertex_id, 0);
                    if r@.contains(x) && !r0.contains(x) {
                        let q = choose|q: int| 0 <= q < r@.len() && r@[q] == x;
                        if q < r0.len() {
                            assert(r0[q] == x);
                        }
                        assert(ks[i as int] == edge_key(x, vertex_id));
                    }
                    if exists|j: int| 0 <= j < i + 1 && ks[j] == edge_key(x, vertex_id) {
                        let j = choose|j: int| 0 <= j < i + 1 && ks[j] == edge_key(x, vertex_id);
                        if j == i {
                            assert(r@.last() == x);
                        } else {
                            assert(r0.contains(x));
                            let q = choose|q: int| 0 <= q < r0.len() && r0[q] == x;
                            assert(r@[q] == x);
                        }
                    }
                }
            }
            i = i + 1;
        }
        r
    }
}

impl PersistentGraph {
    /// The entry lists of the vertices' property maps, by increasing id.
    pub closed spec fn vertex_props(&self) -> Seq<Seq<(Seq<char>, PropertyValueView)>> {
        self.vertices.vals().map_values(|p: Properties| p@)
    }

    /// The entry lists of the edges' property maps, in edge order.
    pub closed spec fn edge_props(&self) -> Seq<Seq<(Seq<char>, PropertyValueView)>> {
        self.edges.vals().map_values(|r: EdgeRecord| r.properties@)
    }

    /// The edges' weight bits, in edge order.
    pub closed spec fn edge_weights(&self) -> Seq<u64> {
        self.edges.vals().map_values(|r: EdgeRecord| r.weight_bits)
    }

    /// `pe` and `ee` encode the vertices' and the edges' property maps.
    pub open spec fn encodings_ok(&self, pe: Seq<Seq<u8>>, ee: Seq<Seq<u8>>) -> bool {
        &&& pe.len() == self.vertex_props().len()
        &&& ee.len() == self.edge_props().len()
        &&& forall|i: int| 0 <= i < pe.len() ==> encoded_as(self.vertex_props()[i], #[trigger] pe[i])
        &&& forall|i: int| 0 <= i < ee.len() ==> encoded_as(self.edge_props()[i], #[trigger] ee[i])
    }

    /// Whether `b` is a file for this graph: the header, the vertices by
    /// increasing id, then the edges by increasing `(from, to)`, each
    /// property map encoded as [`encode_properties`] does.
    pub open spec fn axol_encoded(&self, b: Seq<u8>) -> bool {
        exists|pe: Seq<Seq<u8>>, ee: Seq<Seq<u8>>| #[trigger] self.encodings_ok(pe, ee)
            && b == axol_header(self.vertex_ids().len() as u64, self.edge_list().len() as u64)
                + vertex_records(self.vertex_ids(), pe) + edge_records(self.edge_list(), self.edge_weights(), ee)
    }

    /// The bytes of the graph's file (see [`PersistentGraph::axol_encoded`]).
    pub fn to_bytes(&self) -> (r: Vec<u8>)
        requires
            self.wf(),
        ensures
            self.axol_encoded(r@),
    {
        let mut buf: Vec<u8> = Vec::new();
        buf.push(65u8);
        buf.push(88u8);
        buf.push(79u8);
        buf.push(76u8);
        write_u16(&mut buf, 1);
        let nv = self.vertices.len();
        let ne = self.edges.len();
        write_u64(&mut buf, nv as u64);
        write_u64(&mut buf, ne as u64);
        let mut z: usize = 0;
        let ghost h0 = buf@;
        while z < 16
            invariant
                z <= 16,
                buf@ == h0 + Seq::new(z as nat, |i: int| 0u8),
            decreases 16 - z,
        {
            buf.push(0u8);
            z = z + 1;
            proof {
                assert(buf@ =~= h0 + Seq::new(z as nat, |i: int| 0u8));
            }
        }
        let ghost head = buf@;
        proof {
            assert(head =~= axol_header(self.vertex_ids().len() as u64, self.edge_list().len() as u64));
        }
        let ghost ids = self.vertex_ids();
        let ghost mut pe: Seq<Seq<u8>> = Seq::empty();
        let mut i: usize = 0;
        while i < nv
            invariant
                self.wf(),
                nv == self.vertices.keys().len(),
                ids == self.vertex_ids(),
                i <= nv,
                pe.len() == i,
                forall|j: int| 0 <= j < i ==> encoded_as(self.vertex_props()[j], #[trigger] pe[j]),
                buf@ == head + vertex_records(ids.take(i as int), pe),
            decreases nv - i,
        {
            let id = self.vertices.key_at(i) as u64;
            let props = self.vertices.value_at(i);
            proof {
                assert(self.vertices.vals()[i as int].wf());
            }
            let enc = encode_properties(props);
            write_u64(&mut buf, id);
            write_bytes(&mut buf, enc.as_slice());
            proof {
                assert(ids[i as int] == id);
                assert(ids.take(i + 1) =~= ids.take(i as int).push(id));
                lemma_vertex_records_push(ids.take(i as int), pe, id, enc@);
                pe = pe.push(enc@);
                assert(buf@ =~= head + vertex_records(ids.take(i + 1), pe));
                assert(self.vertex_props()[i as int] == props@);
            }
            i = i + 1;
        }
        let ghost mid = buf@;
        proof {
            assert(ids.take(nv as int) =~= ids);
        }
        let ghost es = self.edge_list();
        let ghost ws = self.edge_weights();
        let ghost mut ee: Seq<Seq<u8>> = Seq::empty();
        let mut j: usize = 0;
        while j < ne
            invariant
                self.wf(),
                ne == self.edges.keys().len(),
                es == self.edge_list(),
                ws == self.edge_weights(),
                j <= ne,
                ee.len() == j,
                forall|q: int| 0 <= q < j ==> encoded_as(self.edge_props()[q], #[trigger] ee[q]),
                buf@ == mid + edge_records(es.take(j as int), ws.take(j as int), ee),
            decreases ne - j,
        {
            let k = self.edges.key_at(j);
            let from = (k / 0x1_0000_0000_0000_0000u128) as u64;
            let to = (k % 0x1_0000_0000_0000_0000u128) as u64;
            let rec = self.edges.value_at(j);
            proof {
                lemma_edge_key(0, 0, k);
                assert(self.edges.vals()[j as int].properties.wf());
            }
            let enc = encode_properties(&rec.properties);
            write_u64(&mut buf, from);
            write_u64(&mut buf, to);
            write_u64(&mut buf, rec.weight_bits);
            write_bytes(&mut buf, enc.as_slice());
            proof {
                assert(es[j as int] == (from, to));
                assert(ws[j as int] == rec.weight_bits);
                assert(es.take(j + 1) =~= es.take(j as int).push((from, to)));
                assert(ws.take(j + 1) =~= ws.take(j as int).push(rec.weight_bits));
                lemma_edge_records_push(es.take(j as int), ws.take(j as int), ee, (from, to), rec.weight_bits, enc@);
                ee = ee.push(enc@);
                assert(buf@ =~= mid + edge_records(es.take(j + 1), ws.take(j + 1), ee));
                assert(self.edge_props()[j as int] == rec.properties@);
            }
            j = j + 1;
        }
        proof {
            assert(es.take(ne as int) =~= es);
            assert(ws.take(ne as int) =~= ws);
            assert(self.encodings_ok(pe, ee));
            assert(buf@ =~= axol_header(self.vertex_ids().len() as u64, self.edge_list().len() as u64)
                + vertex_records(self.vertex_ids(), pe) + edge_records(self.edge_list(), self.edge_weights(), ee));
        }
        buf
    }
}

impl PersistentGraph {
    /// Stores the edge `from -> to` as it is, endpoints or not.
    pub fn put_edge(&mut self, from: u64, to: u64, weight_bits: u64, properties: Properties)
        requires
            old(self).wf(),
            properties.wf(),
        ensures
            final(self).wf(),
            final(self).vertex_map() == old(self).vertex_map(),
            final(self).edge_map() == old(self).edge_map().insert((from, to), (weight_bits, properties.map())),
            final(self).path() == old(self).path(),
    {
        let ghost em0 = self.edge_map();
        let ghost ks0 = self.edges.keys();
        let ghost vs0 = self.edges.vals();
        let ghost pm = properties.map();
        let k = make_edge_key(from, to);
        proof {
            self.edges.lemma_entries();
        }
        self.edges.insert(k, EdgeRecord { weight_bits, properties });
        proof {
            self.edges.lemma_entries();
            let m1 = self.edges.map();
            assert forall|i: int| 0 <= i < self.edges.vals().len() implies (#[trigger] self.edges.vals()[i]).properties.wf() by {
                let kk = self.edges.keys()[i];
                assert(m1.dom().contains(kk));
                if kk != k {
                    let j = choose|j: int| 0 <= j < ks0.len() && ks0[j] == kk;
                    lemma_zip_at(ks0, vs0, j);
                    assert(vs0[j].properties.wf());
                }
                assert(self.edges.vals()[i] == m1[kk]);
            }
            assert forall|e: (u64, u64)| #[trigger] self.edge_map().dom().contains(e) <==> em0.insert((from, to), (weight_bits, pm)).dom().contains(e) by {
                lemma_edge_key(e.0, e.1, 0);
                lemma_edge_key(from, to, 0);
            }
            assert(self.edge_map() =~= em0.insert((from, to), (weight_bits, pm)));
        }
    }

    /// Reads a graph file (see [`axol_at`]) into a graph saved at
    /// `file_path`; a vertex or edge listed twice keeps its last record.
    pub fn from_bytes(bytes: &[u8], file_path: String) -> (r: Result<PersistentGraph, DecodeError>)
        ensures
            match axol_at(bytes@) {
                Ok((vm, em)) => r matches Ok(g) && g.wf() && g.vertex_map() == vm && g.edge_map() == em && g.path() == file_path@,
                Err(x) => r matches Err(y) && y == x,
            },
    {
        let ghost s = bytes@;
        if bytes.len() < 4 {
            return Err(DecodeError::UnexpectedEof);
        }
        if bytes[0] != 65u8 || bytes[1] != 88u8 || bytes[2] != 79u8 || bytes[3] != 76u8 {
            proof {
                assert(s.subrange(0, 4) != axol_magic()) by {
                    if s.subrange(0, 4) == axol_magic() {
                        assert(s.subrange(0, 4)[0] == s[0]);
                        assert(s.subrange(0, 4)[1] == s[1]);
                        assert(s.subrange(0, 4)[2] == s[2]);
                        assert(s.subrange(0, 4)[3] == s[3]);
                    }
                }
            }
            return Err(DecodeError::InvalidData);
        }
        proof {
            assert(s.subrange(0, 4) =~= axol_magic());
        }
        let mut pos: usize = 4;
        let version = read_u16(bytes, &mut pos)?;
        if version != 1 {
            return Err(DecodeError::InvalidData);
        }
        if bytes.len() < 38 {
            return Err(DecodeError::UnexpectedEof);
        }
        let vc = read_u64(bytes, &mut pos)?;
        let ec = read_u64(bytes, &mut pos)?;
        pos = pos + 16;
        let mut g = PersistentGraph::new(file_path);
        proof {
            assert(g.vertex_map() =~= Map::<u64, PropMap>::empty());
        }
        let mut t: u64 = 0;
        while t < vc
            invariant
                s == bytes@,
                s.len() >= 38,
                s.subrange(0, 4) == axol_magic(),
                be16_at(s, 4) == 1,
                vc == be64_at(s, 6),
                ec == be64_at(s, 14),
                g.wf(),
                g.path() == file_path@,
                g.edge_map() == Map::<(u64, u64), (u64, PropMap)>::empty(),
                t <= vc,
                vertices_from(s, 38, vc as nat, Map::empty()) == vertices_from(s, pos as int, (vc - t) as nat, g.vertex_map()),
            decreases vc - t,
        {
            let ghost p0 = pos as int;
            let id = match read_u64(bytes, &mut pos) {
                Ok(v) => v,
                Err(e) => {
                    proof {
                        assert(vertices_from(s, p0, (vc - t) as nat, g.vertex_map()) == Err::<(Map<u64, PropMap>, int), DecodeError>(e));
                    }
                    return Err(e);
                },
            };
            let props = match read_properties(bytes, &mut pos) {
                Ok(p) => p,
                Err(e) => {
                    proof {
                        assert(vertices_from(s, p0, (vc - t) as nat, g.vertex_map()) == Err::<(Map<u64, PropMap>, int), DecodeError>(e));
                    }
                    return Err(e);
                },
            };
            g.add_vertex(id, props);
            t = t + 1;
        }
        let ghost vm = g.vertex_map();
        let ghost e0 = pos as int;
        proof {
            assert(g.edge_map() =~= Map::<(u64, u64), (u64, PropMap)>::empty());
        }
        let mut u: u64 = 0;
        while u < ec
            invariant
                s == bytes@,
                s.len() >= 38,
                s.subrange(0, 4) == axol_magic(),
                be16_at(s, 4) == 1,
                vc == be64_at(s, 6),
                ec == be64_at(s, 14),
                vertices_from(s, 38, vc as nat, Map::empty()) == Ok::<(Map<u64, PropMap>, int), DecodeError>((vm, e0)),
                g.wf(),
                g.path() == file_path@,
                g.vertex_map() == vm,
                u <= ec,
                edges_from(s, e0, ec as nat, Map::empty()) == edges_from(s, pos as int, (ec - u) as nat, g.edge_map()),
            decreases ec - u,
        {
            let ghost p0 = pos as int;
            let ghost em = g.edge_map();
            let rec = read_edge_record(bytes, &mut pos);
            match rec {
                Ok((from, to, w, props)) => {
                    g.put_edge(from, to, w, props);
                },
                Err(e) => {
                    proof {
                        assert(edges_from(s, p0, (ec - u) as nat, em) == Err::<(Map<(u64, u64), (u64, PropMap)>, int), DecodeError>(e));
                    }
                    return Err(e);
                },
            }
            u = u + 1;
        }
        Ok(g)
    }
}

impl PersistentGraph {
    /// Every property map has fewer than 2^32 entries, every key and string
    /// value fewer than 2^32 UTF-8 bytes, and the counts fit 64 bits.
    pub open spec fn fits_format(&self) -> bool {
        &&& self.vertex_ids().len() <= u64::MAX
        &&& self.edge_list().len() <= u64::MAX
        &&& forall|i: int| 0 <= i < self.vertex_props().len() ==> {
            &&& (#[trigger] self.vertex_props()[i]).len() <= 0xffff_ffff
            &&& lengths_fit(self.vertex_props()[i])
        }
        &&& forall|i: int| 0 <= i < self.edge_props().len() ==> {
            &&& (#[trigger] self.edge_props()[i]).len() <= 0xffff_ffff
            &&& lengths_fit(self.edge_props()[i])
        }
    }

    /// How the listed ids, edges, weights and property lists make up the
    /// two maps.
    pub proof fn lemma_listing(&self)
        requires
            self.wf(),
        ensures
            self.vertex_ids().len() == self.vertex_props().len(),
            self.edge_list().len() == self.edge_props().len(),
            self.edge_weights().len() == self.edge_props().len(),
            self.vertex_ids().no_duplicates(),
            self.edge_list().no_duplicates(),
            forall|i: int| 0 <= i < self.vertex_props().len() ==> keys_distinct(#[trigger] self.vertex_props()[i]),
            forall|i: int| 0 <= i < self.edge_props().len() ==> keys_distinct(#[trigger] self.edge_props()[i]),
            forall|i: int| 0 <= i < self.vertex_ids().len() ==> self.vertex_map()[#[trigger] self.vertex_ids()[i]] == as_map(self.vertex_props()[i]),
            forall|i: int| 0 <= i < self.edge_list().len() ==> self.edge_map()[#[trigger] self.edge_list()[i]]
                == (self.edge_weights()[i], as_map(self.edge_props()[i])),
    {
        self.lemma_views();
        self.vertices.lemma_entries();
        self.edges.lemma_entries();
        let vk = self.vertices.keys();
        let ek = self.edges.keys();
        assert forall|i: int| 0 <= i < self.vertex_props().len() implies keys_distinct(#[trigger] self.vertex_props()[i]) by {
            assert(self.vertices.vals()[i].wf());
        }
        assert forall|i: int| 0 <= i < self.edge_props().len() implies keys_distinct(#[trigger] self.edge_props()[i]) by {
            assert(self.edges.vals()[i].properties.wf());
        }
        assert(self.vertex_ids().no_duplicates()) by {
            assert forall|a: int, b: int| 0 <= a < self.vertex_ids().len() && 0 <= b < self.vertex_ids().len() && a != b
                implies self.vertex_ids()[a] != self.vertex_ids()[b] by {
                if a < b {
                    assert(self.vertex_ids()[a] < self.vertex_ids()[b]);
                } else {
                    assert(self.vertex_ids()[b] < self.vertex_ids()[a]);
                }
            }
        }
        assert(self.edge_list().no_duplicates()) by {
            assert forall|a: int, b: int| 0 <= a < self.edge_list().len() && 0 <= b < self.edge_list().len() && a != b
                implies self.edge_list()[a] != self.edge_list()[b] by {
                let ea = self.edge_list()[a];
                let eb = self.edge_list()[b];
                if a < b {
                    assert(edge_key(ea.0, ea.1) < edge_key(eb.0, eb.1));
                } else {
                    assert(edge_key(eb.0, eb.1) < edge_key(ea.0, ea.1));
                }
            }
        }
        assert forall|i: int| 0 <= i < self.vertex_ids().len() implies self.vertex_map()[#[trigger] self.vertex_ids()[i]] == as_map(self.vertex_props()[i]) by {
            assert(vk[i] < shift());
            assert(self.vertex_ids()[i] as u128 == vk[i]);
            assert(self.vertices.map()[vk[i]] == self.vertices.vals()[i]);
        }
        assert forall|i: int| 0 <= i < self.edge_list().len() implies self.edge_map()[#[trigger] self.edge_list()[i]]
            == (self.edge_weights()[i], as_map(self.edge_props()[i])) by {
            lemma_edge_key(0, 0, ek[i]);
            let e = self.edge_list()[i];
            assert(edge_key(e.0, e.1) == ek[i]);
            assert(self.edges.map()[ek[i]] == self.edges.vals()[i]);
        }
    }
}

proof fn lemma_roundtrip_vertices(g: PersistentGraph, pe: Seq<Seq<u8>>, pre: Seq<u8>, post: Seq<u8>)
    requires
        g.wf(),
        g.fits_format(),
        pe.len() == g.vertex_props().len(),
        forall|i: int| 0 <= i < pe.len() ==> encoded_as(g.vertex_props()[i], #[trigger] pe[i]),
    ensures
        vertices_from(pre + vertex_records(g.vertex_ids(), pe) + post, pre.len() as int, g.vertex_ids().len(), Map::empty())
            == Ok::<(Map<u64, PropMap>, int), DecodeError>((g.vertex_map(), (pre.len() + vertex_records(g.vertex_ids(), pe).len()) as int)),
{
    g.lemma_listing();
    g.lemma_views();
    assert forall|i: int| 0 <= i < g.vertex_props().len() implies storable(#[trigger] g.vertex_props()[i]) && encoded_as(g.vertex_props()[i], pe[i]) by {
        assert(encoded_as(g.vertex_props()[i], pe[i]));
    }
    lemma_vertices_decode(pre, g.vertex_ids(), pe, g.vertex_props(), post, Map::empty());
    lemma_insert_vertices(Map::empty(), g.vertex_ids(), g.vertex_props());
    let vm = insert_vertices(Map::empty(), g.vertex_ids(), g.vertex_props());
    assert forall|k: u64| #[trigger] vm.dom().contains(k) implies vm[k] == g.vertex_map()[k] by {
        let i = choose|i: int| 0 <= i < g.vertex_ids().len() && g.vertex_ids()[i] == k;
        assert(vm[g.vertex_ids()[i]] == as_map(g.vertex_props()[i]));
    }
    assert(vm =~= g.vertex_map());
}

proof fn lemma_roundtrip_edges(g: PersistentGraph, ee: Seq<Seq<u8>>, pre: Seq<u8>, post: Seq<u8>)
    requires
        g.wf(),
        g.fits_format(),
        ee.len() == g.edge_props().len(),
        forall|i: int| 0 <= i < ee.len() ==> encoded_as(g.edge_props()[i], #[trigger] ee[i]),
    ensures
        edges_from(pre + edge_records(g.edge_list(), g.edge_weights(), ee) + post, pre.len() as int, g.edge_list().len(), Map::empty())
            == Ok::<(Map<(u64, u64), (u64, PropMap)>, int), DecodeError>(
            (g.edge_map(), (pre.len() + edge_records(g.edge_list(), g.edge_weights(), ee).len()) as int),
        ),
{
    g.lemma_listing();
    g.lemma_views();
    assert forall|i: int| 0 <= i < g.edge_props().len() implies storable(#[trigger] g.edge_props()[i]) && encoded_as(g.edge_props()[i], ee[i]) by {
        assert(encoded_as(g.edge_props()[i], ee[i]));
    }
    lemma_edges_decode(pre, g.edge_list(), g.edge_weights(), ee, g.edge_props(), post, Map::empty());
    lemma_insert_edges(Map::empty(), g.edge_list(), g.edge_weights(), g.edge_props());
    let em = insert_edges(Map::empty(), g.edge_list(), g.edge_weights(), g.edge_props());
    assert forall|k: (u64, u64)| #[trigger] em.dom().contains(k) implies em[k] == g.edge_map()[k] by {
        let i = choose|i: int| 0 <= i < g.edge_list().len() && g.edge_list()[i] == k;
        assert(em[g.edge_list()[i]] == (g.edge_weights()[i], as_map(g.edge_props()[i])));
    }
    assert(em =~= g.edge_map());
}

/// Reading back a file written for a graph gives the graph back: the same
/// vertices with the same properties, the same edges with the same weights
/// and properties (when every property map fits the format).
pub proof fn lemma_axol_roundtrip(g: PersistentGraph, b: Seq<u8>)
    requires
        g.wf(),
        g.fits_format(),
        g.axol_encoded(b),
    ensures
        axol_at(b) == Ok::<(Map<u64, PropMap>, Map<(u64, u64), (u64, PropMap)>), DecodeError>((g.vertex_map(), g.edge_map())),
{
    g.lemma_listing();
    let (pe, ee) = choose|pe: Seq<Seq<u8>>, ee: Seq<Seq<u8>>| #[trigger] g.encodings_ok(pe, ee)
        && b == axol_header(g.vertex_ids().len() as u64, g.edge_list().len() as u64)
            + vertex_records(g.vertex_ids(), pe) + edge_records(g.edge_list(), g.edge_weights(), ee);
    let nv = g.vertex_ids().len() as u64;
    let ne = g.edge_list().len() as u64;
    let h = axol_header(nv, ne);
    let vr = vertex_records(g.vertex_ids(), pe);
    let er = edge_records(g.edge_list(), g.edge_weights(), ee);
    assert(b =~= h + (vr + er));
    lemma_header(nv, ne, vr + er);
    assert(b =~= h + vr + er);
    lemma_roundtrip_vertices(g, pe, h, er);
    assert(b =~= (h + vr) + er + Seq::<u8>::empty());
    lemma_roundtrip_edges(g, ee, h + vr, Seq::<u8>::empty());
}

impl PersistentGraph {
    /// Removes the vertex entry `id` alone, leaving its edges.
    pub fn remove_vertex_entry(&mut self, id: u64)
        requires
            old(self).wf(),
        ensures
            final(self).wf(),
            final(self).vertex_map() == old(self).vertex_map().remove(id),
            final(self).edge_map() == old(self).edge_map(),
            final(self).path() == old(self).path(),
            final(self).indexes() == old(self).indexes(),
    {
        let ghost vm0 = self.vertex_map();
        let ghost ss0 = self.indexes();
        proof {
            lemma_forgotten_complete(ss0, vm0, id);
        }
        let ghost vks0 = self.vertices.keys();
        let ghost vvs0 = self.vertices.vals();
        let ghost mv0 = self.vertices.map();
        proof {
            self.vertices.lemma_entries();
        }
        let _ = self.vertices.remove(id as u128);
        proof {
            self.vertices.lemma_entries();
            assert forall|i: int| 0 <= i < self.vertices.keys().len() implies (#[trigger] self.vertices.keys()[i]) < shift() && self.vertices.vals()[i].wf() by {
                let k = self.vertices.keys()[i];
                assert(self.vertices.map().dom().contains(k));
                assert(mv0.dom().contains(k));
                assert(vks0.contains(k));
                let j = choose|j: int| 0 <= j < vks0.len() && vks0[j] == k;
                assert(self.vertices.map()[k] == mv0[k]);
                lemma_zip_at(vks0, vvs0, j);
                assert(vvs0[j].wf());
                assert(vks0[j] < shift());
            }
            assert forall|i: int| 0 <= i < self.vertices.vals().len() implies (#[trigger] self.vertices.vals()[i]).wf() by {
                assert(self.vertices.keys()[i] < shift());
            }
            assert(self.vertex_map() =~= vm0.remove(id));
        }
    }

    /// Applies one logged operation: a vertex or edge addition with
    /// `properties` (what its logged JSON held), or a deletion; a vertex
    /// deletion removes the vertex entry alone. Nothing for [`ReplayOp::Skip`].
    pub fn replay(&mut self, op: &ReplayOp, properties: Properties)
        requires
            old(self).wf(),
            properties.wf(),
        ensures
            final(self).wf(),
            final(self).path() == old(self).path(),
            match *op {
                ReplayOp::AddVertex { id, .. } => final(self).vertex_map() == old(self).vertex_map().insert(id, properties.map())
                    && final(self).edge_map() == old(self).edge_map(),
                ReplayOp::AddEdge { from, to, weight_bits, .. } => final(self).vertex_map()
                    == with_vertex(with_vertex(old(self).vertex_map(), from), to)
                    && final(self).edge_map() == old(self).edge_map().insert((from, to), (weight_bits, properties.map())),
                ReplayOp::DeleteVertex { id } => final(self).vertex_map() == old(self).vertex_map().remove(id)
                    && final(self).edge_map() == old(self).edge_map(),
                ReplayOp::DeleteEdge { from, to } => final(self).vertex_map() == old(self).vertex_map()
                    && final(self).edge_map() == old(self).edge_map().remove((from, to)),
                ReplayOp::Skip => final(self).vertex_map() == old(self).vertex_map()
                    && final(self).edge_map() == old(self).edge_map(),
            },
    {
        match op {
            ReplayOp::AddVertex { id, .. } => {
                self.add_vertex(*id, properties);
            },
            ReplayOp::AddEdge { from, to, weight_bits, .. } => {
                self.add_edge(*from, *to, *weight_bits, properties);
            },
            ReplayOp::DeleteVertex { id } => {
                self.remove_vertex_entry(*id);
            },
            ReplayOp::DeleteEdge { from, to } => {
                let _ = self.delete_edge(*from, *to);
            },
            ReplayOp::Skip => {},
        }
    }
}

impl PersistentGraph {
    /// The `i`-th vertex by increasing id, with its properties.
    pub fn vertex_entry(&self, i: usize) -> (r: (u64, &Properties))
        requires
            self.wf(),
            i < self.vertex_ids().len(),
        ensures
            r.0 == self.vertex_ids()[i as int],
            r.1.wf(),
            r.1.map() == self.vertex_map()[r.0],
            r.1@ == self.vertex_props()[i as int],
    {
        proof {
            self.lemma_listing();
            assert(self.vertices.vals()[i as int].wf());
            assert(self.vertices.keys()[i as int] < shift());
        }
        (self.vertices.key_at(i) as u64, self.vertices.value_at(i))
    }

    /// The `i`-th edge by increasing `(from, to)`, with its record.
    pub fn edge_entry(&self, i: usize) -> (r: ((u64, u64), &EdgeRecord))
        requires
            self.wf(),
            i < self.edge_list().len(),
        ensures
            r.0 == self.edge_list()[i as int],
            r.1.properties.wf(),
            (r.1.weight_bits, r.1.properties.map()) == self.edge_map()[r.0],
            r.1.properties@ == self.edge_props()[i as int],
            r.1.weight_bits == self.edge_weights()[i as int],
    {
        proof {
            self.lemma_listing();
            assert(self.edges.vals()[i as int].properties.wf());
        }
        let k = self.edges.key_at(i);
        proof {
            lemma_edge_key(0, 0, k);
        }
        (((k / 0x1_0000_0000_0000_0000u128) as u64, (k % 0x1_0000_0000_0000_0000u128) as u64), self.edges.value_at(i))
    }
}

/// The state of a freshly created, empty index.
pub open spec fn new_index(name: Seq<char>, key: Seq<char>, unique: bool) -> IndexState {
    IndexState { name, key, kind: IndexType::Hash, unique, ids: Map::empty(), vals: Map::empty() }
}

impl PersistentGraph {
    /// Creates a hash index named `name` on `property_key` and fills it (and
    /// any other index on that key) from the current vertices, by
    /// increasing id; refused when an index with that name exists.
    pub fn create_index(&mut self, name: &str, property_key: &str, unique: bool) -> (r: Result<(), String>)
        requires
            old(self).wf(),
        ensures
            final(self).wf(),
            final(self).vertex_map() == old(self).vertex_map(),
            final(self).edge_map() == old(self).edge_map(),
            final(self).path() == old(self).path(),
            match r {
                Ok(()) => {
                    &&& forall|i: int| 0 <= i < old(self).indexes().len() ==> #[trigger] old(self).indexes()[i].name != name@
                    &&& final(self).indexes() == added_all(
                        cleared(old(self).indexes().push(new_index(name@, property_key@, unique)), Some(property_key@)),
                        Some(property_key@),
                        old(self).vertex_ids(),
                        old(self).vertex_map(),
                    )
                },
                Err(msg) => {
                    &&& exists|i: int| 0 <= i < old(self).indexes().len() && #[trigger] old(self).indexes()[i].name == name@
                    &&& msg@ == "index already exists: "@ + name@
                    &&& final(self).indexes() == old(self).indexes()
                },
            },
    {
        let ghost ss = self.indexes();
        let mut m = IndexManager::new();
        std::mem::swap(&mut m, &mut self.index_manager);
        proof {
            assert(self.indexes() =~= Seq::<IndexState>::empty());
            self.lemma_views();
        }
        match m.create_index(name, property_key, IndexType::Hash, unique) {
            Ok(()) => {},
            Err(e) => {
                std::mem::swap(&mut m, &mut self.index_manager);
                return Err(e);
            },
        }
        let ghost ss1 = m.states();
        proof {
            assert(ss1 == ss.push(new_index(name@, property_key@, unique)));
        }
        m.rebuild_property(property_key, self);
        std::mem::swap(&mut m, &mut self.index_manager);
        proof {
            lemma_rebuilt_complete(ss1, property_key@, self.vertex_ids(), self.vertex_map());
        }
        Ok(())
    }

    /// Drops the index named `name`; refused when there is none.
    pub fn drop_index(&mut self, name: &str) -> (r: Result<(), String>)
        requires
            old(self).wf(),
        ensures
            final(self).wf(),
            final(self).vertex_map() == old(self).vertex_map(),
            final(self).edge_map() == old(self).edge_map(),
            final(self).path() == old(self).path(),
            match r {
                Ok(()) => exists|i: int|
                    0 <= i < old(self).indexes().len() && #[trigger] old(self).indexes()[i].name == name@
                        && final(self).indexes() == old(self).indexes().remove(i),
                Err(msg) => {
                    &&& forall|i: int| 0 <= i < old(self).indexes().len() ==> #[trigger] old(self).indexes()[i].name != name@
                    &&& msg@ == "index not found: "@ + name@
                    &&& final(self).indexes() == old(self).indexes()
                },
            },
    {
        let ghost ss = self.indexes();
        let ghost vm = self.vertex_map();
        let r = self.index_manager.drop_index(name);
        proof {
            if r is Ok {
                let i = choose|i: int|
                    0 <= i < ss.len() && #[trigger] ss[i].name == name@ && self.indexes() == ss.remove(i);
                assert forall|j: int| 0 <= j < ss.remove(i).len() implies crate::index::complete_for(
                    #[trigger] ss.remove(i)[j],
                    vm,
                ) by {
                    if j < i {
                        assert(ss.remove(i)[j] == ss[j]);
                    } else {
                        assert(ss.remove(i)[j] == ss[j + 1]);
                    }
                }
            }
        }
        r
    }

    /// The index definitions, in creation order.
    pub fn list_indexes(&self) -> (r: Vec<IndexDef>)
        requires
            self.wf(),
        ensures
            r@.len() == self.indexes().len(),
            forall|i: int|
                0 <= i < r@.len() ==> {
                    &&& (#[trigger] r@[i]).name@ == self.indexes()[i].name
                    &&& r@[i].property_key@ == self.indexes()[i].key
                    &&& r@[i].index_type == self.indexes()[i].kind
                    &&& r@[i].unique == self.indexes()[i].unique
                },
    {
        self.index_manager.list_indexes()
    }

    /// Exact-match lookup through the first index on `property_key`; `None`
    /// when no index covers the key.
    pub fn index_lookup(&self, property_key: &str, value: &PropertyValue) -> (r: Option<Vec<u64>>)
        requires
            self.wf(),
        ensures
            match crate::index::first_on(self.indexes(), property_key@) {
                Some(i) => r is Some && r.unwrap()@ == crate::index::lookup(self.indexes()[i], value@),
                None => r is None,
            },
    {
        self.index_manager.query_exact(property_key, value)
    }
}

impl PersistentGraph {
    /// Each non-unique index lists every vertex that has its key, under
    /// the vertex's value.
    pub proof fn lemma_index_complete(&self, i: int, v: u64)
        requires
            self.wf(),
            0 <= i < self.indexes().len(),
            !self.indexes()[i].unique,
            self.vertex_map().dom().contains(v),
            self.vertex_map()[v].dom().contains(self.indexes()[i].key),
        ensures
            crate::index::lookup(self.indexes()[i], self.vertex_map()[v][self.indexes()[i].key]).contains(v),
    {
        assert(crate::index::complete_for(self.indexes()[i], self.vertex_map()));
    }
}

} // verus!
