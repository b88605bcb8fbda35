//! EdgeBlock graph storage: forward (out-edge) and reverse (in-edge) block
//! stores over dense vertex indices, with the mapping between user ids and
//! indices and the vertex properties.

use vstd::prelude::*;
use std::collections::HashMap;
use crate::Properties;
use crate::edge_store::{store_ok, runs_owned, num_blocks, adjacency, room_to_append, pad, lemma_pad, lemma_adjacency_in_range, read_adjacency, adjacency_len, append_spec, append_to_store, lemma_append, block_len, csr_ok, csr_slice, sources_upto, store_from_csr, reverse_csr, lemma_offsets_monotone};

verus! {

broadcast use vstd::std_specs::hash::group_hash_axioms;

/// EdgeBlock graph. Vertices get dense indices `0..vertex_count` in order of
/// creation; each index has a run of blocks in the forward store (its
/// out-neighbours) and in the reverse store (its in-neighbours). Block
/// contents are vertex indices.
#[derive(Debug, Clone)]
pub struct GPUEdgeBlockGraph {
    /// Forward store: first block of each vertex.
    pub vertices: Vec<u32>,
    /// Forward store: number of blocks read for each vertex.
    pub block_counts: Vec<u32>,
    /// Forward store: flat blocks `[owner, edge_count, slots..]`.
    pub blocks: Vec<u32>,
    /// Reverse store: first block of each vertex.
    pub reverse_vertices: Vec<u32>,
    /// Reverse store: number of blocks read for each vertex.
    pub reverse_block_counts: Vec<u32>,
    /// Reverse store: flat blocks.
    pub reverse_blocks: Vec<u32>,
    /// Number of vertices.
    pub vertex_count: u32,
    /// Slots per block.
    pub block_capacity: usize,
    /// Index to user id.
    pub idx_to_id: Vec<u64>,
    /// User id to index.
    pub id_to_idx: HashMap<u64, usize>,
    /// Properties of each vertex, by index.
    pub vertex_props: Vec<Properties>,
    /// Number of `add_edge` calls (edges stored in the forward store).
    pub total_edges: u64,
    /// The forward blocks changed since the flag was cleared.
    pub blocks_dirty: bool,
    /// The reverse blocks changed since the flag was cleared.
    pub reverse_blocks_dirty: bool,
    /// Per-vertex arrays changed since the flag was cleared.
    pub structure_dirty: bool,
}

/// `ids` with `id` appended unless already present.
pub open spec fn with_id(ids: Seq<u64>, id: u64) -> Seq<u64> {
    if ids.contains(id) {
        ids
    } else {
        ids.push(id)
    }
}

impl GPUEdgeBlockGraph {
    /// Slots per block.
    pub const BLOCK_CAPACITY: usize = 32;

    /// Words per block: owner, edge count and the slots.
    pub const BLOCK_SIZE_U32: usize = 34;

    /// Layout invariant: per-vertex arrays of length `vertex_count`, both
    /// stores well formed, ids distinct and `id_to_idx` the inverse of
    /// `idx_to_id`.
    pub open spec fn wf(&self) -> bool {
        let n = self.idx_to_id@.len() as int;
        &&& self.vertex_count as int == n
        &&& self.vertex_props@.len() == n
        &&& self.block_capacity == 32
        &&& store_ok(self.vertices@, self.block_counts@, self.blocks@, n)
        &&& store_ok(self.reverse_vertices@, self.reverse_block_counts@, self.reverse_blocks@, n)
        &&& forall|i: int, j: int| 0 <= i < j < n ==> #[trigger] self.idx_to_id@[i] != #[trigger] self.idx_to_id@[j]
        &&& forall|id: u64| #[trigger] self.id_to_idx@.contains_key(id) ==> (self.id_to_idx@[id] as int) < n
            && self.idx_to_id@[self.id_to_idx@[id] as int] == id
        &&& forall|i: int| 0 <= i < n ==> self.id_to_idx@.contains_key(#[trigger] self.idx_to_id@[i])
    }

    /// Every block read for a vertex, in either store, is owned by it.
    pub open spec fn runs_ok(&self) -> bool {
        let n = self.idx_to_id@.len() as int;
        &&& runs_owned(self.vertices@, self.block_counts@, self.blocks@, n)
        &&& runs_owned(self.reverse_vertices@, self.reverse_block_counts@, self.reverse_blocks@, n)
    }

    /// Room for two more vertices, one more edge, and in each store one
    /// more block after a copy of any vertex's blocks.
    pub open spec fn has_room(&self) -> bool {
        &&& self.idx_to_id@.len() + 2 <= 0xffff_ffff
        &&& 2 * num_blocks(self.blocks@) + 1 < 0xffff_ffff
        &&& 2 * num_blocks(self.reverse_blocks@) + 1 < 0xffff_ffff
        &&& self.total_edges < 0xffff_ffff_ffff_ffff
    }

    /// Whether `id` is a vertex.
    pub open spec fn has(&self, id: u64) -> bool {
        self.id_to_idx@.contains_key(id)
    }

    /// Index of vertex `id`.
    pub open spec fn index_of(&self, id: u64) -> int {
        self.id_to_idx@[id] as int
    }

    /// Out-neighbour indices read for index `v`.
    pub open spec fn out_adj(&self, v: int) -> Seq<u32> {
        adjacency(self.vertices@, self.block_counts@, self.blocks@, v)
    }

    /// In-neighbour indices read for index `v`.
    pub open spec fn in_adj(&self, v: int) -> Seq<u32> {
        adjacency(self.reverse_vertices@, self.reverse_block_counts@, self.reverse_blocks@, v)
    }

    /// Out-neighbour ids of index `v`.
    pub open spec fn out_ids(&self, v: int) -> Seq<u64> {
        self.out_adj(v).map_values(|t: u32| self.idx_to_id@[t as int])
    }

    /// In-neighbour ids of index `v`.
    pub open spec fn in_ids(&self, v: int) -> Seq<u64> {
        self.in_adj(v).map_values(|t: u32| self.idx_to_id@[t as int])
    }

    /// Out-neighbour ids of vertex `id` (none for an unknown id).
    pub open spec fn out_list(&self, id: u64) -> Seq<u64> {
        if self.has(id) {
            self.out_ids(self.index_of(id))
        } else {
            Seq::empty()
        }
    }

    /// In-neighbour ids of vertex `id` (none for an unknown id).
    pub open spec fn in_list(&self, id: u64) -> Seq<u64> {
        if self.has(id) {
            self.in_ids(self.index_of(id))
        } else {
            Seq::empty()
        }
    }

    /// Whether [`GPUEdgeBlockGraph::has_room`] holds: whether an edge can be
    /// added.
    pub fn check_room(&self) -> (r: bool)
        requires
            self.wf(),
        ensures
            r == self.has_room(),
    {
        let nb = self.blocks.len() / 34;
        let rb = self.reverse_blocks.len() / 34;
        self.idx_to_id.len() <= 0xffff_fffd && nb < 0x7fff_ffff && rb < 0x7fff_ffff && self.total_edges < 0xffff_ffff_ffff_ffff
    }

    /// An empty graph.
    pub fn new() -> (g: Self)
        ensures
            g.wf(),
            g.runs_ok(),
            g.idx_to_id@.len() == 0,
            g.blocks@.len() == 0,
            g.reverse_blocks@.len() == 0,
            g.total_edges == 0,
            g.blocks_dirty && g.reverse_blocks_dirty && g.structure_dirty,
    {
        let g = GPUEdgeBlockGraph {
            vertices: Vec::new(),
            block_counts: Vec::new(),
            blocks: Vec::new(),
            reverse_vertices: Vec::new(),
            reverse_block_counts: Vec::new(),
            reverse_blocks: Vec::new(),
            vertex_count: 0,
            block_capacity: 32,
            idx_to_id: Vec::new(),
            id_to_idx: HashMap::new(),
            vertex_props: Vec::new(),
            total_edges: 0,
            blocks_dirty: true,
            reverse_blocks_dirty: true,
            structure_dirty: true,
        };
        g
    }

    /// Index of `id`, creating a vertex without properties and blocks when
    /// it is unknown.
    fn get_or_create_idx(&mut self, id: u64) -> (idx: usize)
        requires
            old(self).wf(),
            old(self).idx_to_id@.len() + 1 <= 0xffff_ffff,
        ensures
            final(self).wf(),
            final(self).idx_to_id@ == with_id(old(self).idx_to_id@, id),
            idx as int == final(self).index_of(id),
            final(self).has(id),
            old(self).has(id) ==> *final(self) == *old(self),
            !old(self).has(id) ==> final(self).structure_dirty,
            !old(self).has(id) ==> final(self).blocks_dirty == old(self).blocks_dirty
                && final(self).reverse_blocks_dirty == old(self).reverse_blocks_dirty,
            final(self).blocks@ == old(self).blocks@,
            final(self).reverse_blocks@ == old(self).reverse_blocks@,
            final(self).vertices@ == pad(old(self).vertices@, final(self).idx_to_id@.len() as int),
            final(self).block_counts@ == pad(old(self).block_counts@, final(self).idx_to_id@.len() as int),
            final(self).reverse_vertices@ == pad(old(self).reverse_vertices@, final(self).idx_to_id@.len() as int),
            final(self).reverse_block_counts@ == pad(old(self).reverse_block_counts@, final(self).idx_to_id@.len() as int),
            final(self).vertex_props@.len() == final(self).idx_to_id@.len(),
            forall|i: int| 0 <= i < old(self).vertex_props@.len() ==> #[trigger] final(self).vertex_props@[i] == old(self).vertex_props@[i],
            forall|i: int| old(self).vertex_props@.len() <= i < final(self).vertex_props@.len() ==> #[trigger] final(self).vertex_props@[i]@.len() == 0,
            final(self).total_edges == old(self).total_edges,
    {
        match self.id_to_idx.get(&id) {
            Some(idx) => {
                let idx = *idx;
                proof {
                    assert(self.idx_to_id@.contains(id)) by {
                        assert(self.idx_to_id@[idx as int] == id);
                    }
                    let n = self.idx_to_id@.len() as int;
                    assert(pad(self.vertices@, n) =~= self.vertices@);
                    assert(pad(self.block_counts@, n) =~= self.block_counts@);
                    assert(pad(self.reverse_vertices@, n) =~= self.reverse_vertices@);
                    assert(pad(self.reverse_block_counts@, n) =~= self.reverse_block_counts@);
                }
                return idx;
            },
            None => {},
        }
        let ghost old_self = *self;
        let idx = self.idx_to_id.len();
        let empty = Properties::new();
        self.push_vertex(id, empty);
        proof {
            assert(!old_self.idx_to_id@.contains(id)) by {
                if old_self.idx_to_id@.contains(id) {
                    let i = choose|i: int| 0 <= i < old_self.idx_to_id@.len() && old_self.idx_to_id@[i] == id;
                    assert(old_self.id_to_idx@.contains_key(old_self.idx_to_id@[i]));
                }
            }
        }
        idx
    }

    /// Appends a new vertex `id` (known to be absent) with `properties`.
    fn push_vertex(&mut self, id: u64, properties: Properties)
        requires
            old(self).wf(),
            !old(self).has(id),
            old(self).idx_to_id@.len() + 1 <= 0xffff_ffff,
        ensures
            final(self).wf(),
            final(self).idx_to_id@ == old(self).idx_to_id@.push(id),
            final(self).has(id),
            final(self).index_of(id) == old(self).idx_to_id@.len(),
            final(self).structure_dirty,
            final(self).blocks_dirty == old(self).blocks_dirty,
            final(self).reverse_blocks_dirty == old(self).reverse_blocks_dirty,
            final(self).blocks@ == old(self).blocks@,
            final(self).reverse_blocks@ == old(self).reverse_blocks@,
            final(self).vertices@ == pad(old(self).vertices@, final(self).idx_to_id@.len() as int),
            final(self).block_counts@ == pad(old(self).block_counts@, final(self).idx_to_id@.len() as int),
            final(self).reverse_vertices@ == pad(old(self).reverse_vertices@, final(self).idx_to_id@.len() as int),
            final(self).reverse_block_counts@ == pad(old(self).reverse_block_counts@, final(self).idx_to_id@.len() as int),
            final(self).vertex_props@ == old(self).vertex_props@.push(properties),
            final(self).total_edges == old(self).total_edges,
    {
        let ghost n = self.idx_to_id@.len() as int;
        proof {
            lemma_pad(self.vertices@, self.block_counts@, self.blocks@, n, n + 1);
            lemma_pad(self.reverse_vertices@, self.reverse_block_counts@, self.reverse_blocks@, n, n + 1);
        }
        let idx = self.idx_to_id.len();
        self.idx_to_id.push(id);
        self.id_to_idx.insert(id, idx);
        self.vertices.push(0);
        self.block_counts.push(0);
        self.reverse_vertices.push(0);
        self.reverse_block_counts.push(0);
        self.vertex_props.push(properties);
        self.vertex_count = self.vertex_count + 1;
        self.structure_dirty = true;
        proof {
            assert(self.vertices@ =~= pad(old(self).vertices@, n + 1));
            assert(self.block_counts@ =~= pad(old(self).block_counts@, n + 1));
            assert(self.reverse_vertices@ =~= pad(old(self).reverse_vertices@, n + 1));
            assert(self.reverse_block_counts@ =~= pad(old(self).reverse_block_counts@, n + 1));
            assert forall|i: int, j: int| 0 <= i < j < n + 1 implies #[trigger] self.idx_to_id@[i] != #[trigger] self.idx_to_id@[j] by {
                if j == n {
                    assert(old(self).id_to_idx@.contains_key(old(self).idx_to_id@[i]));
                }
            }
            assert forall|k: u64| #[trigger] self.id_to_idx@.contains_key(k) implies (self.id_to_idx@[k] as int) < n + 1
                && self.idx_to_id@[self.id_to_idx@[k] as int] == k by {
                if k != id {
                    assert(old(self).id_to_idx@.contains_key(k));
                }
            }
            assert forall|i: int| 0 <= i < n + 1 implies self.id_to_idx@.contains_key(#[trigger] self.idx_to_id@[i]) by {
                if i < n {
                    assert(old(self).id_to_idx@.contains_key(old(self).idx_to_id@[i]));
                }
            }
        }
    }

    /// Adds the edge `from -> to`, creating missing endpoints (without
    /// properties). `to` is appended to the forward blocks of `from` and
    /// `from` to the reverse blocks of `to` (see
    /// [`crate::edge_store::append_spec`]).
    #[verifier::rlimit(40)]
    pub fn add_edge(&mut self, from: u64, to: u64)
        requires
            old(self).wf(),
            old(self).has_room(),
        ensures
            final(self).wf(),
            final(self).idx_to_id@ == with_id(with_id(old(self).idx_to_id@, from), to),
            final(self).has(from),
            final(self).has(to),
            ({
                let n2 = final(self).idx_to_id@.len() as int;
                let fi = final(self).index_of(from);
                let ti = final(self).index_of(to);
                &&& (final(self).vertices@, final(self).block_counts@, final(self).blocks@) == append_spec(
                    pad(old(self).vertices@, n2),
                    pad(old(self).block_counts@, n2),
                    old(self).blocks@,
                    fi,
                    ti as u32,
                )
                &&& (final(self).reverse_vertices@, final(self).reverse_block_counts@, final(self).reverse_blocks@)
                    == append_spec(
                    pad(old(self).reverse_vertices@, n2),
                    pad(old(self).reverse_block_counts@, n2),
                    old(self).reverse_blocks@,
                    ti,
                    fi as u32,
                )
            }),
            final(self).total_edges == old(self).total_edges + 1,
            final(self).vertex_props@.len() == final(self).idx_to_id@.len(),
            forall|i: int| 0 <= i < old(self).vertex_props@.len() ==> #[trigger] final(self).vertex_props@[i] == old(self).vertex_props@[i],
            forall|i: int| old(self).vertex_props@.len() <= i < final(self).vertex_props@.len() ==> #[trigger] final(self).vertex_props@[i]@.len() == 0,
            final(self).blocks_dirty,
            final(self).reverse_blocks_dirty,
            old(self).structure_dirty ==> final(self).structure_dirty,
            final(self).idx_to_id@.len() > old(self).idx_to_id@.len() ==> final(self).structure_dirty,
            // the edge becomes visible at both ends
            final(self).out_list(from) == old(self).out_list(from).push(to),
            final(self).in_list(to) == old(self).in_list(to).push(from),
            // and, where every run is owned by its vertex, nothing else moves
            old(self).runs_ok() ==> {
                &&& final(self).runs_ok()
                &&& forall|k: u64| k != from ==> #[trigger] final(self).out_list(k) == old(self).out_list(k)
                &&& forall|k: u64| k != to ==> #[trigger] final(self).in_list(k) == old(self).in_list(k)
            },
    {
        let ghost s0 = *self;
        let from_idx = self.get_or_create_idx(from);
        let ghost s1 = *self;
        let to_idx = self.get_or_create_idx(to);
        let ghost s2 = *self;
        let ghost n = self.idx_to_id@.len() as int;
        proof {
            s1.lemma_lists_after_growth(s2);
            assert(s2.vertices@ =~= pad(s0.vertices@, n));
            assert(s2.block_counts@ =~= pad(s0.block_counts@, n));
            assert(s2.reverse_vertices@ =~= pad(s0.reverse_vertices@, n));
            assert(s2.reverse_block_counts@ =~= pad(s0.reverse_block_counts@, n));
            s0.lemma_lists_after_growth(s2);
            let n0 = s0.idx_to_id@.len() as int;
            lemma_pad(s0.vertices@, s0.block_counts@, s0.blocks@, n0, n);
            lemma_pad(s0.reverse_vertices@, s0.reverse_block_counts@, s0.reverse_blocks@, n0, n);
            s2.lemma_room(from_idx as int, to_idx as int);
            lemma_append(s2.vertices@, s2.block_counts@, s2.blocks@, n, from_idx as int, to_idx as u32);
            lemma_append(s2.reverse_vertices@, s2.reverse_block_counts@, s2.reverse_blocks@, n, to_idx as int, from_idx as u32);
            if s0.has(from) {
                assert(s2.index_of(from) == s0.index_of(from));
            } else {
                assert(s2.index_of(from) >= n0) by {
                    if s2.index_of(from) < n0 {
                        assert(s0.idx_to_id@[s2.index_of(from)] == from);
                        assert(s0.id_to_idx@.contains_key(s0.idx_to_id@[s2.index_of(from)]));
                    }
                }
            }
            if s0.has(to) {
                assert(s2.index_of(to) == s0.index_of(to));
            } else {
                assert(s2.index_of(to) >= n0) by {
                    if s2.index_of(to) < n0 {
                        assert(s0.idx_to_id@[s2.index_of(to)] == to);
                        assert(s0.id_to_idx@.contains_key(s0.idx_to_id@[s2.index_of(to)]));
                    }
                }
            }
        }
        let extra_forward = append_to_store(
            &mut self.vertices,
            &mut self.block_counts,
            &mut self.blocks,
            from_idx,
            to_idx as u32,
            Ghost(n),
        );
        self.blocks_dirty = true;
        if extra_forward {
            self.structure_dirty = true;
        }
        let extra_reverse = append_to_store(
            &mut self.reverse_vertices,
            &mut self.reverse_block_counts,
            &mut self.reverse_blocks,
            to_idx,
            from_idx as u32,
            Ghost(n),
        );
        self.reverse_blocks_dirty = true;
        if extra_reverse {
            self.structure_dirty = true;
        }
        self.total_edges = self.total_edges + 1;
        proof {
            s2.lemma_edge_appended(*self, from, to);
            assert(s2.out_list(from) == s0.out_list(from));
            assert(s2.in_list(to) == s0.in_list(to));
            if s0.runs_ok() {
                assert forall|k: u64| k != from implies #[trigger] self.out_list(k) == s0.out_list(k) by {
                    assert(s2.out_list(k) == s0.out_list(k));
                }
                assert forall|k: u64| k != to implies #[trigger] self.in_list(k) == s0.in_list(k) by {
                    assert(s2.in_list(k) == s0.in_list(k));
                }
            }
        }
    }

    /// Appending `to` at `from` in the forward store and `from` at `to` in
    /// the reverse store makes the edge visible at both ends; with owned
    /// runs, every other neighbour list stays as it was.
    proof fn lemma_edge_appended(&self, g: Self, from: u64, to: u64)
        requires
            self.wf(),
            g.wf(),
            2 * num_blocks(self.blocks@) + 1 < 0xffff_ffff,
            2 * num_blocks(self.reverse_blocks@) + 1 < 0xffff_ffff,
            self.idx_to_id@.len() <= 0xffff_ffff,
            g.idx_to_id@ == self.idx_to_id@,
            g.id_to_idx@ == self.id_to_idx@,
            self.has(from),
            self.has(to),
            (g.vertices@, g.block_counts@, g.blocks@) == append_spec(
                self.vertices@,
                self.block_counts@,
                self.blocks@,
                self.index_of(from),
                self.index_of(to) as u32,
            ),
            (g.reverse_vertices@, g.reverse_block_counts@, g.reverse_blocks@) == append_spec(
                self.reverse_vertices@,
                self.reverse_block_counts@,
                self.reverse_blocks@,
                self.index_of(to),
                self.index_of(from) as u32,
            ),
        ensures
            g.out_list(from) == self.out_list(from).push(to),
            g.in_list(to) == self.in_list(to).push(from),
            self.runs_ok() ==> {
                &&& g.runs_ok()
                &&& forall|k: u64| k != from ==> #[trigger] g.out_list(k) == self.out_list(k)
                &&& forall|k: u64| k != to ==> #[trigger] g.in_list(k) == self.in_list(k)
            },
    {
        let n = self.idx_to_id@.len() as int;
        let fi = self.index_of(from);
        let ti = self.index_of(to);
        self.lemma_room(fi, ti);
        lemma_append(self.vertices@, self.block_counts@, self.blocks@, n, fi, ti as u32);
        lemma_append(self.reverse_vertices@, self.reverse_block_counts@, self.reverse_blocks@, n, ti, fi as u32);
        assert(g.out_ids(fi) =~= self.out_ids(fi).push(to));
        assert(g.in_ids(ti) =~= self.in_ids(ti).push(from));
        if self.runs_ok() {
            assert forall|k: u64| k != from implies #[trigger] g.out_list(k) == self.out_list(k) by {
                if self.has(k) {
                    assert(self.index_of(k) != fi);
                    assert(g.out_ids(self.index_of(k)) =~= self.out_ids(self.index_of(k)));
                }
            }
            assert forall|k: u64| k != to implies #[trigger] g.in_list(k) == self.in_list(k) by {
                if self.has(k) {
                    assert(self.index_of(k) != ti);
                    assert(g.in_ids(self.index_of(k)) =~= self.in_ids(self.index_of(k)));
                }
            }
        }
    }

    /// With twice the blocks of a store still below `u32::MAX`, any vertex
    /// can be appended to.
    proof fn lemma_room(&self, fi: int, ti: int)
        requires
            self.wf(),
            0 <= fi < self.idx_to_id@.len(),
            0 <= ti < self.idx_to_id@.len(),
            2 * num_blocks(self.blocks@) + 1 < 0xffff_ffff,
            2 * num_blocks(self.reverse_blocks@) + 1 < 0xffff_ffff,
        ensures
            room_to_append(self.vertices@, self.block_counts@, self.blocks@, fi),
            room_to_append(self.reverse_vertices@, self.reverse_block_counts@, self.reverse_blocks@, ti),
    {
        if self.block_counts@[fi] > 0 {
            assert(self.vertices@[fi] + self.block_counts@[fi] <= num_blocks(self.blocks@));
        }
        if self.reverse_block_counts@[ti] > 0 {
            assert(self.reverse_vertices@[ti] + self.reverse_block_counts@[ti] <= num_blocks(self.reverse_blocks@));
        }
    }

    /// User id of index `idx`.
    pub fn get_id(&self, idx: usize) -> (r: Option<u64>)
        ensures
            r == (if idx < self.idx_to_id@.len() { Some(self.idx_to_id@[idx as int]) } else { None::<u64> }),
    {
        if idx < self.idx_to_id.len() {
            Some(self.idx_to_id[idx])
        } else {
            None
        }
    }

    /// Adds vertex `id` with `properties`, or replaces the properties of an
    /// existing vertex. Returns its index.
    pub fn add_vertex(&mut self, id: u64, properties: Properties) -> (idx: usize)
        requires
            old(self).wf(),
            old(self).idx_to_id@.len() + 1 <= 0xffff_ffff,
        ensures
            final(self).wf(),
            old(self).runs_ok() ==> final(self).runs_ok(),
            final(self).idx_to_id@ == with_id(old(self).idx_to_id@, id),
            final(self).has(id),
            idx as int == final(self).index_of(id),
            final(self).vertex_props@ == (if old(self).has(id) {
                old(self).vertex_props@.update(idx as int, properties)
            } else {
                old(self).vertex_props@.push(properties)
            }),
            forall|k: u64| #[trigger] final(self).out_list(k) == old(self).out_list(k),
            forall|k: u64| #[trigger] final(self).in_list(k) == old(self).in_list(k),
            final(self).total_edges == old(self).total_edges,
            final(self).blocks@ == old(self).blocks@,
            final(self).reverse_blocks@ == old(self).reverse_blocks@,
            final(self).structure_dirty == (old(self).structure_dirty || !old(self).has(id)),
            final(self).blocks_dirty == old(self).blocks_dirty,
            final(self).reverse_blocks_dirty == old(self).reverse_blocks_dirty,
    {
        match self.id_to_idx.get(&id) {
            Some(idx) => {
                let idx = *idx;
                let ghost s0 = *self;
                self.vertex_props.set(idx, properties);
                proof {
                    assert(self.idx_to_id@.contains(id)) by {
                        assert(self.idx_to_id@[idx as int] == id);
                    }
                    assert forall|k: u64| #[trigger] self.out_list(k) == s0.out_list(k) by {
                        assert(self.out_ids(self.index_of(k)) =~= s0.out_ids(s0.index_of(k)));
                    }
                    assert forall|k: u64| #[trigger] self.in_list(k) == s0.in_list(k) by {
                        assert(self.in_ids(self.index_of(k)) =~= s0.in_ids(s0.index_of(k)));
                    }
                }
                return idx;
            },
            None => {},
        }
        let ghost s0 = *self;
        let ghost n = self.idx_to_id@.len() as int;
        let idx = self.idx_to_id.len();
        self.push_vertex(id, properties);
        proof {
            assert(!s0.idx_to_id@.contains(id)) by {
                if s0.idx_to_id@.contains(id) {
                    let i = choose|i: int| 0 <= i < s0.idx_to_id@.len() && s0.idx_to_id@[i] == id;
                    assert(s0.id_to_idx@.contains_key(s0.idx_to_id@[i]));
                }
            }
            lemma_pad(s0.vertices@, s0.block_counts@, s0.blocks@, n, n + 1);
            lemma_pad(s0.reverse_vertices@, s0.reverse_block_counts@, s0.reverse_blocks@, n, n + 1);
            s0.lemma_lists_after_growth(*self);
        }
        idx
    }

    /// Index of vertex `id`, adding it with no properties when it is not a
    /// vertex yet (the properties of a vertex already there are kept).
    pub fn index_for(&mut self, id: u64) -> (idx: usize)
        requires
            old(self).wf(),
            old(self).idx_to_id@.len() + 1 <= 0xffff_ffff,
        ensures
            final(self).wf(),
            final(self).idx_to_id@ == with_id(old(self).idx_to_id@, id),
            final(self).has(id),
            idx as int == final(self).index_of(id),
            final(self).vertex_props@.len() == final(self).idx_to_id@.len(),
            forall|k: int| 0 <= k < old(self).vertex_props@.len() ==> #[trigger] final(self).vertex_props@[k] == old(self).vertex_props@[k],
            forall|k: int| old(self).vertex_props@.len() <= k < final(self).vertex_props@.len() ==> (#[trigger] final(self).vertex_props@[k])@.len() == 0,
    {
        match self.id_to_idx.get(&id) {
            Some(idx) => {
                return *idx;
            },
            None => {},
        }
        self.add_vertex(id, Properties::new())
    }

    /// Adding vertices without edges keeps every vertex's neighbour lists.
    proof fn lemma_lists_after_growth(&self, g: Self)
        requires
            self.wf(),
            g.wf(),
            self.idx_to_id@.len() <= g.idx_to_id@.len(),
            forall|i: int| 0 <= i < self.idx_to_id@.len() ==> #[trigger] g.idx_to_id@[i] == self.idx_to_id@[i],
            g.blocks@ == self.blocks@,
            g.reverse_blocks@ == self.reverse_blocks@,
            g.vertices@ == pad(self.vertices@, g.idx_to_id@.len() as int),
            g.block_counts@ == pad(self.block_counts@, g.idx_to_id@.len() as int),
            g.reverse_vertices@ == pad(self.reverse_vertices@, g.idx_to_id@.len() as int),
            g.reverse_block_counts@ == pad(self.reverse_block_counts@, g.idx_to_id@.len() as int),
        ensures
            forall|k: u64| #[trigger] g.out_list(k) == self.out_list(k),
            forall|k: u64| #[trigger] g.in_list(k) == self.in_list(k),
            self.runs_ok() ==> g.runs_ok(),
            forall|k: u64| self.has(k) ==> g.has(k) && g.index_of(k) == self.index_of(k),
    {
        let n = self.idx_to_id@.len() as int;
        let m = g.idx_to_id@.len() as int;
        lemma_pad(self.vertices@, self.block_counts@, self.blocks@, n, m);
        lemma_pad(self.reverse_vertices@, self.reverse_block_counts@, self.reverse_blocks@, n, m);
        assert forall|k: u64| self.has(k) implies g.has(k) && g.index_of(k) == self.index_of(k) by {
            let i = self.index_of(k);
            assert(g.idx_to_id@[i] == k);
            assert(g.id_to_idx@.contains_key(g.idx_to_id@[i]));
            let j = g.index_of(k);
            if j != i {
                if i < j {
                    assert(g.idx_to_id@[i] != g.idx_to_id@[j]);
                } else {
                    assert(g.idx_to_id@[j] != g.idx_to_id@[i]);
                }
            }
        }
        assert forall|k: u64| #[trigger] g.out_list(k) == self.out_list(k) by {
            if self.has(k) {
                let i = self.index_of(k);
                lemma_adjacency_in_range(self.vertices@, self.block_counts@, self.blocks@, n, i);
                assert(g.out_adj(i) == self.out_adj(i));
                assert(g.out_ids(i) =~= self.out_ids(i));
            } else if g.has(k) {
                let j = g.index_of(k);
                if j < n {
                    assert(g.idx_to_id@[j] == self.idx_to_id@[j]);
                    assert(self.id_to_idx@.contains_key(self.idx_to_id@[j]));
                }
                assert(g.out_adj(j) == Seq::<u32>::empty());
                assert(g.out_ids(j) =~= Seq::<u64>::empty());
            }
        }
        assert forall|k: u64| #[trigger] g.in_list(k) == self.in_list(k) by {
            if self.has(k) {
                let i = self.index_of(k);
                lemma_adjacency_in_range(self.reverse_vertices@, self.reverse_block_counts@, self.reverse_blocks@, n, i);
                assert(g.in_adj(i) == self.in_adj(i));
                assert(g.in_ids(i) =~= self.in_ids(i));
            } else if g.has(k) {
                let j = g.index_of(k);
                if j < n {
                    assert(g.idx_to_id@[j] == self.idx_to_id@[j]);
                    assert(self.id_to_idx@.contains_key(self.idx_to_id@[j]));
                }
                assert(g.in_adj(j) == Seq::<u32>::empty());
                assert(g.in_ids(j) =~= Seq::<u64>::empty());
            }
        }
    }

    /// Properties of vertex `id`.
    pub fn get_vertex(&self, id: u64) -> (r: Option<&Properties>)
        requires
            self.wf(),
        ensures
            match r {
                Some(p) => self.has(id) && *p == self.vertex_props@[self.index_of(id)],
                None => !self.has(id),
            },
    {
        match self.id_to_idx.get(&id) {
            Some(idx) => Some(&self.vertex_props[*idx]),
            None => None,
        }
    }

    /// Out-neighbour ids of index `v_idx`, in storage order (none for an
    /// index out of range).
    pub fn out_neighbors_by_idx(&self, v_idx: usize) -> (r: Vec<u64>)
        requires
            self.wf(),
        ensures
            r@ == (if v_idx < self.idx_to_id@.len() { self.out_ids(v_idx as int) } else { Seq::<u64>::empty() }),
    {
        if v_idx >= self.block_counts.len() {
            return Vec::new();
        }
        let ghost n = self.idx_to_id@.len() as int;
        let targets = read_adjacency(&self.vertices, &self.block_counts, &self.blocks, v_idx, Ghost(n));
        self.ids_of_targets(&targets)
    }

    /// In-neighbour ids of index `v_idx`, in storage order (none for an
    /// index out of range).
    pub fn in_neighbors_by_idx(&self, v_idx: usize) -> (r: Vec<u64>)
        requires
            self.wf(),
        ensures
            r@ == (if v_idx < self.idx_to_id@.len() { self.in_ids(v_idx as int) } else { Seq::<u64>::empty() }),
    {
        if v_idx >= self.reverse_block_counts.len() {
            return Vec::new();
        }
        let ghost n = self.idx_to_id@.len() as int;
        let targets = read_adjacency(
            &self.reverse_vertices,
            &self.reverse_block_counts,
            &self.reverse_blocks,
            v_idx,
            Ghost(n),
        );
        self.ids_of_targets(&targets)
    }

    /// Ids of a list of vertex indices, skipping indices out of range.
    fn ids_of_targets(&self, targets: &Vec<u32>) -> (r: Vec<u64>)
        requires
            forall|i: int| 0 <= i < targets@.len() ==> (#[trigger] targets@[i] as int) < self.idx_to_id@.len(),
        ensures
            r@ == targets@.map_values(|t: u32| self.idx_to_id@[t as int]),
    {
        let mut result: Vec<u64> = Vec::new();
        let mut e: usize = 0;
        while e < targets.len()
            invariant
                e <= targets@.len(),
                forall|i: int| 0 <= i < targets@.len() ==> (#[trigger] targets@[i] as int) < self.idx_to_id@.len(),
                result@ == targets@.take(e as int).map_values(|t: u32| self.idx_to_id@[t as int]),
            decreases targets@.len() - e,
        {
            let t = targets[e] as usize;
            if t < self.idx_to_id.len() {
                result.push(self.idx_to_id[t]);
            }
            e = e + 1;
            proof {
                assert(result@ =~= targets@.take(e as int).map_values(|t: u32| self.idx_to_id@[t as int]));
            }
        }
        proof {
            assert(targets@.take(e as int) =~= targets@);
        }
        result
    }

    /// Out-neighbour ids of vertex `id` (none for an unknown id).
    pub fn out_neighbors(&self, id: u64) -> (r: Vec<u64>)
        requires
            self.wf(),
        ensures
            r@ == self.out_list(id),
    {
        match self.id_to_idx.get(&id) {
            Some(idx) => self.out_neighbors_by_idx(*idx),
            None => Vec::new(),
        }
    }

    /// In-neighbour ids of vertex `id` (none for an unknown id).
    pub fn in_neighbors(&self, id: u64) -> (r: Vec<u64>)
        requires
            self.wf(),
        ensures
            r@ == self.in_list(id),
    {
        match self.id_to_idx.get(&id) {
            Some(idx) => self.in_neighbors_by_idx(*idx),
            None => Vec::new(),
        }
    }

    /// Out-degree of index `v_idx`: the sum of the edge counts of its blocks
    /// (0 for an index out of range).
    pub fn out_degree_by_idx(&self, v_idx: usize) -> (d: usize)
        requires
            self.wf(),
        ensures
            d == (if v_idx < self.idx_to_id@.len() { self.out_adj(v_idx as int).len() } else { 0 }),
    {
        if v_idx >= self.block_counts.len() {
            return 0;
        }
        let ghost n = self.idx_to_id@.len() as int;
        adjacency_len(&self.vertices, &self.block_counts, &self.blocks, v_idx, Ghost(n))
    }

    /// Out-degree of vertex `id` (0 for an unknown id).
    pub fn out_degree(&self, id: u64) -> (d: usize)
        requires
            self.wf(),
        ensures
            d == self.out_list(id).len(),
    {
        match self.id_to_idx.get(&id) {
            Some(idx) => self.out_degree_by_idx(*idx),
            None => 0,
        }
    }

    /// Out-degree of every index, truncated to `u32`.
    pub fn compute_out_degrees(&self) -> (r: Vec<u32>)
        requires
            self.wf(),
        ensures
            r@.len() == self.vertex_count,
            forall|v: int| 0 <= v < r@.len() ==> #[trigger] r@[v] == self.out_adj(v).len() as u32,
    {
        let n = self.vertex_count as usize;
        let mut out_degrees: Vec<u32> = Vec::new();
        let mut v: usize = 0;
        while v < n
            invariant
                self.wf(),
                n == self.vertex_count,
                v <= n,
                out_degrees@.len() == v,
                forall|w: int| 0 <= w < v ==> #[trigger] out_degrees@[w] == self.out_adj(w).len() as u32,
            decreases n - v,
        {
            let d = self.out_degree_by_idx(v);
            out_degrees.push(d as u32);
            v = v + 1;
        }
        out_degrees
    }

    /// Vertex count, total number of blocks in both stores, and edge count.
    pub fn stats(&self) -> (r: (usize, usize, usize))
        requires
            self.wf(),
        ensures
            r.0 == self.vertex_count,
            r.1 == num_blocks(self.blocks@) + num_blocks(self.reverse_blocks@),
            r.2 == self.total_edges as usize,
    {
        (
            self.vertex_count as usize,
            self.blocks.len() / 34 + self.reverse_blocks.len() / 34,
            self.total_edges as usize,
        )
    }
}


impl GPUEdgeBlockGraph {
    /// Builds the graph of a CSR adjacency over `vertex_count` vertices:
    /// vertex `v` gets id `v`, no properties, the out-neighbours
    /// `csr_targets[csr_offsets[v] .. csr_offsets[v + 1]]` in that order,
    /// and as in-neighbours the vertices with an edge to it, by increasing
    /// source (once per edge).
    pub fn from_csr(csr_offsets: &[u32], csr_targets: &[u32], vertex_count: u32) -> (g: Self)
        requires
            csr_ok(csr_offsets@, csr_targets@, vertex_count as int),
            vertex_count < 0xffff_ffff,
            csr_offsets@[vertex_count as int] - csr_offsets@[0] < 0xffff_fffd,
        ensures
            g.wf(),
            g.runs_ok(),
            g.vertex_count == vertex_count,
            forall|v: int| 0 <= v < vertex_count ==> #[trigger] g.idx_to_id@[v] == v,
            forall|v: int| 0 <= v < vertex_count ==> #[trigger] g.out_adj(v) == csr_slice(csr_offsets@, csr_targets@, v),
            forall|v: int| 0 <= v < vertex_count ==> #[trigger] g.in_adj(v) == sources_upto(csr_offsets@, csr_targets@, vertex_count as int, v as u32),
            forall|v: int| 0 <= v < vertex_count ==> #[trigger] g.vertex_props@[v]@.len() == 0,
            forall|v: int| 0 <= v < vertex_count ==> #[trigger] g.block_counts@[v] == (g.out_adj(v).len() + 31) / 32,
            forall|v: int| 0 <= v < vertex_count ==> #[trigger] g.reverse_block_counts@[v] == (g.in_adj(v).len() + 31) / 32,
            g.total_edges == csr_offsets@[vertex_count as int] - csr_offsets@[0],
            g.blocks_dirty && g.reverse_blocks_dirty && g.structure_dirty,
    {
        let n = vertex_count as usize;
        let ghost o = csr_offsets@;
        proof {
            lemma_offsets_monotone(o, csr_targets@, n as int, 0, n as int);
        }
        let (vertices, block_counts, blocks) = store_from_csr(csr_offsets, csr_targets, n);
        let (rev_offsets, rev_targets) = reverse_csr(csr_offsets, csr_targets, n);
        let (reverse_vertices, reverse_block_counts, reverse_blocks) = store_from_csr(
            rev_offsets.as_slice(),
            rev_targets.as_slice(),
            n,
        );
        let total_edges = (csr_offsets[n] - csr_offsets[0]) as u64;
        let mut idx_to_id: Vec<u64> = Vec::new();
        let mut id_to_idx: HashMap<u64, usize> = HashMap::new();
        let mut vertex_props: Vec<Properties> = Vec::new();
        let mut i: usize = 0;
        while i < n
            invariant
                i <= n,
                n == vertex_count,
                idx_to_id@.len() == i,
                vertex_props@.len() == i,
                forall|k: int| 0 <= k < i ==> #[trigger] idx_to_id@[k] == k,
                forall|k: int| 0 <= k < i ==> #[trigger] vertex_props@[k]@.len() == 0,
                id_to_idx@ == Map::new(|k: u64| (k as int) < i, |k: u64| k as usize),
            decreases n - i,
        {
            idx_to_id.push(i as u64);
            id_to_idx.insert(i as u64, i);
            vertex_props.push(Properties::new());
            i = i + 1;
            proof {
                assert(id_to_idx@ =~= Map::new(|k: u64| (k as int) < i, |k: u64| k as usize));
            }
        }
        let g = GPUEdgeBlockGraph {
            vertices,
            block_counts,
            blocks,
            reverse_vertices,
            reverse_block_counts,
            reverse_blocks,
            vertex_count,
            block_capacity: 32,
            idx_to_id,
            id_to_idx,
            vertex_props,
            total_edges,
            blocks_dirty: true,
            reverse_blocks_dirty: true,
            structure_dirty: true,
        };
        proof {
            assert forall|a: int, b: int| 0 <= a < b < n implies #[trigger] g.idx_to_id@[a] != #[trigger] g.idx_to_id@[b] by {}
            assert forall|id: u64| #[trigger] g.id_to_idx@.contains_key(id) implies (g.id_to_idx@[id] as int) < n
                && g.idx_to_id@[g.id_to_idx@[id] as int] == id by {}
            assert forall|k: int| 0 <= k < n implies g.id_to_idx@.contains_key(#[trigger] g.idx_to_id@[k]) by {}
        }
        g
    }
}

} // verus!
