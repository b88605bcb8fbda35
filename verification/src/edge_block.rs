//! Fixed-size edge blocks of `u64` vertex ids, and a graph that keeps its
//! out-edges in such blocks, one run of consecutive blocks per vertex.

use vstd::prelude::*;
use std::collections::HashMap;
use crate::Properties;

verus! {

broadcast use vstd::std_specs::hash::group_hash_axioms;

/// A block of up to 32 neighbours of one vertex; unused slots hold 0.
#[derive(Debug, Clone)]
pub struct EdgeBlock {
    pub owner_vertex: u64,
    pub edge_count: usize,
    pub edges: Vec<u64>,
}

impl EdgeBlock {
    /// Slots per block.
    pub const BLOCK_SIZE: usize = 32;

    /// Thirty-two slots and a count within them.
    pub open spec fn wf(&self) -> bool {
        &&& self.edges@.len() == 32
        &&& self.edge_count <= 32
    }

    /// The neighbours stored, in order.
    pub open spec fn stored(&self) -> Seq<u64> {
        self.edges@.take(self.edge_count as int)
    }

    /// An empty block of `owner_vertex`.
    pub fn new(owner_vertex: u64) -> (b: Self)
        ensures
            b.wf(),
            b.owner_vertex == owner_vertex,
            b.edge_count == 0,
            b.edges@ == Seq::new(32, |i: int| 0u64),
    {
        let b = EdgeBlock { owner_vertex, edge_count: 0, edges: vec![0u64; 32] };
        proof {
            assert(b.edges@ =~= Seq::new(32, |i: int| 0u64));
        }
        b
    }

    /// Stores `neighbor` in the next free slot; `false` (and no change)
    /// when the block is full.
    pub fn add_edge(&mut self, neighbor: u64) -> (added: bool)
        requires
            old(self).wf(),
        ensures
            final(self).wf(),
            final(self).owner_vertex == old(self).owner_vertex,
            added == (old(self).edge_count < 32),
            added ==> final(self).edge_count == old(self).edge_count + 1
                && final(self).edges@ == old(self).edges@.update(old(self).edge_count as int, neighbor),
            !added ==> *final(self) == *old(self),
    {
        if self.edge_count >= 32 {
            return false;
        }
        self.edges.set(self.edge_count, neighbor);
        self.edge_count = self.edge_count + 1;
        true
    }

    /// The neighbours stored, in order.
    pub fn get_edges(&self) -> (r: &[u64])
        requires
            self.wf(),
        ensures
            r@ == self.stored(),
    {
        &self.edges.as_slice()[0..self.edge_count]
    }
}

/// A vertex and its properties.
#[derive(Debug, Clone)]
pub struct VertexData {
    pub id: u64,
    pub properties: Properties,
}

/// Graph with its out-edges in [`EdgeBlock`]s. `vertex_to_block` names,
/// for each vertex with edges, the first block of its run: the blocks from
/// there on that it owns hold its neighbours.
#[derive(Debug)]
pub struct EdgeBlockGraph {
    pub vertices: HashMap<u64, VertexData>,
    pub edge_blocks: Vec<EdgeBlock>,
    pub vertex_to_block: HashMap<u64, usize>,
}

/// The non-zero entries of `s`, in order (0 marks an empty slot).
pub open spec fn nonzero(s: Seq<u64>) -> Seq<u64>
    decreases s.len(),
{
    if s.len() == 0 {
        seq![]
    } else {
        nonzero(s.drop_last()) + if s.last() != 0 { seq![s.last()] } else { seq![] }
    }
}

/// What a scan for the neighbours of `v` reads from block `i` on: the
/// non-zero entries of each block while the blocks belong to `v`.
pub open spec fn scan(blocks: Seq<EdgeBlock>, v: u64, i: int) -> Seq<u64>
    decreases blocks.len() - i,
{
    if 0 <= i < blocks.len() && blocks[i].owner_vertex == v {
        nonzero(blocks[i].stored()) + scan(blocks, v, i + 1)
    } else {
        seq![]
    }
}

impl EdgeBlockGraph {
    /// Every block well formed, every recorded block index in range and
    /// owned by its vertex.
    pub open spec fn wf(&self) -> bool {
        &&& forall|i: int| 0 <= i < self.edge_blocks@.len() ==> (#[trigger] self.edge_blocks@[i]).wf()
        &&& forall|v: u64| #[trigger] self.vertex_to_block@.contains_key(v) ==> self.vertex_to_block@[v] < self.edge_blocks@.len()
            && self.edge_blocks@[self.vertex_to_block@[v] as int].owner_vertex == v
    }

    /// The neighbours [`EdgeBlockGraph::get_neighbors`] reports for `v`.
    pub open spec fn neighbors_of(&self, v: u64) -> Seq<u64> {
        if self.vertex_to_block@.contains_key(v) {
            scan(self.edge_blocks@, v, self.vertex_to_block@[v] as int)
        } else {
            seq![]
        }
    }

    /// An empty graph.
    pub fn new() -> (g: Self)
        ensures
            g.wf(),
            g.vertices@ == Map::<u64, VertexData>::empty(),
            g.edge_blocks@.len() == 0,
            g.vertex_to_block@ == Map::<u64, usize>::empty(),
    {
        EdgeBlockGraph { vertices: HashMap::new(), edge_blocks: Vec::new(), vertex_to_block: HashMap::new() }
    }

    /// Adds or replaces vertex `id` with `properties`.
    pub fn add_vertex(&mut self, id: u64, properties: Properties)
        requires
            old(self).wf(),
        ensures
            final(self).wf(),
            final(self).vertices@ == old(self).vertices@.insert(id, VertexData { id, properties }),
            final(self).edge_blocks@ == old(self).edge_blocks@,
            final(self).vertex_to_block@ == old(self).vertex_to_block@,
    {
        self.vertices.insert(id, VertexData { id, properties });
    }

    /// Adds the edge `from -> to`, creating missing endpoints without
    /// properties. `to` goes into the last block of the run of `from` when
    /// it has room; otherwise into a new block right after the run: at the
    /// end of `edge_blocks` when the run ends there, else the run is first
    /// copied to the end and its old blocks emptied. Either way the
    /// neighbours of `from` gain `to` (unless `to` is 0, which marks an
    /// empty slot) and those of every other vertex stay as they were.
    #[verifier::spinoff_prover]
    #[verifier::rlimit(60)]
    pub fn add_edge(&mut self, from: u64, to: u64)
        requires
            old(self).wf(),
        ensures
            final(self).wf(),
            final(self).vertices@.dom() == old(self).vertices@.dom().insert(from).insert(to),
            forall|k: u64| #[trigger] old(self).vertices@.contains_key(k) ==> final(self).vertices@[k] == old(self).vertices@[k],
            final(self).neighbors_of(from) == old(self).neighbors_of(from) + nonzero(seq![to]),
            forall|v: u64| v != from ==> #[trigger] final(self).neighbors_of(v) == old(self).neighbors_of(v),
            total_stored(final(self).edge_blocks@) == total_stored(old(self).edge_blocks@) + 1,
    {
        if !self.vertices.contains_key(&from) {
            self.add_vertex(from, Properties::new());
        }
        if !self.vertices.contains_key(&to) {
            self.add_vertex(to, Properties::new());
        }
        proof {
            assert(self.vertices@.dom() =~= old(self).vertices@.dom().insert(from).insert(to));
        }
        let ghost b0 = self.edge_blocks@;
        let ghost vt0 = self.vertex_to_block@;
        let ghost vs = self.vertices@;
        let len = self.edge_blocks.len();
        let existing = match self.vertex_to_block.get(&from) {
            Some(idx) => Some(*idx),
            None => None,
        };
        match existing {
            None => {
                let mut block = EdgeBlock::new(from);
                let _ = block.add_edge(to);
                self.edge_blocks.push(block);
                self.vertex_to_block.insert(from, len);
                proof {
                    lemma_scan_frame_push(b0, self.edge_blocks@);
                    lemma_nonzero_one(self.edge_blocks@[len as int].stored(), to);
                    lemma_scan_last(self.edge_blocks@, from, len as int);
                    lemma_total_push(b0, self.edge_blocks@[len as int]);
                    assert(self.edge_blocks@ =~= b0.push(self.edge_blocks@[len as int]));
                    assert(self.vertices@ == vs);
                    assert(self.vertices@.dom() == old(self).vertices@.dom().insert(from).insert(to));
                }
            },
            Some(start) => {
                // the end of the run of `from`
                let mut cur = start + 1;
                while cur < len && self.edge_blocks[cur].owner_vertex == from
                    invariant
                        self.wf(),
                        self.edge_blocks@ == b0,
                        self.vertices@ == vs,
                        self.vertex_to_block@ == vt0,
                        len == b0.len(),
                        start < cur <= len,
                        forall|j: int| start <= j < cur ==> (#[trigger] b0[j]).owner_vertex == from,
                    decreases len - cur,
                {
                    cur = cur + 1;
                }
                let last = cur - 1;
                proof {
                    lemma_scan_run(b0, from, start as int, cur as int);
                }
                if self.edge_blocks[last].edge_count < 32 {
                    let mut block = self.edge_blocks[last].clone_block();
                    let _ = block.add_edge(to);
                    let ghost nb = block;
                    self.edge_blocks.set(last, block);
                    proof {
                        let b1 = self.edge_blocks@;
                        assert(nb.stored() =~= b0[last as int].stored().push(to));
                        lemma_nonzero_push(b0[last as int].stored(), to);
                        lemma_run_nz_frame(b0, b1, start as int, last as int);
                        lemma_scan_run(b1, from, start as int, cur as int);
                        assert(scan(b1, from, cur as int) == scan(b0, from, cur as int)) by {
                            assert(cur < len ==> b1[cur as int] == b0[cur as int]);
                        }
                        assert(run_nz(b1, start as int, cur as int) =~= run_nz(b1, start as int, last as int) + nonzero(b1[last as int].stored()));
                        assert(run_nz(b0, start as int, cur as int) =~= run_nz(b0, start as int, last as int) + nonzero(b0[last as int].stored()));
                        lemma_scan_frame_update(b0, b1, last as int);
                        lemma_total_update(b0, last as int, nb);
                    }
                } else if cur == len {
                    let mut block = EdgeBlock::new(from);
                    let _ = block.add_edge(to);
                    self.edge_blocks.push(block);
                    proof {
                        let b1 = self.edge_blocks@;
                        assert(b1 =~= b0.push(b1[len as int]));
                        lemma_scan_frame_push(b0, b1);
                        lemma_run_nz_frame(b0, b1, start as int, len as int);
                        lemma_nonzero_one(b1[len as int].stored(), to);
                        lemma_scan_last(b1, from, len as int);
                        lemma_scan_run(b1, from, start as int, len + 1);
                        assert(run_nz(b1, start as int, len + 1) =~= run_nz(b1, start as int, len as int) + nonzero(b1[len as int].stored()));
                        lemma_total_push(b0, b1[len as int]);
                    }
                } else {
                    // move the run to the end, then add a fresh block after it
                    let mut k = start;
                    while k < cur
                        invariant
                            start <= k <= cur < len,
                            len == b0.len(),
                            self.edge_blocks@.len() == len + (k - start),
                            forall|j: int| 0 <= j < self.edge_blocks@.len() ==> (#[trigger] self.edge_blocks@[j]).wf(),
                            forall|j: int| 0 <= j < len && !(start <= j < k) ==> #[trigger] self.edge_blocks@[j] == b0[j],
                            forall|j: int| start <= j < k ==> (#[trigger] self.edge_blocks@[j]).owner_vertex == from
                                && self.edge_blocks@[j].edge_count == 0,
                            forall|t: int| 0 <= t < k - start ==> (#[trigger] self.edge_blocks@[len + t]).owner_vertex == from
                                && self.edge_blocks@[len + t].stored() == b0[start + t].stored(),
                            forall|j: int| start <= j < cur ==> (#[trigger] b0[j]).owner_vertex == from && b0[j].wf(),
                            total_stored(self.edge_blocks@) == total_stored(b0),
                            self.vertex_to_block@ == vt0,
                            self.vertices@ == vs,
                        decreases cur - k,
                    {
                        let copy = self.edge_blocks[k].clone_block();
                        let ghost e1 = self.edge_blocks@;
                        proof {
                            assert(e1[k as int] == b0[k as int]);
                        }
                        self.edge_blocks.push(copy);
                        let ghost e2 = self.edge_blocks@;
                        proof {
                            assert(e2 =~= e1.push(copy));
                            lemma_total_push(e1, copy);
                            assert(copy.stored() =~= b0[k as int].stored());
                        }
                        self.edge_blocks.set(k, EdgeBlock::new(from));
                        proof {
                            lemma_total_update(e2, k as int, self.edge_blocks@[k as int]);
                        }
                        k = k + 1;
                    }
                    let c = cur - start;
                    let mut block = EdgeBlock::new(from);
                    let _ = block.add_edge(to);
                    let ghost b2 = self.edge_blocks@;
                    self.edge_blocks.push(block);
                    self.vertex_to_block.insert(from, len);
                    proof {
                        let b1 = self.edge_blocks@;
                        assert(b1 =~= b2.push(b1[len + c]));
                        lemma_total_push(b2, b1[len + c]);
                        lemma_nonzero_one(b1[len + c].stored(), to);
                        lemma_scan_last(b1, from, len + c);
                        assert forall|j: int| len <= j < len + c + 1 implies (#[trigger] b1[j]).owner_vertex == from by {
                            if j < len + c {
                                let t = j - len;
                                assert(b2[len + t].owner_vertex == from);
                            }
                        }
                        assert forall|t: int| 0 <= t < c implies (#[trigger] b1[len + t]).stored() == b0[start + t].stored() by {
                            assert(b2[len + t].stored() == b0[start + t].stored());
                        }
                        lemma_run_nz_shift(b0, b1, start as int, len as int, c as int);
                        lemma_scan_run(b1, from, len as int, len + c + 1);
                        assert(run_nz(b1, len as int, len + c + 1) =~= run_nz(b1, len as int, len + c) + nonzero(b1[len + c].stored()));
                        assert(scan(b0, from, cur as int) == Seq::<u64>::empty());
                        lemma_scan_frame_reloc(b0, b1, from, start as int, cur as int);
                    }
                }
            },
        }
    }

    /// The neighbours of `vertex_id`: the non-zero entries of its first
    /// block and of the blocks right after it that it also owns.
    pub fn get_neighbors(&self, vertex_id: u64) -> (r: Vec<u64>)
        requires
            self.wf(),
        ensures
            r@ == self.neighbors_of(vertex_id),
    {
        let mut neighbors: Vec<u64> = Vec::new();
        match self.vertex_to_block.get(&vertex_id) {
            Some(start) => {
                let start = *start;
                let mut cur = start;
                while cur < self.edge_blocks.len()
                    invariant
                        self.wf(),
                        start <= cur,
                        self.vertex_to_block@.contains_key(vertex_id),
                        start == self.vertex_to_block@[vertex_id],
                        neighbors@ + scan(self.edge_blocks@, vertex_id, cur as int) == self.neighbors_of(vertex_id),
                    decreases self.edge_blocks@.len() - cur,
                {
                    let block = &self.edge_blocks[cur];
                    if block.owner_vertex != vertex_id {
                        proof {
                            assert(neighbors@ + scan(self.edge_blocks@, vertex_id, cur as int) =~= neighbors@);
                        }
                        return neighbors;
                    }
                    let edges = block.get_edges();
                    let ghost before = neighbors@;
                    let mut j: usize = 0;
                    while j < edges.len()
                        invariant
                            j <= edges@.len(),
                            neighbors@ == before + nonzero(edges@.take(j as int)),
                        decreases edges@.len() - j,
                    {
                        let x = edges[j];
                        proof {
                            assert(edges@.take(j + 1).drop_last() =~= edges@.take(j as int));
                        }
                        if x != 0 {
                            neighbors.push(x);
                        }
                        j = j + 1;
                        proof {
                            assert(neighbors@ =~= before + nonzero(edges@.take(j as int)));
                        }
                    }
                    proof {
                        assert(edges@.take(j as int) =~= edges@);
                        assert(neighbors@ + scan(self.edge_blocks@, vertex_id, cur + 1) =~= before + scan(self.edge_blocks@, vertex_id, cur as int));
                    }
                    cur = cur + 1;
                }
                proof {
                    assert(neighbors@ + scan(self.edge_blocks@, vertex_id, cur as int) =~= neighbors@);
                }
                neighbors
            },
            None => {
                proof {
                    assert(neighbors@ =~= self.neighbors_of(vertex_id));
                }
                neighbors
            },
        }
    }

    /// Breadth-first distances from `start`: `start` at 0, and for every
    /// reached vertex `w` other than `start` a reached `u` one step closer
    /// with `w` among its neighbours; every neighbour of a reached vertex is
    /// reached, at most one step further. These pin the result down to the
    /// hop distances of the vertices reachable from `start`.
    pub fn bfs(&self, start: u64) -> (distance: HashMap<u64, i32>)
        requires
            self.wf(),
            32 * self.edge_blocks@.len() + 1 < i32::MAX,
        ensures
            distance@.contains_key(start),
            distance@[start] == 0,
            forall|u: u64, w: u64| #[trigger] distance@.contains_key(u) && #[trigger] self.neighbors_of(u).contains(w)
                ==> distance@.contains_key(w) && distance@[w] <= distance@[u] + 1,
            forall|w: u64| #[trigger] distance@.contains_key(w) && w != start ==> self.reached_from(distance@, w),
            forall|w: u64| #[trigger] distance@.contains_key(w) ==> distance@[w] >= 0,
    {
        let mut distance: HashMap<u64, i32> = HashMap::new();
        let mut order: Vec<u64> = Vec::new();
        distance.insert(start, 0);
        order.push(start);
        let ghost pool = seq![start] + all_slots(self.edge_blocks@);
        proof {
            lemma_all_slots_len(self.edge_blocks@);
            assert(pool[0] == start);
            assert(order@.no_duplicates());
        }
        let mut head: usize = 0;
        while head < order.len()
            invariant
                self.wf(),
                32 * self.edge_blocks@.len() + 1 < i32::MAX,
                pool == seq![start] + all_slots(self.edge_blocks@),
                pool.len() == 1 + 32 * self.edge_blocks@.len(),
                order@.len() <= pool.len(),
                head <= order@.len(),
                self.bfs_ok(start, pool, distance@, order@, head as int),
            decreases pool.len() - head,
        {
            let cur = order[head];
            let cur_dist: i32 = match distance.get(&cur) {
                Some(d) => *d,
                None => 0,
            };
            proof {
                assert(distance@.contains_key(order@[head as int]));
            }
            let nbrs = self.get_neighbors(cur);
            let mut j: usize = 0;
            while j < nbrs.len()
                invariant
                    self.wf(),
                    32 * self.edge_blocks@.len() + 1 < i32::MAX,
                    pool == seq![start] + all_slots(self.edge_blocks@),
                    pool.len() == 1 + 32 * self.edge_blocks@.len(),
                    order@.len() <= pool.len(),
                    head < order@.len(),
                    self.bfs_ok(start, pool, distance@, order@, head as int),
                    cur == order@[head as int],
                    distance@.contains_key(cur),
                    cur_dist == distance@[cur],
                    nbrs@ == self.neighbors_of(cur),
                    j <= nbrs@.len(),
                    forall|jj: int| 0 <= jj < j ==> #[trigger] distance@.contains_key(nbrs@[jj]) && distance@[nbrs@[jj]] <= cur_dist + 1,
                decreases nbrs@.len() - j,
            {
                let w = nbrs[j];
                let ghost d0 = distance@;
                if !distance.contains_key(&w) {
                    proof {
                        assert(self.neighbors_of(cur).contains(w)) by {
                            assert(nbrs@[j as int] == w);
                        }
                        lemma_scan_in(self.edge_blocks@, cur, self.vertex_to_block@[cur] as int, w);
                        self.lemma_bfs_push(start, pool, distance@, order@, head as int, w);
                        lemma_visit_bound(pool, order@.push(w));
                    }
                    distance.insert(w, cur_dist + 1);
                    order.push(w);
                } else {
                    proof {
                        assert(order@.contains(w));
                        let k = choose|k: int| 0 <= k < order@.len() && order@[k] == w;
                        assert(distance@.contains_key(order@[k]));
                        assert(distance@.contains_key(order@[order@.len() - 1]));
                        if k < order@.len() - 1 {
                            assert(distance@[order@[k]] <= distance@[order@[order@.len() - 1]]);
                        }
                    }
                }
                proof {
                    assert(nbrs@[j as int] == w);
                    assert forall|jj: int| 0 <= jj < j + 1 implies #[trigger] distance@.contains_key(nbrs@[jj])
                        && distance@[nbrs@[jj]] <= cur_dist + 1 by {
                        if jj < j {
                            assert(d0.contains_key(nbrs@[jj]));
                        }
                    }
                }
                j = j + 1;
            }
            proof {
                assert forall|w: u64| #[trigger] self.neighbors_of(cur).contains(w) implies distance@.contains_key(w)
                    && distance@[w] <= cur_dist + 1 by {
                    let jj = choose|jj: int| 0 <= jj < nbrs@.len() && nbrs@[jj] == w;
                    assert(distance@.contains_key(nbrs@[jj]));
                }
                self.lemma_bfs_advance(start, pool, distance@, order@, head as int);
            }
            head = head + 1;
        }
        proof {
            self.lemma_bfs_done(start, pool, distance@, order@);
        }
        distance
    }

    /// `w` is one step from a reached vertex one closer to the start.
    pub open spec fn reached_from(&self, d: Map<u64, i32>, w: u64) -> bool {
        exists|u: u64| d.contains_key(u) && #[trigger] self.neighbors_of(u).contains(w) && d[u] + 1 == d[w]
    }

    /// The state of the breadth-first search: `order` lists the reached
    /// vertices in the order they were reached, distances never decrease
    /// along it and grow by at most one past the vertex at `head`; the
    /// vertices before `head` have all their neighbours reached.
    pub open spec fn bfs_ok(&self, start: u64, pool: Seq<u64>, d: Map<u64, i32>, order: Seq<u64>, head: int) -> bool {
        &&& self.bfs_reached(start, pool, d, order)
        &&& self.bfs_frontier(d, order, head)
    }

    /// What holds of the reached vertices whatever has been explored.
    pub open spec fn bfs_reached(&self, start: u64, pool: Seq<u64>, d: Map<u64, i32>, order: Seq<u64>) -> bool {
        &&& order.len() >= 1
        &&& order[0] == start
        &&& order.no_duplicates()
        &&& forall|i: int| 0 <= i < order.len() ==> pool.contains(#[trigger] order[i])
        &&& forall|i: int| 0 <= i < order.len() ==> #[trigger] d.contains_key(order[i]) && 0 <= d[order[i]] <= i
        &&& forall|w: u64| #[trigger] d.contains_key(w) ==> order.contains(w)
        &&& forall|i: int, j: int| 0 <= i < j < order.len() ==> d[#[trigger] order[i]] <= d[#[trigger] order[j]]
        &&& forall|w: u64| #[trigger] d.contains_key(w) && w != start ==> self.reached_from(d, w)
    }

    /// The vertices before `head` have all their neighbours reached, and
    /// the last one reached is at most one step further than `head`.
    pub open spec fn bfs_frontier(&self, d: Map<u64, i32>, order: Seq<u64>, head: int) -> bool {
        &&& 0 <= head < order.len() ==> d[order.last()] <= d[order[head]] + 1
        &&& forall|i: int, w: u64| 0 <= i < head && #[trigger] self.neighbors_of(order[i]).contains(w)
            ==> d.contains_key(w) && d[w] <= d[order[i]] + 1
    }

    proof fn lemma_bfs_push(&self, start: u64, pool: Seq<u64>, d: Map<u64, i32>, order: Seq<u64>, head: int, w: u64)
        requires
            self.bfs_ok(start, pool, d, order, head),
            0 <= head < order.len(),
            self.neighbors_of(order[head]).contains(w),
            pool.contains(w) || all_slots(self.edge_blocks@).contains(w),
            pool == seq![start] + all_slots(self.edge_blocks@),
            !d.contains_key(w),
            d[order[head]] < i32::MAX,
        ensures
            self.bfs_ok(start, pool, d.insert(w, (d[order[head]] + 1) as i32), order.push(w), head),
            order.push(w).no_duplicates(),
            forall|i: int| 0 <= i < order.push(w).len() ==> pool.contains(#[trigger] order.push(w)[i]),
    {
        let cur = order[head];
        assert(d.contains_key(order[head]));
        let nd = (d[cur] + 1) as i32;
        let d2 = d.insert(w, nd);
        let o2 = order.push(w);
        assert(pool.contains(w)) by {
            if all_slots(self.edge_blocks@).contains(w) {
                let k = choose|k: int| 0 <= k < all_slots(self.edge_blocks@).len() && all_slots(self.edge_blocks@)[k] == w;
                assert(pool[k + 1] == w);
            }
        }
        assert(!order.contains(w));
        assert forall|i: int, j: int| 0 <= i < j < o2.len() implies o2[i] != o2[j] by {
            if j == order.len() {
                assert(order.contains(order[i]));
                assert(d.contains_key(order[i]));
            }
        }
        assert forall|i: int| 0 <= i < o2.len() implies pool.contains(#[trigger] o2[i]) by {
            if i < order.len() {
                assert(o2[i] == order[i]);
            }
        }
        assert forall|i: int| 0 <= i < o2.len() implies #[trigger] d2.contains_key(o2[i]) && 0 <= d2[o2[i]] <= i by {
            if i < order.len() {
                assert(o2[i] == order[i]);
                assert(d.contains_key(order[i]));
            } else {
                assert(d[cur] <= head);
            }
        }
        assert forall|x: u64| #[trigger] d2.contains_key(x) implies o2.contains(x) by {
            if x == w {
                assert(o2[order.len() as int] == w);
            } else {
                assert(order.contains(x));
                let k = choose|k: int| 0 <= k < order.len() && order[k] == x;
                assert(o2[k] == x);
            }
        }
        assert forall|i: int, j: int| 0 <= i < j < o2.len() implies d2[#[trigger] o2[i]] <= d2[#[trigger] o2[j]] by {
            assert(o2[i] == order[i]);
            assert(d.contains_key(order[i]));
            if j < order.len() {
                assert(o2[j] == order[j]);
                assert(d.contains_key(order[j]));
            } else {
                if i < order.len() - 1 {
                    assert(d[order[i]] <= d[order[order.len() - 1]]);
                }
            }
        }
        assert(o2.last() == w);
        assert forall|i: int, x: u64| 0 <= i < head && #[trigger] self.neighbors_of(o2[i]).contains(x)
            implies d2.contains_key(x) && d2[x] <= d2[o2[i]] + 1 by {
            assert(o2[i] == order[i]);
            assert(d.contains_key(order[i]));
            assert(self.neighbors_of(order[i]).contains(x));
        }
        assert forall|x: u64| #[trigger] d2.contains_key(x) && x != start implies self.reached_from(d2, x) by {
            if x == w {
                assert(d2.contains_key(cur) && self.neighbors_of(cur).contains(w) && d2[cur] + 1 == d2[w]);
            } else {
                assert(self.reached_from(d, x));
                let u = choose|u: u64| d.contains_key(u) && #[trigger] self.neighbors_of(u).contains(x) && d[u] + 1 == d[x];
                assert(d2.contains_key(u) && self.neighbors_of(u).contains(x) && d2[u] + 1 == d2[x]);
            }
        }
    }

    proof fn lemma_bfs_advance(&self, start: u64, pool: Seq<u64>, d: Map<u64, i32>, order: Seq<u64>, head: int)
        requires
            self.bfs_ok(start, pool, d, order, head),
            0 <= head < order.len(),
            forall|w: u64| #[trigger] self.neighbors_of(order[head]).contains(w) ==> d.contains_key(w) && d[w] <= d[order[head]] + 1,
        ensures
            self.bfs_ok(start, pool, d, order, head + 1),
    {
        if head + 1 < order.len() {
            assert(d[order[head]] <= d[order[head + 1]]);
        }
        assert forall|i: int, x: u64| 0 <= i < head + 1 && #[trigger] self.neighbors_of(order[i]).contains(x)
            implies d.contains_key(x) && d[x] <= d[order[i]] + 1 by {
        }
        assert(self.bfs_frontier(d, order, head + 1));
    }

    proof fn lemma_bfs_done(&self, start: u64, pool: Seq<u64>, d: Map<u64, i32>, order: Seq<u64>)
        requires
            self.bfs_ok(start, pool, d, order, order.len() as int),
        ensures
            d.contains_key(start),
            d[start] == 0,
            forall|u: u64, w: u64| #[trigger] d.contains_key(u) && #[trigger] self.neighbors_of(u).contains(w)
                ==> d.contains_key(w) && d[w] <= d[u] + 1,
            forall|w: u64| #[trigger] d.contains_key(w) ==> d[w] >= 0,
    {
        assert(d.contains_key(order[0]));
        assert forall|u: u64, w: u64| #[trigger] d.contains_key(u) && #[trigger] self.neighbors_of(u).contains(w)
            implies d.contains_key(w) && d[w] <= d[u] + 1 by {
            assert(order.contains(u));
            let i = choose|i: int| 0 <= i < order.len() && order[i] == u;
            assert(self.neighbors_of(order[i]).contains(w));
        }
        assert forall|w: u64| #[trigger] d.contains_key(w) implies d[w] >= 0 by {
            assert(order.contains(w));
            let i = choose|i: int| 0 <= i < order.len() && order[i] == w;
            assert(d.contains_key(order[i]));
        }
    }

    /// Number of vertices, of blocks, and of stored edges.
    pub fn stats(&self) -> (r: (usize, usize, usize))
        requires
            self.wf(),
            self.edge_blocks@.len() * 32 <= usize::MAX,
        ensures
            r.0 == self.vertices@.len(),
            r.1 == self.edge_blocks@.len(),
            r.2 == total_stored(self.edge_blocks@),
    {
        let mut total: usize = 0;
        let mut i: usize = 0;
        while i < self.edge_blocks.len()
            invariant
                self.wf(),
                self.edge_blocks@.len() * 32 <= usize::MAX,
                i <= self.edge_blocks@.len(),
                total == total_stored(self.edge_blocks@.take(i as int)),
                total <= 32 * i,
            decreases self.edge_blocks@.len() - i,
        {
            proof {
                assert(self.edge_blocks@.take(i + 1).drop_last() =~= self.edge_blocks@.take(i as int));
                assert(self.edge_blocks@[i as int].wf());
            }
            total = total + self.edge_blocks[i].edge_count;
            i = i + 1;
        }
        proof {
            assert(self.edge_blocks@.take(i as int) =~= self.edge_blocks@);
        }
        (self.vertices.len(), self.edge_blocks.len(), total)
    }
}

/// Sum of the edge counts of the blocks.
pub open spec fn total_stored(blocks: Seq<EdgeBlock>) -> nat
    decreases blocks.len(),
{
    if blocks.len() == 0 {
        0
    } else {
        total_stored(blocks.drop_last()) + blocks.last().edge_count as nat
    }
}

impl EdgeBlock {
    /// A copy of this block.
    pub fn clone_block(&self) -> (r: EdgeBlock)
        ensures
            r.owner_vertex == self.owner_vertex,
            r.edge_count == self.edge_count,
            r.edges@ == self.edges@,
    {
        EdgeBlock { owner_vertex: self.owner_vertex, edge_count: self.edge_count, edges: self.edges.clone() }
    }
}

/// Every slot of every block, one block after the other.
pub open spec fn all_slots(blocks: Seq<EdgeBlock>) -> Seq<u64>
    decreases blocks.len(),
{
    if blocks.len() == 0 {
        seq![]
    } else {
        all_slots(blocks.drop_last()) + blocks.last().edges@
    }
}

proof fn lemma_all_slots_len(blocks: Seq<EdgeBlock>)
    requires
        forall|i: int| 0 <= i < blocks.len() ==> (#[trigger] blocks[i]).wf(),
    ensures
        all_slots(blocks).len() == 32 * blocks.len(),
    decreases blocks.len(),
{
    if blocks.len() > 0 {
        assert(blocks.last().wf());
        lemma_all_slots_len(blocks.drop_last());
    }
}

proof fn lemma_slot_in(blocks: Seq<EdgeBlock>, j: int, k: int)
    requires
        0 <= j < blocks.len(),
        0 <= k < blocks[j].edges@.len(),
    ensures
        all_slots(blocks).contains(blocks[j].edges@[k]),
    decreases blocks.len(),
{
    let front = all_slots(blocks.drop_last());
    if j == blocks.len() - 1 {
        assert(all_slots(blocks)[front.len() + k] == blocks[j].edges@[k]);
    } else {
        lemma_slot_in(blocks.drop_last(), j, k);
        let q = choose|q: int| 0 <= q < front.len() && front[q] == blocks[j].edges@[k];
        assert(all_slots(blocks)[q] == front[q]);
    }
}

proof fn lemma_nonzero_in(s: Seq<u64>, w: u64)
    requires
        nonzero(s).contains(w),
    ensures
        s.contains(w),
    decreases s.len(),
{
    if s.len() > 0 {
        let r = nonzero(s.drop_last());
        let q = choose|q: int| 0 <= q < nonzero(s).len() && nonzero(s)[q] == w;
        if q < r.len() {
            assert(r[q] == w);
            lemma_nonzero_in(s.drop_last(), w);
            let k = choose|k: int| 0 <= k < s.drop_last().len() && s.drop_last()[k] == w;
            assert(s[k] == w);
        } else {
            assert(s[s.len() - 1] == w);
        }
    }
}

proof fn lemma_scan_in(blocks: Seq<EdgeBlock>, v: u64, i: int, w: u64)
    requires
        forall|j: int| 0 <= j < blocks.len() ==> (#[trigger] blocks[j]).wf(),
        scan(blocks, v, i).contains(w),
    ensures
        all_slots(blocks).contains(w),
    decreases blocks.len() - i,
{
    if 0 <= i < blocks.len() && blocks[i].owner_vertex == v {
        let a = nonzero(blocks[i].stored());
        let q = choose|q: int| 0 <= q < scan(blocks, v, i).len() && scan(blocks, v, i)[q] == w;
        if q < a.len() {
            assert(a[q] == w);
            lemma_nonzero_in(blocks[i].stored(), w);
            let k = choose|k: int| 0 <= k < blocks[i].stored().len() && blocks[i].stored()[k] == w;
            assert(blocks[i].wf());
            assert(blocks[i].edges@[k] == w);
            lemma_slot_in(blocks, i, k);
        } else {
            assert(scan(blocks, v, i + 1)[q - a.len()] == w);
            lemma_scan_in(blocks, v, i + 1, w);
        }
    }
}

/// A sequence without repeats drawn from `pool` is no longer than `pool`.
pub(crate) proof fn lemma_visit_bound(pool: Seq<u64>, order: Seq<u64>)
    requires
        order.no_duplicates(),
        forall|i: int| 0 <= i < order.len() ==> pool.contains(#[trigger] order[i]),
    ensures
        order.len() <= pool.len(),
{
    order.unique_seq_to_set();
    pool.lemma_cardinality_of_set();
    assert(order.to_set().subset_of(pool.to_set())) by {
        assert forall|x: u64| #[trigger] order.to_set().contains(x) implies pool.to_set().contains(x) by {
            let i = choose|i: int| 0 <= i < order.len() && order[i] == x;
            assert(pool.contains(order[i]));
        }
    }
    vstd::set_lib::lemma_len_subset(order.to_set(), pool.to_set());
}

/// The non-zero entries of blocks `i..k`, one block after the other.
pub open spec fn run_nz(blocks: Seq<EdgeBlock>, i: int, k: int) -> Seq<u64>
    decreases k - i,
{
    if k <= i {
        seq![]
    } else {
        run_nz(blocks, i, k - 1) + nonzero(blocks[k - 1].stored())
    }
}

proof fn lemma_nonzero_push(s: Seq<u64>, x: u64)
    ensures
        nonzero(s.push(x)) == nonzero(s) + nonzero(seq![x]),
{
    assert(s.push(x).drop_last() =~= s);
    assert(seq![x].drop_last() =~= Seq::<u64>::empty());
    assert(nonzero(Seq::<u64>::empty()) =~= Seq::<u64>::empty());
}

/// A block holding just `x` reads as `x` when it is not 0.
proof fn lemma_nonzero_one(s: Seq<u64>, x: u64)
    requires
        s =~= seq![x],
    ensures
        nonzero(s) == nonzero(seq![x]),
{
}

/// A run of blocks of `v` from `i` to `k` reads as their non-zero entries,
/// then what follows.
proof fn lemma_scan_run(blocks: Seq<EdgeBlock>, v: u64, i: int, k: int)
    requires
        0 <= i <= k <= blocks.len(),
        forall|j: int| i <= j < k ==> (#[trigger] blocks[j]).owner_vertex == v,
    ensures
        scan(blocks, v, i) == run_nz(blocks, i, k) + scan(blocks, v, k),
    decreases k - i,
{
    if i < k {
        lemma_scan_run(blocks, v, i + 1, k);
        lemma_run_nz_front(blocks, i, k);
        assert(scan(blocks, v, i) =~= nonzero(blocks[i].stored()) + (run_nz(blocks, i + 1, k) + scan(blocks, v, k)));
    } else {
        assert(run_nz(blocks, i, k) =~= Seq::<u64>::empty());
    }
}

proof fn lemma_run_nz_front(blocks: Seq<EdgeBlock>, i: int, k: int)
    requires
        i < k,
    ensures
        run_nz(blocks, i, k) == nonzero(blocks[i].stored()) + run_nz(blocks, i + 1, k),
    decreases k - i,
{
    if i + 1 < k {
        lemma_run_nz_front(blocks, i, k - 1);
        assert(run_nz(blocks, i, k) =~= nonzero(blocks[i].stored()) + run_nz(blocks, i + 1, k));
    } else {
        assert(run_nz(blocks, i + 1, k) =~= Seq::<u64>::empty());
        assert(run_nz(blocks, i, k - 1) =~= Seq::<u64>::empty());
        assert(run_nz(blocks, i, k) =~= nonzero(blocks[i].stored()));
    }
}

/// A block of `v` that ends the array reads as itself.
proof fn lemma_scan_last(blocks: Seq<EdgeBlock>, v: u64, i: int)
    requires
        blocks.len() > 0,
        i == blocks.len() - 1,
        blocks[i].owner_vertex == v,
    ensures
        scan(blocks, v, i) == nonzero(blocks[i].stored()),
{
    assert(scan(blocks, v, i + 1) =~= Seq::<u64>::empty());
    assert(scan(blocks, v, i) =~= nonzero(blocks[i].stored()));
}

/// Blocks `i..k` read alike in two arrays that agree on them.
proof fn lemma_run_nz_frame(b1: Seq<EdgeBlock>, b2: Seq<EdgeBlock>, i: int, k: int)
    requires
        forall|j: int| i <= j < k ==> #[trigger] b1[j] == b2[j],
    ensures
        run_nz(b1, i, k) == run_nz(b2, i, k),
    decreases k - i,
{
    if i < k {
        lemma_run_nz_frame(b1, b2, i, k - 1);
    }
}

/// Blocks copied from `i..i + c` of `b1` to `j..j + c` of `b2` read alike.
proof fn lemma_run_nz_shift(b1: Seq<EdgeBlock>, b2: Seq<EdgeBlock>, i: int, j: int, c: int)
    requires
        c >= 0,
        forall|t: int| 0 <= t < c ==> (#[trigger] b2[j + t]).stored() == b1[i + t].stored(),
    ensures
        run_nz(b2, j, j + c) == run_nz(b1, i, i + c),
    decreases c,
{
    if c > 0 {
        lemma_run_nz_shift(b1, b2, i, j, c - 1);
        assert(b2[j + (c - 1)].stored() == b1[i + (c - 1)].stored());
    }
}

/// Index `j` belongs to `v` in both arrays or in neither, and when it
/// does, with the same non-zero entries.
pub open spec fn agree(b1: Seq<EdgeBlock>, b2: Seq<EdgeBlock>, v: u64, j: int) -> bool {
    &&& (0 <= j < b1.len() && b1[j].owner_vertex == v) == (0 <= j < b2.len() && b2[j].owner_vertex == v)
    &&& (0 <= j < b1.len() && b1[j].owner_vertex == v ==> nonzero(b1[j].stored()) == nonzero(b2[j].stored()))
}

proof fn lemma_scan_same(b1: Seq<EdgeBlock>, b2: Seq<EdgeBlock>, v: u64, i: int)
    requires
        i >= 0,
        forall|j: int| i <= j ==> #[trigger] agree(b1, b2, v, j),
    ensures
        scan(b1, v, i) == scan(b2, v, i),
    decreases b1.len() + b2.len() - i,
{
    assert(agree(b1, b2, v, i));
    if 0 <= i < b1.len() && b1[i].owner_vertex == v {
        lemma_scan_same(b1, b2, v, i + 1);
    }
}

/// Pushing a block of `owner` leaves every other vertex's scans.
proof fn lemma_scan_frame_push(b1: Seq<EdgeBlock>, b2: Seq<EdgeBlock>)
    requires
        b2.len() == b1.len() + 1,
        forall|j: int| 0 <= j < b1.len() ==> #[trigger] b2[j] == b1[j],
    ensures
        forall|v: u64, i: int| 0 <= i && v != b2[b1.len() as int].owner_vertex ==> #[trigger] scan(b2, v, i) == scan(b1, v, i),
{
    assert forall|v: u64, i: int| 0 <= i && v != b2[b1.len() as int].owner_vertex implies #[trigger] scan(b2, v, i) == scan(b1, v, i) by {
        assert forall|j: int| i <= j implies #[trigger] agree(b1, b2, v, j) by {
            if j < b1.len() {
                assert(b2[j] == b1[j]);
            }
        }
        lemma_scan_same(b1, b2, v, i);
    }
}

/// Changing block `k` but not its owner leaves every other vertex's scans.
proof fn lemma_scan_frame_update(b1: Seq<EdgeBlock>, b2: Seq<EdgeBlock>, k: int)
    requires
        b2.len() == b1.len(),
        0 <= k < b1.len(),
        b2[k].owner_vertex == b1[k].owner_vertex,
        forall|j: int| 0 <= j < b1.len() && j != k ==> #[trigger] b2[j] == b1[j],
    ensures
        forall|v: u64, i: int| 0 <= i && v != b1[k].owner_vertex ==> #[trigger] scan(b2, v, i) == scan(b1, v, i),
{
    assert forall|v: u64, i: int| 0 <= i && v != b1[k].owner_vertex implies #[trigger] scan(b2, v, i) == scan(b1, v, i) by {
        assert forall|j: int| i <= j implies #[trigger] agree(b1, b2, v, j) by {
            if 0 <= j < b1.len() && j != k {
                assert(b2[j] == b1[j]);
            }
        }
        lemma_scan_same(b1, b2, v, i);
    }
}

/// Moving the run `start..cur` of `v` to the end (old blocks kept with
/// owner `v`) leaves every other vertex's scans.
proof fn lemma_scan_frame_reloc(b1: Seq<EdgeBlock>, b2: Seq<EdgeBlock>, v: u64, start: int, cur: int)
    requires
        b2.len() > b1.len(),
        0 <= start <= cur <= b1.len(),
        forall|j: int| 0 <= j < b1.len() && !(start <= j < cur) ==> #[trigger] b2[j] == b1[j],
        forall|j: int| start <= j < cur ==> (#[trigger] b2[j]).owner_vertex == v && b1[j].owner_vertex == v,
        forall|j: int| b1.len() <= j < b2.len() ==> (#[trigger] b2[j]).owner_vertex == v,
    ensures
        forall|w: u64, i: int| 0 <= i && w != v ==> #[trigger] scan(b2, w, i) == scan(b1, w, i),
{
    assert forall|w: u64, i: int| 0 <= i && w != v implies #[trigger] scan(b2, w, i) == scan(b1, w, i) by {
        assert forall|j: int| i <= j implies #[trigger] agree(b1, b2, w, j) by {
            if 0 <= j < b1.len() && !(start <= j < cur) {
                assert(b2[j] == b1[j]);
            }
            if start <= j < cur {
                assert(b2[j].owner_vertex == v && b1[j].owner_vertex == v);
            }
            if b1.len() <= j < b2.len() {
                assert(b2[j].owner_vertex == v);
            }
        }
        lemma_scan_same(b1, b2, w, i);
    }
}

proof fn lemma_total_push(b: Seq<EdgeBlock>, x: EdgeBlock)
    ensures
        total_stored(b.push(x)) == total_stored(b) + x.edge_count,
{
    assert(b.push(x).drop_last() =~= b);
}

proof fn lemma_total_update(b: Seq<EdgeBlock>, k: int, x: EdgeBlock)
    requires
        0 <= k < b.len(),
    ensures
        total_stored(b.update(k, x)) == total_stored(b) - b[k].edge_count + x.edge_count,
    decreases b.len(),
{
    if k < b.len() - 1 {
        assert(b.update(k, x).drop_last() =~= b.drop_last().update(k, x));
        lemma_total_update(b.drop_last(), k, x);
    } else {
        assert(b.update(k, x).drop_last() =~= b.drop_last());
    }
}

} // verus!
