//! Breadth-first search over the forward blocks of an EdgeBlock graph, by
//! vertex index: the hop distance of every vertex reached from a source.

use vstd::prelude::*;
use crate::edge_store::{read_adjacency, lemma_adjacency_in_range};
use crate::gpu_edge_block::GPUEdgeBlockGraph;

verus! {

/// Distance of a vertex not reached.
pub open spec fn not_reached() -> u32 {
    u32::MAX
}

/// Number of entries of `d` that are not reached.
pub open spec fn count_unreached(d: Seq<u32>) -> nat
    decreases d.len(),
{
    if d.len() == 0 {
        0
    } else {
        count_unreached(d.drop_last()) + if d.last() == not_reached() { 1nat } else { 0nat }
    }
}

proof fn lemma_count_unreached_update(d: Seq<u32>, i: int, x: u32)
    requires
        0 <= i < d.len(),
        d[i] == not_reached(),
        x != not_reached(),
    ensures
        count_unreached(d.update(i, x)) + 1 == count_unreached(d),
    decreases d.len(),
{
    if i < d.len() - 1 {
        assert(d.update(i, x).drop_last() =~= d.drop_last().update(i, x));
        lemma_count_unreached_update(d.drop_last(), i, x);
    } else {
        assert(d.update(i, x).drop_last() =~= d.drop_last());
    }
}

proof fn lemma_count_unreached_all(d: Seq<u32>)
    requires
        forall|i: int| 0 <= i < d.len() ==> d[i] == not_reached(),
    ensures
        count_unreached(d) == d.len(),
    decreases d.len(),
{
    if d.len() > 0 {
        lemma_count_unreached_all(d.drop_last());
    }
}

proof fn lemma_count_unreached_le(d: Seq<u32>)
    ensures
        count_unreached(d) <= d.len(),
    decreases d.len(),
{
    if d.len() > 0 {
        lemma_count_unreached_le(d.drop_last());
    }
}

/// An unreached entry makes the count positive.
proof fn lemma_count_unreached_pos(d: Seq<u32>, i: int)
    requires
        0 <= i < d.len(),
        d[i] == not_reached(),
    ensures
        count_unreached(d) >= 1,
{
    lemma_count_unreached_update(d, i, 0);
}

impl GPUEdgeBlockGraph {
    /// The BFS state: `order` lists the reached indices in the order
    /// reached, `d` holds their distances (and [`not_reached`] elsewhere).
    #[verifier::opaque]
    pub open spec fn bfs_inv(&self, src: Option<int>, d: Seq<u32>, order: Seq<usize>, head: int) -> bool {
        let n = self.idx_to_id@.len() as int;
        &&& d.len() == n
        &&& 0 <= head <= order.len()
        &&& order.no_duplicates()
        &&& forall|i: int| 0 <= i < order.len() ==> (#[trigger] order[i] as int) < n
        &&& forall|x: int| 0 <= x < n ==> (#[trigger] d[x] != not_reached() <==> order.contains(x as usize))
        &&& count_unreached(d) + order.len() == n
        &&& forall|i: int| 0 <= i < order.len() ==> d[#[trigger] order[i] as int] <= i
        &&& forall|i: int, j: int| 0 <= i < j < order.len() ==> d[#[trigger] order[i] as int] <= d[#[trigger] order[j] as int]
        &&& head < order.len() ==> d[order.last() as int] <= d[order[head] as int] + 1
        &&& forall|i: int, k: int|
            0 <= i < head && 0 <= k < self.out_adj(order[i] as int).len() ==> {
                let t = #[trigger] self.out_adj(order[i] as int)[k] as int;
                t < n ==> d[t] != not_reached() && d[t] <= d[order[i] as int] + 1
            }
        &&& match src {
            Some(s) => order.len() >= 1 && order[0] == s && d[s] == 0,
            None => order.len() == 0,
        }
        &&& forall|w: int|
            0 <= w < n && #[trigger] d[w] != not_reached() && src != Some(w) ==> exists|u: int|
                0 <= u < n && d[u] != not_reached() && self.out_adj(u).contains(w as u32) && #[trigger] self.bfs_step(d, u, w)
    }

    /// `w` is one step further than `u`.
    pub open spec fn bfs_step(&self, d: Seq<u32>, u: int, w: int) -> bool {
        d[w] == d[u] + 1
    }

    /// Reaching index `t` from the vertex at `head` keeps the BFS state.
    proof fn lemma_bfs_push(&self, src: Option<int>, d0: Seq<u32>, o0: Seq<usize>, head: int, t: int)
        requires
            self.bfs_inv(src, d0, o0, head),
            head < o0.len(),
            0 <= t < d0.len(),
            d0[t] == not_reached(),
            self.out_adj(o0[head] as int).contains(t as u32),
            d0.len() <= u32::MAX,
        ensures
            o0.len() < d0.len(),
            d0[o0[head] as int] + 1 < not_reached(),
            self.bfs_inv(src, d0.update(t, (d0[o0[head] as int] + 1) as u32), o0.push(t as usize), head),
    {
        reveal(GPUEdgeBlockGraph::bfs_inv);
        let n = d0.len() as int;
        let cur = o0[head];
        lemma_count_unreached_pos(d0, t);
        assert(!o0.contains(t as usize));
        assert(o0.len() < n);
        assert(o0.contains(cur));
        let dc = d0[cur as int];
        assert(dc <= head);
        let nd = (dc + 1) as u32;
        assert(nd != not_reached());
        let d1 = d0.update(t, nd);
        let o1 = o0.push(t as usize);
        lemma_count_unreached_update(d0, t, nd);
        assert forall|a: int, b: int| 0 <= a < o1.len() && 0 <= b < o1.len() && a != b implies o1[a] != o1[b] by {
            if a == o0.len() {
                assert(o1[b] == o0[b]);
                if o0[b] == t as usize {
                    assert(o0.contains(t as usize));
                }
            } else if b == o0.len() {
                assert(o1[a] == o0[a]);
                if o0[a] == t as usize {
                    assert(o0.contains(t as usize));
                }
            } else {
                assert(o1[a] == o0[a] && o1[b] == o0[b]);
            }
        }
        assert(o1.no_duplicates());
        assert forall|i: int| 0 <= i < o0.len() implies o0[i] as int != t by {
            if o0[i] as int == t {
                assert(o0.contains(t as usize));
            }
        }
        assert forall|x: int| 0 <= x < n implies (#[trigger] d1[x] != not_reached() <==> o1.contains(x as usize)) by {
            if x == t {
                assert(o1[o0.len() as int] == t as usize);
            } else {
                if o1.contains(x as usize) {
                    let q = choose|q: int| 0 <= q < o1.len() && o1[q] == x as usize;
                    if q < o0.len() {
                        assert(o0[q] == x as usize);
                    }
                }
                if o0.contains(x as usize) {
                    let q = choose|q: int| 0 <= q < o0.len() && o0[q] == x as usize;
                    assert(o1[q] == x as usize);
                }
            }
        }
        assert forall|i: int| 0 <= i < o1.len() implies d1[#[trigger] o1[i] as int] <= i by {
            if i < o0.len() {
                assert(o1[i] == o0[i]);
            }
        }
        assert forall|i: int, j: int| 0 <= i < j < o1.len() implies d1[#[trigger] o1[i] as int] <= d1[#[trigger] o1[j]
            as int] by {
            assert(o1[i] == o0[i]);
            if j < o0.len() {
                assert(o1[j] == o0[j]);
            } else if i >= head {
                if i < o0.len() - 1 {
                    assert(d0[o0[i] as int] <= d0[o0.last() as int]);
                }
            } else {
                assert(d0[o0[i] as int] <= d0[o0[head] as int]);
            }
        }
        assert forall|i: int, k: int|
            0 <= i < head && 0 <= k < self.out_adj(o1[i] as int).len() implies {
                let tt = #[trigger] self.out_adj(o1[i] as int)[k] as int;
                tt < n ==> d1[tt] != not_reached() && d1[tt] <= d1[o1[i] as int] + 1
            } by {
            assert(o1[i] == o0[i]);
        }
        assert forall|w: int|
            0 <= w < n && #[trigger] d1[w] != not_reached() && src != Some(w) implies exists|u: int|
                0 <= u < n && d1[u] != not_reached() && self.out_adj(u).contains(w as u32) && #[trigger] self.bfs_step(
                    d1,
                    u,
                    w,
                ) by {
            if w == t {
                assert(self.bfs_step(d1, cur as int, w));
            } else {
                let u = choose|u: int|
                    0 <= u < n && d0[u] != not_reached() && self.out_adj(u).contains(w as u32) && #[trigger] self.bfs_step(
                        d0,
                        u,
                        w,
                    );
                assert(u != t);
                assert(self.bfs_step(d1, u, w));
            }
        }
        match src {
            Some(s) => {
                assert(o1[0] == o0[0]);
            },
            None => {},
        }
    }

    /// What the search reads of the vertex at `head`.
    proof fn lemma_bfs_head(&self, src: Option<int>, d: Seq<u32>, o: Seq<usize>, head: int)
        requires
            self.bfs_inv(src, d, o, head),
            head < o.len(),
        ensures
            o.len() <= d.len(),
            d.len() == self.idx_to_id@.len(),
            o[head] < d.len(),
            d[o[head] as int] <= head,
            d[o[head] as int] != not_reached(),
    {
        reveal(GPUEdgeBlockGraph::bfs_inv);
        lemma_count_unreached_le(d);
        assert(o.contains(o[head]));
    }

    /// A vertex already reached is at most one hop further than the vertex
    /// at `head`.
    proof fn lemma_bfs_near(&self, src: Option<int>, d: Seq<u32>, o: Seq<usize>, head: int, t: int)
        requires
            self.bfs_inv(src, d, o, head),
            head < o.len(),
            0 <= t < d.len(),
            d.len() <= usize::MAX,
            d[t] != not_reached(),
        ensures
            d[t] <= d[o[head] as int] + 1,
    {
        reveal(GPUEdgeBlockGraph::bfs_inv);
        assert(o.contains(t as usize));
        let q = choose|q: int| 0 <= q < o.len() && o[q] == t as usize;
        assert(o[q] as int == t);
        if q < o.len() - 1 {
            assert(d[o[q] as int] <= d[o[o.len() - 1] as int]);
        }
    }

    /// Once every out-neighbour of the vertex at `head` is reached at most
    /// one hop further, the search moves on to the next one.
    proof fn lemma_bfs_advance(&self, src: Option<int>, d: Seq<u32>, o: Seq<usize>, head: int)
        requires
            self.bfs_inv(src, d, o, head),
            head < o.len(),
            forall|k: int| 0 <= k < self.out_adj(o[head] as int).len() ==> {
                let t = #[trigger] self.out_adj(o[head] as int)[k] as int;
                t < d.len() ==> d[t] != not_reached() && d[t] <= d[o[head] as int] + 1
            },
        ensures
            self.bfs_inv(src, d, o, head + 1),
    {
        reveal(GPUEdgeBlockGraph::bfs_inv);
        if head + 1 < o.len() {
            assert(d[o[head] as int] <= d[o[head + 1] as int]);
        }
    }

    /// The bounds the search keeps: `head <= order.len() <= n`.
    proof fn lemma_bfs_bounds(&self, src: Option<int>, d: Seq<u32>, o: Seq<usize>, head: int)
        requires
            self.bfs_inv(src, d, o, head),
        ensures
            d.len() == self.idx_to_id@.len(),
            0 <= head <= o.len() <= d.len(),
    {
        reveal(GPUEdgeBlockGraph::bfs_inv);
        lemma_count_unreached_le(d);
    }

    /// In the finished search every neighbour of a reached vertex is
    /// reached at most one hop further.
    proof fn lemma_bfs_closed(&self, src: Option<int>, d: Seq<u32>, o: Seq<usize>, u: int, k: int)
        requires
            d.len() <= usize::MAX,
            self.bfs_inv(src, d, o, o.len() as int),
            0 <= u < d.len(),
            d[u] != not_reached(),
            0 <= k < self.out_adj(u).len(),
        ensures
            (self.out_adj(u)[k] as int) < d.len() ==> d[self.out_adj(u)[k] as int] != not_reached()
                && d[self.out_adj(u)[k] as int] <= d[u] + 1,
    {
        reveal(GPUEdgeBlockGraph::bfs_inv);
        assert(o.contains(u as usize));
        let i = choose|i: int| 0 <= i < o.len() && o[i] == u as usize;
        assert(o[i] as int == u);
        let t = self.out_adj(o[i] as int)[k] as int;
        assert(t < d.len() ==> d[t] != not_reached() && d[t] <= d[o[i] as int] + 1);
    }

    /// In the finished search every reached vertex but the source is one
    /// hop further than a reached vertex with an edge to it.
    proof fn lemma_bfs_parent(&self, src: Option<int>, d: Seq<u32>, o: Seq<usize>, w: int)
        requires
            d.len() <= usize::MAX,
            self.bfs_inv(src, d, o, o.len() as int),
            0 <= w < d.len(),
            d[w] != not_reached(),
            src != Some(w),
        ensures
            exists|u: int| 0 <= u < d.len() && d[u] != not_reached() && self.out_adj(u).contains(w as u32) && d[w] == d[u] + 1,
    {
        reveal(GPUEdgeBlockGraph::bfs_inv);
        let u = choose|u: int|
            0 <= u < d.len() && d[u] != not_reached() && self.out_adj(u).contains(w as u32) && #[trigger] self.bfs_step(d, u, w);
        assert(self.bfs_step(d, u, w));
    }

    /// The finished search from an unknown source reaches nothing, and from
    /// a known one gives the source distance 0.
    proof fn lemma_bfs_source(&self, src: Option<int>, d: Seq<u32>, o: Seq<usize>)
        requires
            d.len() <= usize::MAX,
            self.bfs_inv(src, d, o, o.len() as int),
        ensures
            src is None ==> forall|x: int| 0 <= x < d.len() ==> d[x] == not_reached(),
            src matches Some(s) ==> d[s] == 0,
    {
        reveal(GPUEdgeBlockGraph::bfs_inv);
        if src is None {
            assert forall|x: int| 0 <= x < d.len() implies d[x] == not_reached() by {
                if d[x] != not_reached() {
                    assert(o.contains(x as usize));
                }
            }
        }
    }

    /// Hop distances from vertex `source`, by index: 0 at the source,
    /// [`not_reached`] for a vertex not reached (every vertex, when `source`
    /// is unknown). Every neighbour of a reached vertex is reached at most
    /// one hop further, and every reached vertex but the source is one hop
    /// further than some reached vertex with an edge to it; so the
    /// distances are those of shortest paths.
    #[verifier::rlimit(60)]
    pub fn bfs_distances(&self, source: u64) -> (dist: Vec<u32>)
        requires
            self.wf(),
        ensures
            dist@.len() == self.idx_to_id@.len(),
            !self.has(source) ==> forall|x: int| 0 <= x < dist@.len() ==> dist@[x] == not_reached(),
            self.has(source) ==> dist@[self.index_of(source)] == 0,
            forall|u: int, k: int|
                0 <= u < dist@.len() && dist@[u] != not_reached() && 0 <= k < self.out_adj(u).len() ==> {
                    let t = #[trigger] self.out_adj(u)[k] as int;
                    t < dist@.len() ==> dist@[t] != not_reached() && dist@[t] <= dist@[u] + 1
                },
            forall|w: int|
                0 <= w < dist@.len() && #[trigger] dist@[w] != not_reached() && !(self.has(source) && w == self.index_of(
                    source,
                )) ==> exists|u: int|
                    0 <= u < dist@.len() && dist@[u] != not_reached() && self.out_adj(u).contains(w as u32) && dist@[w]
                        == dist@[u] + 1,
    {
        let n = self.idx_to_id.len();
        let mut dist: Vec<u32> = Vec::new();
        let mut k: usize = 0;
        while k < n
            invariant
                k <= n,
                dist@.len() == k,
                forall|x: int| 0 <= x < k ==> dist@[x] == not_reached(),
            decreases n - k,
        {
            dist.push(u32::MAX);
            k = k + 1;
        }
        proof {
            lemma_count_unreached_all(dist@);
        }
        let mut order: Vec<usize> = Vec::new();
        let ghost mut src: Option<int> = None;
        match self.id_to_idx.get(&source) {
            Some(s) => {
                let s = *s;
                let ghost d0 = dist@;
                dist.set(s, 0);
                order.push(s);
                proof {
                    src = Some(s as int);
                    lemma_count_unreached_update(d0, s as int, 0);
                    assert forall|x: int| 0 <= x < n implies (#[trigger] dist@[x] != not_reached() <==> order@.contains(
                        x as usize,
                    )) by {
                        if x == s as int {
                            assert(order@[0] == s);
                        }
                        if order@.contains(x as usize) {
                            assert(order@[0] == x as usize);
                        }
                    }
                }
            },
            None => {},
        }
        assert(self.bfs_inv(src, dist@, order@, 0)) by {
            reveal(GPUEdgeBlockGraph::bfs_inv);
        }
        proof {
            self.lemma_bfs_bounds(src, dist@, order@, 0);
        }
        let mut head: usize = 0;
        while head < order.len()
            invariant
                self.wf(),
                n == self.idx_to_id@.len(),
                self.bfs_inv(src, dist@, order@, head as int),
                dist@.len() == n,
                head <= order@.len() <= n,
                src == (if self.has(source) { Some(self.index_of(source)) } else { None::<int> }),
            decreases n - head,
        {
            proof {
                self.lemma_bfs_head(src, dist@, order@, head as int);
            }
            let cur = order[head];
            let targets = read_adjacency(&self.vertices, &self.block_counts, &self.blocks, cur, Ghost(n as int));
            let dc = dist[cur];
            let mut e: usize = 0;
            while e < targets.len()
                invariant
                    self.wf(),
                    n == self.idx_to_id@.len(),
                    src == (if self.has(source) { Some(self.index_of(source)) } else { None::<int> }),
                    head < order@.len(),
                    cur == order@[head as int],
                    cur < n,
                    dc == dist@[cur as int],
                    dc <= head,
                    dc != not_reached(),
                    targets@ == self.out_adj(cur as int),
                    dist@.len() == n,
                    order@.len() <= n,
                    e <= targets@.len(),
                    self.bfs_inv(src, dist@, order@, head as int),
                    forall|k: int| 0 <= k < e ==> {
                        let t = #[trigger] targets@[k] as int;
                        t < n ==> dist@[t] != not_reached() && dist@[t] <= dc + 1
                    },
                decreases targets@.len() - e,
            {
                let t = targets[e] as usize;
                if t < n && dist[t] == u32::MAX {
                    let ghost d0 = dist@;
                    let ghost o0 = order@;
                    proof {
                        assert(targets@[e as int] == t as u32);
                        self.lemma_bfs_push(src, d0, o0, head as int, t as int);
                    }
                    dist.set(t, dc + 1);
                    order.push(t);
                } else if t < n {
                    proof {
                        self.lemma_bfs_near(src, dist@, order@, head as int, t as int);
                    }
                }
                e = e + 1;
            }
            proof {
                assert forall|k: int| 0 <= k < self.out_adj(order@[head as int] as int).len() implies {
                    let t = #[trigger] self.out_adj(order@[head as int] as int)[k] as int;
                    t < dist@.len() ==> dist@[t] != not_reached() && dist@[t] <= dist@[order@[head as int] as int] + 1
                } by {
                    assert(self.out_adj(order@[head as int] as int)[k] == targets@[k]);
                }
                self.lemma_bfs_advance(src, dist@, order@, head as int);
                self.lemma_bfs_bounds(src, dist@, order@, head + 1);
            }
            head = head + 1;
        }
        proof {
            let d = dist@;
            let o = order@;
            assert forall|u: int, k: int|
                0 <= u < d.len() && d[u] != not_reached() && 0 <= k < self.out_adj(u).len() implies {
                    let t = #[trigger] self.out_adj(u)[k] as int;
                    t < d.len() ==> d[t] != not_reached() && d[t] <= d[u] + 1
                } by {
                self.lemma_bfs_closed(src, d, o, u, k);
            }
            assert forall|w: int|
                0 <= w < d.len() && #[trigger] d[w] != not_reached() && !(self.has(source) && w == self.index_of(source))
                    implies exists|u: int|
                    0 <= u < d.len() && d[u] != not_reached() && self.out_adj(u).contains(w as u32) && d[w] == d[u] + 1 by {
                self.lemma_bfs_parent(src, d, o, w);
            }
            self.lemma_bfs_source(src, d, o);
        }
        dist
    }

    /// The reached vertices of a distance list `dist` (as
    /// [`GPUEdgeBlockGraph::bfs_distances`] gives), by index, each with its
    /// id and distance.
    pub fn reached_with_ids(&self, dist: &Vec<u32>) -> (r: Vec<(u64, u32)>)
        requires
            self.wf(),
            dist@.len() == self.idx_to_id@.len(),
        ensures
            r@ == reached_pairs(self.idx_to_id@, dist@),
    {
        let ghost d = dist@;
        let mut r: Vec<(u64, u32)> = Vec::new();
        let mut i: usize = 0;
        while i < dist.len()
            invariant
                dist@ == d,
                d.len() == self.idx_to_id@.len(),
                i <= d.len(),
                r@ == reached_pairs(self.idx_to_id@.take(i as int), d.take(i as int)),
            decreases d.len() - i,
        {
            proof {
                assert(d.take(i + 1).drop_last() =~= d.take(i as int));
                assert(self.idx_to_id@.take(i + 1).drop_last() =~= self.idx_to_id@.take(i as int));
            }
            if dist[i] != u32::MAX {
                r.push((self.idx_to_id[i], dist[i]));
            }
            i = i + 1;
        }
        proof {
            assert(d.take(i as int) =~= d);
            assert(self.idx_to_id@.take(i as int) =~= self.idx_to_id@);
        }
        r
    }
}

/// The pairs (id, distance) of the reached entries, in order.
pub open spec fn reached_pairs(ids: Seq<u64>, d: Seq<u32>) -> Seq<(u64, u32)>
    decreases d.len(),
{
    if d.len() == 0 || ids.len() != d.len() {
        Seq::empty()
    } else {
        let rest = reached_pairs(ids.drop_last(), d.drop_last());
        if d.last() != not_reached() {
            rest.push((ids.last(), d.last()))
        } else {
            rest
        }
    }
}

} // verus!
