//! Undirected graphs kept as adjacency sets, and triangle counting over
//! them, in full and for newly added edges.

use vstd::prelude::*;
use std::collections::HashSet;
use rand::Rng;
use vstd::std_specs::iter::IteratorSpec;

verus! {

broadcast use vstd::std_specs::hash::group_hash_axioms;

/// The elements of `s`, each once, in the order the set yields them.
pub fn set_elements(s: &HashSet<u32>) -> (v: Vec<u32>)
    ensures
        v@.to_set() == s@,
        v@.no_duplicates(),
        v@.len() == s@.len(),
{
    let mut v: Vec<u32> = Vec::new();
    let ghost all = vstd::std_specs::hash::spec_hash_keys_iter(s).remaining().unref();
    proof {
        vstd::std_specs::hash::axiom_spec_hash_keys_iter(s);
    }
    for x in iter: s.iter()
        invariant
            all == vstd::std_specs::hash::spec_hash_keys_iter(s).remaining().unref(),
            iter.seq().unref() == all,
            v@.len() == iter.index(),
            forall|i: int| 0 <= i < iter.index() ==> v@[i] == all[i],
    {
        v.push(*x);
    }
    proof {
        assert(v@ =~= all);
    }
    v
}

/// An undirected graph over the vertices `0..vertex_count`, as one set of
/// neighbours per vertex.
pub struct GraphWithAdjacencySets {
    vertex_count: usize,
    adjacency_sets: Vec<HashSet<u32>>,
}

/// The three values in increasing order.
pub open spec fn sort3(a: u32, b: u32, c: u32) -> (u32, u32, u32) {
    if a <= b {
        if b <= c {
            (a, b, c)
        } else if a <= c {
            (a, c, b)
        } else {
            (c, a, b)
        }
    } else {
        if a <= c {
            (b, a, c)
        } else if b <= c {
            (b, c, a)
        } else {
            (c, b, a)
        }
    }
}

impl GraphWithAdjacencySets {
    /// Number of vertices.
    pub closed spec fn n(&self) -> nat {
        self.vertex_count as nat
    }

    /// Neighbours of `u`.
    pub closed spec fn adj(&self, u: int) -> Set<u32> {
        self.adjacency_sets@[u]@
    }

    /// Whether `u` and `v` are joined.
    pub open spec fn joined(&self, u: int, v: int) -> bool {
        0 <= u < self.n() && 0 <= v < self.n() && self.adj(u).contains(v as u32)
    }

    /// One neighbour set per vertex, neighbours are vertices, no vertex is
    /// its own neighbour, and `v` neighbours `u` exactly when `u`
    /// neighbours `v`.
    pub closed spec fn wf(&self) -> bool {
        &&& self.adjacency_sets@.len() == self.vertex_count
        &&& self.vertex_count <= 0x1_0000_0000
        &&& forall|u: int| 0 <= u < self.vertex_count ==> (#[trigger] self.adj(u)).finite()
        &&& forall|u: int, v: u32| 0 <= u < self.vertex_count && #[trigger] self.adj(u).contains(v) ==> (v as int) < self.vertex_count
            && v as int != u && self.adj(v as int).contains(u as u32)
    }

    /// Joined pairs are symmetric, and no vertex is joined to itself.
    pub proof fn lemma_joined_symmetric(&self, u: int, v: int)
        requires
            self.wf(),
        ensures
            self.joined(u, v) ==> self.joined(v, u),
            !self.joined(u, u),
    {
        if self.joined(u, v) {
            assert(self.adj(u).contains(v as u32));
        }
        if self.joined(u, u) {
            assert(self.adj(u).contains(u as u32));
        }
    }

    /// Sum of the neighbour-set sizes of the vertices before `k`.
    pub closed spec fn degree_sum(&self, k: int) -> nat
        decreases k,
    {
        if k <= 0 {
            0
        } else {
            self.degree_sum(k - 1) + self.adj(k - 1).len()
        }
    }

    /// The edges, each as its ends in increasing order.
    pub open spec fn edge_pairs(&self) -> Set<(u32, u32)> {
        Set::new(|p: (u32, u32)| p.0 < p.1 && self.joined(p.0 as int, p.1 as int))
    }

    /// The joined pairs `(u, v)` with `u < k`, in both orders.
    spec fn arcs_upto(&self, k: int) -> Set<(u32, u32)> {
        Set::new(|p: (u32, u32)| (p.0 as int) < k && self.joined(p.0 as int, p.1 as int))
    }

    proof fn lemma_arcs_upto(&self, k: int)
        requires
            self.wf(),
            0 <= k <= self.n(),
        ensures
            self.arcs_upto(k).finite(),
            self.arcs_upto(k).len() == self.degree_sum(k),
        decreases k,
    {
        if k == 0 {
            assert(self.arcs_upto(0) =~= Set::<(u32, u32)>::empty());
        } else {
            self.lemma_arcs_upto(k - 1);
            let u = (k - 1) as u32;
            let f = |v: u32| (u, v);
            let row = self.adj(k - 1).map(f);
            assert(self.adj(k - 1).finite());
            assert(vstd::relations::injective_on(f, self.adj(k - 1)));
            vstd::set_lib::lemma_map_size(self.adj(k - 1), row, f);
            assert forall|p: (u32, u32)| #[trigger] row.contains(p) <==> (p.0 == u && self.joined(k - 1, p.1 as int)) by {
                if p.0 == u && self.joined(k - 1, p.1 as int) {
                    assert(f(p.1) == p);
                }
            }
            assert(self.arcs_upto(k) =~= self.arcs_upto(k - 1) + row);
            assert(self.arcs_upto(k - 1).disjoint(row));
            vstd::set_lib::lemma_set_disjoint_lens(self.arcs_upto(k - 1), row);
        }
    }

    /// The degrees add up to twice the number of edges.
    pub proof fn lemma_edge_pairs(&self)
        requires
            self.wf(),
        ensures
            self.edge_pairs().finite(),
            self.degree_sum(self.n() as int) == 2 * self.edge_pairs().len(),
    {
        let n = self.n() as int;
        self.lemma_arcs_upto(n);
        let all = self.arcs_upto(n);
        let lo = self.edge_pairs();
        let hi = Set::new(|p: (u32, u32)| p.0 > p.1 && self.joined(p.0 as int, p.1 as int));
        assert forall|p: (u32, u32)| #[trigger] all.contains(p) implies lo.contains(p) || hi.contains(p) by {
            self.lemma_joined_symmetric(p.0 as int, p.1 as int);
        }
        assert(all =~= lo + hi);
        assert(lo.subset_of(all));
        assert(hi.subset_of(all));
        vstd::set_lib::lemma_len_subset(lo, all);
        vstd::set_lib::lemma_len_subset(hi, all);
        let swap = |p: (u32, u32)| (p.1, p.0);
        assert(vstd::relations::injective_on(swap, lo));
        assert forall|p: (u32, u32)| #[trigger] lo.map(swap).contains(p) <==> hi.contains(p) by {
            if hi.contains(p) {
                self.lemma_joined_symmetric(p.0 as int, p.1 as int);
                assert(lo.contains((p.1, p.0)));
                assert(swap((p.1, p.0)) == p);
            }
            if lo.map(swap).contains(p) {
                let q = choose|q: (u32, u32)| lo.contains(q) && swap(q) == p;
                self.lemma_joined_symmetric(q.0 as int, q.1 as int);
            }
        }
        assert(lo.map(swap) =~= hi);
        vstd::set_lib::lemma_map_size(lo, hi, swap);
        assert(lo.disjoint(hi));
        vstd::set_lib::lemma_set_disjoint_lens(lo, hi);
    }

    /// The triangles, each as its vertices in increasing order.
    pub open spec fn triangles(&self) -> Set<(u32, u32, u32)> {
        Set::new(|t: (u32, u32, u32)| t.0 < t.1 < t.2 && self.joined(t.0 as int, t.1 as int)
            && self.joined(t.1 as int, t.2 as int) && self.joined(t.0 as int, t.2 as int))
    }

    /// The triangles through one of the given edges, each as its vertices in
    /// increasing order.
    pub open spec fn triangles_through(&self, edges: Seq<(u32, u32)>) -> Set<(u32, u32, u32)> {
        Set::new(|t: (u32, u32, u32)| exists|i: int, w: u32| 0 <= i < edges.len() && #[trigger] self.adj(edges[i].0 as int).contains(w)
            && self.adj(edges[i].1 as int).contains(w) && t == sort3(edges[i].0, edges[i].1, w))
    }

    /// A graph of `vertex_count` vertices and no edge.
    pub fn new(vertex_count: usize) -> (g: Self)
        requires
            vertex_count <= 0x1_0000_0000,
        ensures
            g.wf(),
            g.n() == vertex_count,
            forall|u: int| 0 <= u < vertex_count ==> #[trigger] g.adj(u) == Set::<u32>::empty(),
            g.degree_sum(g.n() as int) == 0,
    {
        let mut adjacency_sets: Vec<HashSet<u32>> = Vec::new();
        let mut i: usize = 0;
        while i < vertex_count
            invariant
                i <= vertex_count,
                adjacency_sets@.len() == i,
                forall|u: int| 0 <= u < i ==> #[trigger] adjacency_sets@[u]@ == Set::<u32>::empty(),
            decreases vertex_count - i,
        {
            adjacency_sets.push(HashSet::new());
            i = i + 1;
        }
        let g = GraphWithAdjacencySets { vertex_count, adjacency_sets };
        proof {
            g.lemma_degree_sum_empty(vertex_count as int);
        }
        g
    }

    /// Joins `u` and `v`; nothing when `u == v` or they are joined.
    pub fn add_edge(&mut self, u: u32, v: u32)
        requires
            old(self).wf(),
            (u as int) < old(self).n(),
            (v as int) < old(self).n(),
        ensures
            final(self).wf(),
            final(self).n() == old(self).n(),
            forall|a: int, b: int| #[trigger] final(self).joined(a, b) <==> old(self).joined(a, b)
                || (u != v && ((a == u && b == v) || (a == v && b == u))),
            final(self).degree_sum(final(self).n() as int) == old(self).degree_sum(old(self).n() as int) + (if u != v
                && !old(self).joined(u as int, v as int) { 2int } else { 0int }),
    {
        if u != v && !self.adjacency_sets[u as usize].contains(&v) {
            let ghost old_g = *old(self);
            let mut su = HashSet::new();
            std::mem::swap(&mut su, &mut self.adjacency_sets[u as usize]);
            su.insert(v);
            self.adjacency_sets.set(u as usize, su);
            let mut sv = HashSet::new();
            std::mem::swap(&mut sv, &mut self.adjacency_sets[v as usize]);
            sv.insert(u);
            self.adjacency_sets.set(v as usize, sv);
            proof {
                assert forall|a: int| 0 <= a < self.vertex_count implies (#[trigger] self.adj(a)).finite() by {
                    assert(old_g.adj(a).finite());
                }
                assert forall|a: int, b: u32| 0 <= a < self.vertex_count && #[trigger] self.adj(a).contains(b) implies (b as int) < self.vertex_count
                    && b as int != a && self.adj(b as int).contains(a as u32) by {
                    if !(a == u as int && b == v) && !(a == v as int && b == u) {
                        assert(old_g.adj(a).contains(b));
                    }
                }
                assert forall|a: int, b: int| #[trigger] self.joined(a, b) <==> old_g.joined(a, b)
                    || (u != v && ((a == u && b == v) || (a == v && b == u))) by {}
                assert forall|a: int| 0 <= a < self.vertex_count implies #[trigger] self.adj(a).len() == old_g.adj(a).len()
                    + (if a == u as int { 1int } else { 0int }) + (if a == v as int { 1int } else { 0int }) by {
                    if a == u as int {
                        assert(self.adj(a) =~= old_g.adj(a).insert(v));
                    } else if a == v as int {
                        assert(self.adj(a) =~= old_g.adj(a).insert(u));
                    } else {
                        assert(self.adj(a) == old_g.adj(a));
                    }
                }
                lemma_degree_sum_step(old_g, *self, u as int, v as int, self.vertex_count as int);
            }
        } else if u != v {
            proof {
                assert(self.adj(u as int).contains(v));
                assert(self.adj(v as int).contains(u));
            }
        }
    }

    /// Whether `u` and `v` are joined.
    pub fn has_edge(&self, u: u32, v: u32) -> (r: bool)
        requires
            self.wf(),
            (u as int) < self.n(),
        ensures
            r == self.joined(u as int, v as int),
    {
        let r = self.adjacency_sets[u as usize].contains(&v);
        proof {
            assert(r == self.adj(u as int).contains(v));
        }
        r
    }

    /// The neighbours of `v`.
    pub fn neighbors(&self, v: u32) -> (r: &HashSet<u32>)
        requires
            self.wf(),
            (v as int) < self.n(),
        ensures
            r@ == self.adj(v as int),
    {
        &self.adjacency_sets[v as usize]
    }

    /// Number of edges (joined pairs `u < v`): half the sum of the
    /// neighbour-set sizes. The sizes add up to at most `usize::MAX` (as
    /// they do for sets held in memory).
    pub fn edge_count(&self) -> (r: usize)
        requires
            self.wf(),
            self.degree_sum(self.n() as int) <= usize::MAX,
        ensures
            r == self.degree_sum(self.n() as int) / 2,
            r == self.edge_pairs().len(),
    {
        proof {
            self.lemma_edge_pairs();
        }
        let mut count: usize = 0;
        let mut i: usize = 0;
        while i < self.adjacency_sets.len()
            invariant
                self.wf(),
                self.degree_sum(self.n() as int) <= usize::MAX,
                i <= self.n(),
                count == self.degree_sum(i as int),
            decreases self.n() - i,
        {
            proof {
                self.lemma_degree_sum_mono(i + 1, self.n() as int);
            }
            count = count + self.adjacency_sets[i].len();
            i = i + 1;
        }
        count / 2
    }

    proof fn lemma_degree_sum_mono(&self, a: int, b: int)
        requires
            a <= b,
        ensures
            self.degree_sum(a) <= self.degree_sum(b),
        decreases b - a,
    {
        if a < b {
            self.lemma_degree_sum_mono(a, b - 1);
        }
    }
}

proof fn lemma_degree_sum_step(g0: GraphWithAdjacencySets, g1: GraphWithAdjacencySets, u: int, v: int, k: int)
    requires
        0 <= k <= g0.n(),
        g0.n() == g1.n(),
        u != v,
        forall|a: int| 0 <= a < g1.n() ==> #[trigger] g1.adj(a).len() == g0.adj(a).len()
            + (if a == u { 1int } else { 0int }) + (if a == v { 1int } else { 0int }),
    ensures
        g1.degree_sum(k) == g0.degree_sum(k) + (if 0 <= u < k { 1int } else { 0int }) + (if 0 <= v < k { 1int } else { 0int }),
    decreases k,
{
    if k > 0 {
        lemma_degree_sum_step(g0, g1, u, v, k - 1);
        assert(g1.adj(k - 1).len() == g0.adj(k - 1).len() + (if k - 1 == u { 1int } else { 0int }) + (if k - 1 == v { 1int } else { 0int }));
    }
}

/// `rand::Rng::gen_range(0..bound)` on the thread's generator: a random
/// number below `bound` (the call panics on an empty range, which
/// `requires` rules out). Nothing else is stated of it.
#[verifier::external_body]
fn random_below(bound: usize) -> (r: usize)
    requires
        bound > 0,
    ensures
        r < bound,
{
    rand::thread_rng().gen_range(0..bound)
}

/// `p` is an edge `(smaller, larger)` joined in `g1` and not in `g0`.
pub open spec fn recorded_pair(g0: GraphWithAdjacencySets, g1: GraphWithAdjacencySets, p: (u32, u32)) -> bool {
    p.0 < p.1 && g1.joined(p.0 as int, p.1 as int) && !g0.joined(p.0 as int, p.1 as int)
}

/// Some pair of `r` records the edge `{a, b}` as `(min(a, b), max(a, b))`.
pub open spec fn records_edge(r: Seq<(u32, u32)>, a: int, b: int) -> bool {
    exists|i: int|
        0 <= i < r.len() && (#[trigger] r[i]).0 as int == (if a <= b { a } else { b }) && r[i].1 as int == (if a <= b {
            b
        } else {
            a
        })
}

impl GraphWithAdjacencySets {
    /// A random graph of `vertex_count` vertices: pairs of random distinct
    /// vertices are joined until there are `edge_count` edges or
    /// `2 * edge_count` pairs have been drawn.
    pub fn generate(vertex_count: usize, edge_count: usize) -> (g: Self)
        requires
            vertex_count <= 0x1_0000_0000,
            edge_count > 0 ==> vertex_count > 0,
            edge_count <= usize::MAX / 4,
        ensures
            g.wf(),
            g.n() == vertex_count,
            g.degree_sum(g.n() as int) <= 4 * edge_count,
    {
        let mut graph = GraphWithAdjacencySets::new(vertex_count);
        proof {
            graph.lemma_degree_sum_empty(vertex_count as int);
        }
        let mut attempts: usize = 0;
        while graph.edge_count() < edge_count && attempts < edge_count * 2
            invariant
                graph.wf(),
                graph.n() == vertex_count,
                edge_count > 0 ==> vertex_count > 0,
                edge_count <= usize::MAX / 4,
                attempts <= edge_count * 2,
                graph.degree_sum(graph.n() as int) <= 2 * attempts,
            decreases edge_count * 2 - attempts,
        {
            let u = random_below(vertex_count) as u32;
            let v = random_below(vertex_count) as u32;
            if u != v {
                graph.add_edge(u, v);
            }
            attempts = attempts + 1;
        }
        graph
    }

    proof fn lemma_degree_sum_empty(&self, k: int)
        requires
            0 <= k <= self.n(),
            forall|u: int| 0 <= u < self.n() ==> #[trigger] self.adj(u) == Set::<u32>::empty(),
        ensures
            self.degree_sum(k) == 0,
        decreases k,
    {
        if k > 0 {
            self.lemma_degree_sum_empty(k - 1);
            assert(self.adj(k - 1).len() == 0);
        }
    }

    /// Joins up to `count` new random pairs of distinct vertices (drawing at
    /// most `2 * count` pairs) and lists each pair joined as
    /// `(min(u, v), max(u, v))`.
    pub fn add_new_edges(&mut self, count: usize) -> (r: Vec<(u32, u32)>)
        requires
            old(self).wf(),
            count > 0 ==> old(self).n() > 0,
            count <= usize::MAX / 2,
        ensures
            final(self).wf(),
            final(self).n() == old(self).n(),
            r@.len() <= count,
            forall|a: int, b: int| old(self).joined(a, b) ==> #[trigger] final(self).joined(a, b),
            forall|i: int| 0 <= i < r@.len() ==> recorded_pair(*old(self), *final(self), #[trigger] r@[i]),
            r@.no_duplicates(),
            forall|a: int, b: int| #[trigger] final(self).joined(a, b) ==> old(self).joined(a, b) || records_edge(r@, a, b),
            final(self).degree_sum(final(self).n() as int) == old(self).degree_sum(old(self).n() as int) + 2 * r@.len(),
    {
        let ghost g0 = *old(self);
        let n = self.vertex_count;
        let mut new_edges: Vec<(u32, u32)> = Vec::new();
        let mut attempts: usize = 0;
        while new_edges.len() < count && attempts < count * 2
            invariant
                self.wf(),
                self.n() == g0.n(),
                n == self.n(),
                count > 0 ==> n > 0,
                count <= usize::MAX / 2,
                attempts <= count * 2,
                new_edges@.len() <= count,
                forall|a: int, b: int| g0.joined(a, b) ==> #[trigger] self.joined(a, b),
                forall|i: int| 0 <= i < new_edges@.len() ==> recorded_pair(g0, *self, #[trigger] new_edges@[i]),
                new_edges@.no_duplicates(),
                forall|a: int, b: int| #[trigger] self.joined(a, b) ==> g0.joined(a, b) || records_edge(new_edges@, a, b),
                self.degree_sum(self.n() as int) == g0.degree_sum(g0.n() as int) + 2 * new_edges@.len(),
            decreases count * 2 - attempts,
        {
            let u = random_below(n) as u32;
            let v = random_below(n) as u32;
            if u != v && !self.has_edge(u, v) {
                let ghost before = *self;
                self.add_edge(u, v);
                let low = if u <= v { u } else { v };
                let high = if u <= v { v } else { u };
                let ghost e0 = new_edges@;
                new_edges.push((low, high));
                proof {
                    assert(self.joined(u as int, v as int));
                    assert(self.joined(v as int, u as int));
                    assert(!g0.joined(u as int, v as int));
                    assert(!before.joined(v as int, u as int)) by {
                        if before.joined(v as int, u as int) {
                            assert(before.adj(v as int).contains(u));
                            assert(before.adj(u as int).contains(v));
                        }
                    }
                    assert(!g0.joined(v as int, u as int));
                    assert(!before.joined(low as int, high as int));
                    assert forall|i: int| 0 <= i < new_edges@.len() implies recorded_pair(g0, *self, #[trigger] new_edges@[i]) by {
                        if i < e0.len() {
                            assert(recorded_pair(g0, before, e0[i]));
                            assert(new_edges@[i] == e0[i]);
                            assert(before.joined(e0[i].0 as int, e0[i].1 as int));
                        }
                    }
                    assert forall|a: int, b: int| 0 <= a < new_edges@.len() && 0 <= b < new_edges@.len() && a != b implies new_edges@[a]
                        != new_edges@[b] by {
                        if a < e0.len() && b < e0.len() {
                            assert(e0[a] != e0[b]);
                        } else if a == e0.len() {
                            assert(recorded_pair(g0, before, e0[b]));
                            assert(new_edges@[b] == e0[b]);
                        } else {
                            assert(recorded_pair(g0, before, e0[a]));
                            assert(new_edges@[a] == e0[a]);
                        }
                    }
                    assert forall|a: int, b: int| #[trigger] self.joined(a, b) implies g0.joined(a, b) || records_edge(new_edges@, a, b) by {
                        if before.joined(a, b) {
                            if !g0.joined(a, b) {
                                let i = choose|i: int|
                                    0 <= i < e0.len() && (#[trigger] e0[i]).0 as int == (if a <= b { a } else { b }) && e0[i].1 as int == (
                                    if a <= b {
                                        b
                                    } else {
                                        a
                                    });
                                assert(new_edges@[i] == e0[i]);
                            }
                        } else {
                            let last = new_edges@.len() - 1;
                            assert(new_edges@[last] == (low, high));
                        }
                    }
                }
            }
            attempts = attempts + 1;
        }
        new_edges
    }
}

/// Whether `t` is a triangle of `g` found by the time the scan is at
/// vertex `u`, second vertex in `vs` (or equal to `v` with third vertex in
/// `ws`).
pub open spec fn found_so_far(
    g: &GraphWithAdjacencySets,
    t: (u32, u32, u32),
    u: int,
    vs: Set<u32>,
    v: u32,
    ws: Set<u32>,
) -> bool {
    g.triangles().contains(t) && ((t.0 as int) < u || (t.0 as int == u && (vs.contains(t.1) || (t.1 == v && ws.contains(t.2)))))
}

/// All triangles of `g`, each once, as its vertices in increasing order
/// (in no particular order).
pub fn full_triangle_counting_set(g: &GraphWithAdjacencySets) -> (r: Vec<(u32, u32, u32)>)
    requires
        g.wf(),
    ensures
        r@.no_duplicates(),
        r@.to_set() == g.triangles(),
{
    let n = g.vertex_count;
    let mut out: Vec<(u32, u32, u32)> = Vec::new();
    let mut u: usize = 0;
    while u < n
        invariant
            g.wf(),
            n == g.n(),
            u <= n,
            out@.no_duplicates(),
            forall|t: (u32, u32, u32)| #[trigger] out@.contains(t) <==> found_so_far(g, t, u as int, Set::empty(), 0, Set::empty()),
        decreases n - u,
    {
        let nu = set_elements(&g.adjacency_sets[u]);
        let uu = u as u32;
        let mut i: usize = 0;
        while i < nu.len()
            invariant
                g.wf(),
                n == g.n(),
                u < n,
                uu == u,
                nu@.to_set() == g.adj(u as int),
                nu@.no_duplicates(),
                i <= nu@.len(),
                out@.no_duplicates(),
                forall|t: (u32, u32, u32)| #[trigger] out@.contains(t) <==> found_so_far(g, t, u as int, nu@.take(i as int).to_set(), 0, Set::empty()),
            decreases nu@.len() - i,
        {
            let v = nu[i];
            proof {
                assert(g.adj(u as int).contains(v)) by {
                    assert(nu@.to_set().contains(nu@[i as int]));
                }
            }
            if v > uu {
                let mut j: usize = 0;
                while j < nu.len()
                    invariant
                        g.wf(),
                        n == g.n(),
                        u < n,
                        uu == u,
                        v == nu@[i as int],
                        v > uu,
                        g.adj(u as int).contains(v),
                        nu@.to_set() == g.adj(u as int),
                        nu@.no_duplicates(),
                        i < nu@.len(),
                        j <= nu@.len(),
                        out@.no_duplicates(),
                        forall|t: (u32, u32, u32)| #[trigger] out@.contains(t) <==> found_so_far(g, t, u as int, nu@.take(i as int).to_set(), v, nu@.take(j as int).to_set()),
                    decreases nu@.len() - j,
                {
                    let w = nu[j];
                    proof {
                        assert(g.adj(u as int).contains(w)) by {
                            assert(nu@.to_set().contains(nu@[j as int]));
                        }
                        assert(nu@.take(j + 1).to_set() =~= nu@.take(j as int).to_set().insert(w)) by {
                            assert(nu@.take(j + 1) =~= nu@.take(j as int).push(w));
                            nu@.take(j as int).lemma_push_to_set_commute(w);
                        }
                    }
                    if w > v && g.adjacency_sets[v as usize].contains(&w) {
                        let ghost out0 = out@;
                        let t = (uu, v, w);
                        proof {
                            assert(!out0.contains(t)) by {
                                if out0.contains(t) {
                                    assert(found_so_far(g, t, u as int, nu@.take(i as int).to_set(), v, nu@.take(j as int).to_set()));
                                    if nu@.take(i as int).to_set().contains(v) {
                                        let k = choose|k: int| 0 <= k < nu@.take(i as int).len() && nu@.take(i as int)[k] == v;
                                        assert(nu@[k] == nu@[i as int]);
                                    } else {
                                        let k = choose|k: int| 0 <= k < nu@.take(j as int).len() && nu@.take(j as int)[k] == w;
                                        assert(nu@[k] == nu@[j as int]);
                                    }
                                }
                            }
                        }
                        out.push(t);
                        proof {
                            assert forall|x: (u32, u32, u32)| #[trigger] out@.contains(x) <==> found_so_far(g, x, u as int, nu@.take(i as int).to_set(), v, nu@.take(j + 1).to_set()) by {
                                if x == t {
                                    assert(out@[out0.len() as int] == t);
                                    assert(g.adj(v as int).contains(w));
                                    assert(g.joined(u as int, v as int));
                                    assert(g.joined(v as int, w as int));
                                    assert(g.joined(u as int, w as int));
                                    assert(g.triangles().contains(t));
                                    assert(nu@.take(j as int).to_set().insert(w).contains(w));
                                } else {
                                    let ws0 = nu@.take(j as int).to_set();
                                    let ws1 = nu@.take(j + 1).to_set();
                                    let vs = nu@.take(i as int).to_set();
                                    if out@.contains(x) {
                                        let k = choose|k: int| 0 <= k < out@.len() && out@[k] == x;
                                        assert(k < out0.len());
                                        assert(out0[k] == x);
                                        assert(out0.contains(x));
                                        assert(found_so_far(g, x, u as int, vs, v, ws0));
                                        assert(ws1.contains(x.2) || !ws0.contains(x.2));
                                    }
                                    if found_so_far(g, x, u as int, vs, v, ws1) {
                                        assert(found_so_far(g, x, u as int, vs, v, ws0));
                                        assert(out0.contains(x));
                                        let k = choose|k: int| 0 <= k < out0.len() && out0[k] == x;
                                        assert(out@[k] == x);
                                    }
                                }
                            }
                        }
                    } else {
                        proof {
                            assert forall|x: (u32, u32, u32)| #[trigger] out@.contains(x) <==> found_so_far(g, x, u as int, nu@.take(i as int).to_set(), v, nu@.take(j + 1).to_set()) by {
                                if x.0 == uu && x.1 == v && x.2 == w && g.triangles().contains(x) {
                                    assert(g.adj(v as int).contains(w));
                                }
                            }
                        }
                    }
                    j = j + 1;
                }
                proof {
                    assert(nu@.take(j as int) =~= nu@);
                    assert(nu@.take(i + 1).to_set() =~= nu@.take(i as int).to_set().insert(v)) by {
                        assert(nu@.take(i + 1) =~= nu@.take(i as int).push(v));
                        nu@.take(i as int).lemma_push_to_set_commute(v);
                    }
                    assert forall|x: (u32, u32, u32)| #[trigger] out@.contains(x) <==> found_so_far(g, x, u as int, nu@.take(i + 1).to_set(), 0, Set::empty()) by {
                        if x.0 == uu && x.1 == v && g.triangles().contains(x) {
                            assert(g.adj(u as int).contains(x.2));
                        }
                    }
                }
            } else {
                proof {
                    assert(nu@.take(i + 1).to_set() =~= nu@.take(i as int).to_set().insert(v)) by {
                        assert(nu@.take(i + 1) =~= nu@.take(i as int).push(v));
                        nu@.take(i as int).lemma_push_to_set_commute(v);
                    }
                    assert forall|x: (u32, u32, u32)| #[trigger] out@.contains(x) <==> found_so_far(g, x, u as int, nu@.take(i + 1).to_set(), 0, Set::empty()) by {}
                }
            }
            i = i + 1;
        }
        proof {
            assert(nu@.take(i as int) =~= nu@);
            assert forall|x: (u32, u32, u32)| #[trigger] out@.contains(x) <==> found_so_far(g, x, u + 1, Set::empty(), 0, Set::empty()) by {
                if x.0 as int == u && g.triangles().contains(x) {
                    assert(g.adj(u as int).contains(x.1));
                    assert(nu@.to_set().contains(x.1));
                }
            }
        }
        u = u + 1;
    }
    proof {
        assert(out@.to_set() =~= g.triangles()) by {
            assert forall|x: (u32, u32, u32)| #[trigger] g.triangles().contains(x) implies (x.0 as int) < n by {}
        }
    }
    out
}

/// Number of triangles of `g`.
pub fn full_triangle_counting(g: &GraphWithAdjacencySets) -> (r: usize)
    requires
        g.wf(),
    ensures
        r == g.triangles().len(),
        g.triangles().finite(),
{
    let t = full_triangle_counting_set(g);
    proof {
        t@.unique_seq_to_set();
    }
    t.len()
}

/// A triangle made of edge `e` and common neighbour `w`.
pub open spec fn closes(g: &GraphWithAdjacencySets, e: (u32, u32), w: u32, t: (u32, u32, u32)) -> bool {
    g.adj(e.0 as int).contains(w) && g.adj(e.1 as int).contains(w) && t == sort3(e.0, e.1, w)
}

/// Triangles found through the edges before `k`, and through edge `k`
/// with a common neighbour in `ws`.
pub open spec fn through_upto(g: &GraphWithAdjacencySets, edges: Seq<(u32, u32)>, k: int, ws: Set<u32>) -> Set<(u32, u32, u32)> {
    Set::new(|t: (u32, u32, u32)|
        (exists|i: int, w: u32| 0 <= i < k && #[trigger] closes(g, edges[i], w, t))
        || (exists|w: u32| ws.contains(w) && #[trigger] closes(g, edges[k], w, t)))
}

/// Key of a triangle in a hash set: its three vertices side by side.
pub open spec fn triple_key(t: (u32, u32, u32)) -> u128 {
    ((t.0 as u128) << 64u128) | ((t.1 as u128) << 32u128) | (t.2 as u128)
}

proof fn lemma_triple_key_injective(t: (u32, u32, u32), s: (u32, u32, u32))
    ensures
        triple_key(t) == triple_key(s) ==> t == s,
{
    let (a, b, c) = t;
    let (x, y, z) = s;
    assert((((a as u128) << 64u128) | ((b as u128) << 32u128) | (c as u128)) == (((x as u128) << 64u128) | ((y as u128) << 32u128) | (z as u128))
        ==> a == x && b == y && c == z) by (bit_vector);
}

/// The three values in increasing order.
fn sort_triple(a: u32, b: u32, c: u32) -> (r: (u32, u32, u32))
    ensures
        r == sort3(a, b, c),
{
    if a <= b {
        if b <= c {
            (a, b, c)
        } else if a <= c {
            (a, c, b)
        } else {
            (c, a, b)
        }
    } else {
        if a <= c {
            (b, a, c)
        } else if b <= c {
            (b, c, a)
        } else {
            (c, b, a)
        }
    }
}

/// Number of distinct triangles through the given (already added) edges:
/// for each edge and each common neighbour of its ends, the three vertices
/// in increasing order.
pub fn incremental_triangle_counting(g: &GraphWithAdjacencySets, new_edges: &[(u32, u32)]) -> (r: usize)
    requires
        g.wf(),
        forall|i: int| 0 <= i < new_edges@.len() ==> (#[trigger] new_edges@[i]).0 < g.n() && new_edges@[i].1 < g.n(),
    ensures
        g.triangles_through(new_edges@).finite(),
        r == g.triangles_through(new_edges@).len(),
{
    let ghost es = new_edges@;
    let mut found: Vec<(u32, u32, u32)> = Vec::new();
    let mut keys: HashSet<u128> = HashSet::new();
    let mut k: usize = 0;
    proof {
        assert(found@.to_set() =~= through_upto(g, es, 0, Set::empty()));
    }
    while k < new_edges.len()
        invariant
            g.wf(),
            es == new_edges@,
            forall|i: int| 0 <= i < es.len() ==> (#[trigger] es[i]).0 < g.n() && es[i].1 < g.n(),
            k <= es.len(),
            found@.no_duplicates(),
            found@.to_set() == through_upto(g, es, k as int, Set::empty()),
            forall|t: (u32, u32, u32)| #[trigger] found@.contains(t) <==> keys@.contains(triple_key(t)),
        decreases es.len() - k,
    {
        let (u, v) = new_edges[k];
        let nu = set_elements(g.neighbors(u));
        let mut j: usize = 0;
        proof {
            assert(found@.to_set() =~= through_upto(g, es, k as int, nu@.take(0).to_set()));
        }
        while j < nu.len()
            invariant
                g.wf(),
                es == new_edges@,
                forall|i: int| 0 <= i < es.len() ==> (#[trigger] es[i]).0 < g.n() && es[i].1 < g.n(),
                k < es.len(),
                (u, v) == es[k as int],
                nu@.to_set() == g.adj(u as int),
                j <= nu@.len(),
                found@.no_duplicates(),
                found@.to_set() == through_upto(g, es, k as int, nu@.take(j as int).to_set()),
                forall|t: (u32, u32, u32)| #[trigger] found@.contains(t) <==> keys@.contains(triple_key(t)),
            decreases nu@.len() - j,
        {
            let w = nu[j];
            let ghost ws0 = nu@.take(j as int).to_set();
            let ghost f0 = found@;
            proof {
                assert(nu@.take(j + 1) =~= nu@.take(j as int).push(w));
                nu@.take(j as int).lemma_push_to_set_commute(w);
                assert(g.adj(u as int).contains(w)) by {
                    assert(nu@.to_set().contains(nu@[j as int]));
                }
            }
            if g.neighbors(v).contains(&w) {
                let t = sort_triple(u, v, w);
                let key = ((t.0 as u128) << 64u128) | ((t.1 as u128) << 32u128) | (t.2 as u128);
                if !keys.contains(&key) {
                    proof {
                        assert(key == triple_key(t));
                        assert(!f0.contains(t));
                    }
                    keys.insert(key);
                    found.push(t);
                    proof {
                        assert forall|a: int, b: int| 0 <= a < b < found@.len() implies found@[a] != found@[b] by {
                            if b == f0.len() {
                                assert(found@[a] == f0[a]);
                                assert(f0.contains(f0[a]));
                            } else {
                                assert(found@[a] == f0[a]);
                                assert(found@[b] == f0[b]);
                            }
                        }
                        assert forall|x: (u32, u32, u32)| #[trigger] found@.contains(x) <==> keys@.contains(triple_key(x)) by {
                            lemma_triple_key_injective(x, t);
                            if f0.contains(x) {
                                let q = choose|q: int| 0 <= q < f0.len() && f0[q] == x;
                                assert(found@[q] == x);
                            }
                            if found@.contains(x) && x != t {
                                let q = choose|q: int| 0 <= q < found@.len() && found@[q] == x;
                                assert(f0[q] == x);
                            }
                            if x == t {
                                assert(found@[f0.len() as int] == t);
                            }
                        }
                    }
                }
                proof {
                    assert(closes(g, es[k as int], w, t));
                    assert(found@.to_set() =~= through_upto(g, es, k as int, nu@.take(j + 1).to_set())) by {
                        assert forall|x: (u32, u32, u32)| #[trigger] found@.to_set().contains(x) <==> through_upto(g, es, k as int, nu@.take(j + 1).to_set()).contains(x) by {
                            if found@.contains(x) && x != t {
                                let q = choose|q: int| 0 <= q < found@.len() && found@[q] == x;
                                assert(f0[q] == x);
                                assert(f0.to_set().contains(x));
                            }
                            if through_upto(g, es, k as int, nu@.take(j + 1).to_set()).contains(x) && x != t {
                                if exists|w2: u32| nu@.take(j + 1).to_set().contains(w2) && #[trigger] closes(g, es[k as int], w2, x) {
                                    let w2 = choose|w2: u32| nu@.take(j + 1).to_set().contains(w2) && #[trigger] closes(g, es[k as int], w2, x);
                                    assert(w2 != w);
                                    assert(ws0.contains(w2));
                                }
                                assert(through_upto(g, es, k as int, ws0).contains(x));
                                assert(f0.to_set().contains(x));
                                let q = choose|q: int| 0 <= q < f0.len() && f0[q] == x;
                                assert(found@[q] == x);
                            }
                            if x == t {
                                assert(keys@.contains(triple_key(t)));
                                assert(found@.contains(t));
                            }
                        }
                    }
                }
            } else {
                proof {
                    assert(found@.to_set() =~= through_upto(g, es, k as int, nu@.take(j + 1).to_set())) by {
                        assert forall|x: (u32, u32, u32)| #[trigger] through_upto(g, es, k as int, nu@.take(j + 1).to_set()).contains(x) implies through_upto(g, es, k as int, ws0).contains(x) by {
                            if exists|w2: u32| nu@.take(j + 1).to_set().contains(w2) && #[trigger] closes(g, es[k as int], w2, x) {
                                let w2 = choose|w2: u32| nu@.take(j + 1).to_set().contains(w2) && #[trigger] closes(g, es[k as int], w2, x);
                                if w2 == w {
                                    assert(g.adj(v as int).contains(w));
                                }
                                assert(ws0.contains(w2));
                            }
                        }
                    }
                }
            }
            j = j + 1;
        }
        proof {
            assert(nu@.take(j as int) =~= nu@);
            assert(found@.to_set() =~= through_upto(g, es, k + 1, Set::empty())) by {
                assert forall|x: (u32, u32, u32)| #[trigger] through_upto(g, es, k + 1, Set::empty()).contains(x) implies through_upto(g, es, k as int, nu@.to_set()).contains(x) by {
                    let (i, w2) = choose|i: int, w2: u32| 0 <= i < k + 1 && #[trigger] closes(g, es[i], w2, x);
                    if i == k {
                        assert(nu@.to_set().contains(w2));
                    }
                }
                assert forall|x: (u32, u32, u32)| #[trigger] through_upto(g, es, k as int, nu@.to_set()).contains(x) implies through_upto(g, es, k + 1, Set::empty()).contains(x) by {
                    if exists|w2: u32| nu@.to_set().contains(w2) && #[trigger] closes(g, es[k as int], w2, x) {
                        let w2 = choose|w2: u32| nu@.to_set().contains(w2) && #[trigger] closes(g, es[k as int], w2, x);
                        assert(closes(g, es[k as int], w2, x));
                    }
                }
            }
        }
        k = k + 1;
    }
    proof {
        assert(found@.to_set() =~= g.triangles_through(es)) by {
            assert forall|x: (u32, u32, u32)| #[trigger] g.triangles_through(es).contains(x) <==> through_upto(g, es, k as int, Set::empty()).contains(x) by {
                if g.triangles_through(es).contains(x) {
                    let (i, w2) = choose|i: int, w2: u32| 0 <= i < es.len() && #[trigger] g.adj(es[i].0 as int).contains(w2)
                        && g.adj(es[i].1 as int).contains(w2) && x == sort3(es[i].0, es[i].1, w2);
                    assert(closes(g, es[i], w2, x));
                }
                if through_upto(g, es, k as int, Set::empty()).contains(x) {
                    let (i, w2) = choose|i: int, w2: u32| 0 <= i < k && #[trigger] closes(g, es[i], w2, x);
                    assert(g.adj(es[i].0 as int).contains(w2));
                }
            }
        }
        found@.unique_seq_to_set();
    }
    found.len()
}

/// Whether `t` occurs in `ts`.
fn contains_triple(ts: &[(u32, u32, u32)], t: (u32, u32, u32)) -> (r: bool)
    ensures
        r == ts@.contains(t),
{
    let mut i: usize = 0;
    while i < ts.len()
        invariant
            i <= ts@.len(),
            forall|j: int| 0 <= j < i ==> ts@[j] != t,
        decreases ts@.len() - i,
    {
        let x = ts[i];
        if x.0 == t.0 && x.1 == t.1 && x.2 == t.2 {
            return true;
        }
        i = i + 1;
    }
    false
}

/// Number of triangles of `g` (the graph with the new edges already added)
/// that are not among `triangles_before`: those the new edges created.
pub fn incremental_triangle_counting_correct(
    g: &GraphWithAdjacencySets,
    new_edges: &[(u32, u32)],
    triangles_before: &[(u32, u32, u32)],
) -> (r: usize)
    requires
        g.wf(),
    ensures
        g.triangles().difference(triangles_before@.to_set()).finite(),
        r == g.triangles().difference(triangles_before@.to_set()).len(),
{
    let after = full_triangle_counting_set(g);
    let ghost before = triangles_before@.to_set();
    let mut fresh: Vec<(u32, u32, u32)> = Vec::new();
    let mut i: usize = 0;
    while i < after.len()
        invariant
            i <= after@.len(),
            after@.no_duplicates(),
            fresh@.no_duplicates(),
            before == triangles_before@.to_set(),
            forall|t: (u32, u32, u32)| #[trigger] fresh@.contains(t) <==> (after@.take(i as int).contains(t) && !before.contains(t)),
        decreases after@.len() - i,
    {
        let t = after[i];
        let ghost f0 = fresh@;
        let ghost a0 = after@.take(i as int);
        let ghost a1 = after@.take(i + 1);
        proof {
            assert(a1 =~= a0.push(t));
            assert(!a0.contains(t)) by {
                if a0.contains(t) {
                    let q = choose|q: int| 0 <= q < a0.len() && a0[q] == t;
                    assert(after@[q] == after@[i as int]);
                }
            }
        }
        if !contains_triple(triangles_before, t) {
            fresh.push(t);
            proof {
                assert(!f0.contains(t));
                assert forall|a: int, b: int| 0 <= a < fresh@.len() && 0 <= b < fresh@.len() && a != b implies fresh@[a] != fresh@[b] by {
                    if a < f0.len() && b < f0.len() {
                        assert(f0[a] != f0[b]);
                    } else if a == f0.len() {
                        assert(fresh@[b] == f0[b] && f0.contains(f0[b]));
                    } else {
                        assert(fresh@[a] == f0[a] && f0.contains(f0[a]));
                    }
                }
            }
        }
        proof {
            assert forall|x: (u32, u32, u32)| #[trigger] fresh@.contains(x) <==> (a1.contains(x) && !before.contains(x)) by {
                if fresh@.contains(x) && !f0.contains(x) {
                    let q = choose|q: int| 0 <= q < fresh@.len() && fresh@[q] == x;
                    if q < f0.len() {
                        assert(f0[q] == x);
                    }
                    assert(a1[i as int] == x);
                }
                if f0.contains(x) {
                    let q = choose|q: int| 0 <= q < f0.len() && f0[q] == x;
                    assert(fresh@[q] == x);
                }
                if a0.contains(x) {
                    let q = choose|q: int| 0 <= q < a0.len() && a0[q] == x;
                    assert(a1[q] == x);
                }
                if a1.contains(x) && !a0.contains(x) {
                    let q = choose|q: int| 0 <= q < a1.len() && a1[q] == x;
                    if q < i {
                        assert(a0[q] == x);
                    }
                    assert(x == t);
                    if fresh@.len() > f0.len() {
                        assert(fresh@[f0.len() as int] == x);
                    }
                }
            }
        }
        i = i + 1;
    }
    proof {
        assert(after@.take(after@.len() as int) =~= after@);
        assert(fresh@.to_set() =~= g.triangles().difference(before));
        fresh@.unique_seq_to_set();
    }
    fresh.len()
}

/// `{a, b}` is one of `edges`, in either direction.
pub open spec fn among_edges(edges: Seq<(u32, u32)>, a: int, b: int) -> bool {
    exists|i: int|
        0 <= i < edges.len() && ((#[trigger] edges[i].0 as int == a && edges[i].1 as int == b) || (edges[i].0 as int == b
            && edges[i].1 as int == a))
}

/// Adding edges that were not there creates exactly the triangles through
/// them: the triangles of the graph with the edges, less those of the graph
/// without them, are the triangles through the edges.
pub proof fn lemma_new_triangles(g0: GraphWithAdjacencySets, g1: GraphWithAdjacencySets, edges: Seq<(u32, u32)>)
    requires
        g0.wf(),
        g1.wf(),
        g0.n() == g1.n(),
        forall|a: int, b: int| #[trigger] g1.joined(a, b) <==> g0.joined(a, b) || among_edges(edges, a, b),
        forall|i: int| 0 <= i < edges.len() ==> !g0.joined((#[trigger] edges[i]).0 as int, edges[i].1 as int),
        forall|i: int| 0 <= i < edges.len() ==> g1.joined((#[trigger] edges[i]).0 as int, edges[i].1 as int),
    ensures
        g1.triangles().difference(g0.triangles()) == g1.triangles_through(edges),
{
    assert forall|t: (u32, u32, u32)| #[trigger] g1.triangles_through(edges).contains(t) implies g1.triangles().contains(t)
        && !g0.triangles().contains(t) by {
        let (i, w) = choose|i: int, w: u32|
            0 <= i < edges.len() && #[trigger] g1.adj(edges[i].0 as int).contains(w) && g1.adj(edges[i].1 as int).contains(w)
                && t == sort3(edges[i].0, edges[i].1, w);
        let a = edges[i].0;
        let b = edges[i].1;
        assert(g1.joined(a as int, b as int));
        g1.lemma_joined_symmetric(a as int, b as int);
        g1.lemma_joined_symmetric(a as int, a as int);
        assert(g1.joined(a as int, w as int));
        assert(g1.joined(b as int, w as int));
        g1.lemma_joined_symmetric(a as int, w as int);
        g1.lemma_joined_symmetric(b as int, w as int);
        g1.lemma_joined_symmetric(w as int, w as int);
        g1.lemma_joined_symmetric(b as int, b as int);
        g0.lemma_joined_symmetric(b as int, a as int);
        assert(!g0.joined(a as int, b as int));
    }
    assert forall|t: (u32, u32, u32)| g1.triangles().contains(t) && !g0.triangles().contains(t) implies #[trigger] g1.triangles_through(
        edges,
    ).contains(t) by {
        let (x, y, z) = t;
        g1.lemma_joined_symmetric(x as int, y as int);
        g1.lemma_joined_symmetric(y as int, z as int);
        g1.lemma_joined_symmetric(x as int, z as int);
        if !g0.joined(x as int, y as int) {
            assert(among_edges(edges, x as int, y as int));
            let i = choose|i: int|
                0 <= i < edges.len() && ((#[trigger] edges[i].0 as int == x as int && edges[i].1 as int == y as int) || (
                edges[i].0 as int == y as int && edges[i].1 as int == x as int));
            assert(g1.adj(edges[i].0 as int).contains(z) && g1.adj(edges[i].1 as int).contains(z) && t == sort3(edges[i].0, edges[i].1, z));
        } else if !g0.joined(y as int, z as int) {
            assert(among_edges(edges, y as int, z as int));
            let i = choose|i: int|
                0 <= i < edges.len() && ((#[trigger] edges[i].0 as int == y as int && edges[i].1 as int == z as int) || (
                edges[i].0 as int == z as int && edges[i].1 as int == y as int));
            assert(g1.adj(edges[i].0 as int).contains(x) && g1.adj(edges[i].1 as int).contains(x) && t == sort3(edges[i].0, edges[i].1, x));
        } else {
            assert(!g0.joined(x as int, z as int));
            assert(among_edges(edges, x as int, z as int));
            let i = choose|i: int|
                0 <= i < edges.len() && ((#[trigger] edges[i].0 as int == x as int && edges[i].1 as int == z as int) || (
                edges[i].0 as int == z as int && edges[i].1 as int == x as int));
            assert(g1.adj(edges[i].0 as int).contains(y) && g1.adj(edges[i].1 as int).contains(y) && t == sort3(edges[i].0, edges[i].1, y));
        }
    }
    assert(g1.triangles().difference(g0.triangles()) =~= g1.triangles_through(edges));
}

/// The incremental count is the difference of full counts: after adding
/// edges that were not there, the number of triangles through them (what
/// [`incremental_triangle_counting`] returns) equals the number of
/// triangles of the new graph that the old one lacks (what
/// [`incremental_triangle_counting_correct`] returns given the old
/// triangles).
pub proof fn lemma_incremental_count(g0: GraphWithAdjacencySets, g1: GraphWithAdjacencySets, edges: Seq<(u32, u32)>)
    requires
        g0.wf(),
        g1.wf(),
        g0.n() == g1.n(),
        forall|a: int, b: int| #[trigger] g1.joined(a, b) <==> g0.joined(a, b) || among_edges(edges, a, b),
        forall|i: int| 0 <= i < edges.len() ==> !g0.joined((#[trigger] edges[i]).0 as int, edges[i].1 as int),
        forall|i: int| 0 <= i < edges.len() ==> g1.joined((#[trigger] edges[i]).0 as int, edges[i].1 as int),
    ensures
        g1.triangles_through(edges).len() == g1.triangles().difference(g0.triangles()).len(),
{
    lemma_new_triangles(g0, g1, edges);
}

} // verus!
