//! Queries over a [`PersistentGraph`]: vertices and edges by exact
//! property values, neighbours, and the shortest walk between two vertices
//! by breadth-first search.

use vstd::prelude::*;
use std::collections::HashMap;
use crate::axol_format::PropMap;
use crate::persistent_graph::{PersistentGraph, edge_key};
use crate::properties::{Properties, lemma_key_index_unique};
use crate::{PropertyValue, PropertyValueView};
use crate::edge_block::lemma_visit_bound;
use crate::index::{IndexState, first_on, lookup, lemma_first_on};

verus! {

broadcast use vstd::std_specs::hash::group_hash_axioms;

/// The edges of a graph, by endpoints.
pub type EdgeMap = Map<(u64, u64), (u64, PropMap)>;

/// Step `i` of `p` follows an edge.
pub open spec fn linked(em: EdgeMap, p: Seq<u64>, i: int) -> bool {
    em.dom().contains((p[i], p[i + 1]))
}

/// `p` is a walk from `a` to `b`: it starts at `a`, ends at `b`, and each
/// step follows an edge.
pub open spec fn walk(em: EdgeMap, p: Seq<u64>, a: u64, b: u64) -> bool {
    &&& p.len() >= 1
    &&& p[0] == a
    &&& p.last() == b
    &&& forall|i: int| 0 <= i < p.len() - 1 ==> #[trigger] linked(em, p, i)
}

/// The search state: `order` lists the reached vertices in the order they
/// were reached, `par` the vertex each was reached from, `dist` its number
/// of steps from `start`; the vertices before `head` have all their
/// successors reached.
pub open spec fn tree_ok(em: EdgeMap, start: u64, order: Seq<u64>, par: Map<u64, u64>, dist: Map<u64, int>, head: int) -> bool {
    &&& order.len() >= 1
    &&& order[0] == start
    &&& order.no_duplicates()
    &&& forall|v: u64| #[trigger] par.dom().contains(v) <==> order.contains(v)
    &&& forall|v: u64| #[trigger] dist.dom().contains(v) <==> order.contains(v)
    &&& dist[start] == 0
    &&& forall|i: int, j: int| 0 <= i < j < order.len() ==> dist[#[trigger] order[i]] <= dist[#[trigger] order[j]]
    &&& forall|v: u64| #[trigger] par.dom().contains(v) && v != start ==> par.dom().contains(par[v]) && dist[par[v]] + 1 == dist[v]
        && em.dom().contains((par[v], v))
    &&& 0 <= head <= order.len()
    &&& head < order.len() ==> forall|i: int| 0 <= i < order.len() ==> dist[#[trigger] order[i]] <= dist[order[head]] + 1
    &&& forall|i: int, w: u64| 0 <= i < head && #[trigger] em.dom().contains((order[i], w)) ==> par.dom().contains(w) && dist[w] <= dist[order[i]] + 1
    &&& forall|v: u64| #[trigger] dist.dom().contains(v) ==> dist[v] >= 0
}

/// Index of a reached vertex in `order`.
proof fn lemma_index_of(order: Seq<u64>, v: u64) -> (i: int)
    requires
        order.contains(v),
    ensures
        0 <= i < order.len(),
        order[i] == v,
{
    choose|i: int| 0 <= i < order.len() && order[i] == v
}

/// A walk from `start` whose end was not reached has more steps than the
/// vertex at `head` is from `start`; `cur_done` names how many successors
/// of the vertex at `head` were already reached.
proof fn lemma_walk_long(
    em: EdgeMap,
    start: u64,
    order: Seq<u64>,
    par: Map<u64, u64>,
    dist: Map<u64, int>,
    head: int,
    p: Seq<u64>,
    i: int,
)
    requires
        tree_ok(em, start, order, par, dist, head),
        head < order.len(),
        p.len() >= 1,
        p[0] == start,
        forall|k: int| 0 <= k < p.len() - 1 ==> #[trigger] linked(em, p, k),
        !par.dom().contains(p.last()),
        0 <= i < p.len(),
        forall|k: int| 0 <= k <= i ==> par.dom().contains(#[trigger] p[k]),
        dist[p[i]] <= i,
    ensures
        p.len() - 1 >= dist[order[head]] + 1,
    decreases p.len() - i,
{
    let d = dist[order[head]];
    if i == p.len() - 1 {
        assert(par.dom().contains(p[i]));
    } else {
        assert(linked(em, p, i));
        let u = p[i];
        let w = p[i + 1];
        assert(order.contains(u));
        let iu = lemma_index_of(order, u);
        if par.dom().contains(w) {
            assert(order.contains(w));
            let iw = lemma_index_of(order, w);
            if iu < head {
                assert(em.dom().contains((order[iu], w)));
            } else {
                assert(dist[order[iw]] <= d + 1);
                if iu > head {
                    assert(dist[order[head]] <= dist[order[iu]]);
                }
            }
            assert(dist[w] <= i + 1);
            assert forall|k: int| 0 <= k <= i + 1 implies par.dom().contains(#[trigger] p[k]) by {
                if k <= i {
                    assert(par.dom().contains(p[k]));
                }
            }
            lemma_walk_long(em, start, order, par, dist, head, p, i + 1);
        } else {
            if iu < head {
                assert(em.dom().contains((order[iu], w)));
                assert(false);
            }
            if iu > head {
                assert(dist[order[head]] <= dist[order[iu]]);
            }
        }
    }
}

/// When every reached vertex has had its successors reached, no walk from
/// `start` ends at a vertex that was not reached.
proof fn lemma_no_walk(
    em: EdgeMap,
    start: u64,
    order: Seq<u64>,
    par: Map<u64, u64>,
    dist: Map<u64, int>,
    p: Seq<u64>,
    i: int,
)
    requires
        tree_ok(em, start, order, par, dist, order.len() as int),
        p.len() >= 1,
        p[0] == start,
        forall|k: int| 0 <= k < p.len() - 1 ==> #[trigger] linked(em, p, k),
        0 <= i < p.len(),
        forall|k: int| 0 <= k <= i ==> par.dom().contains(#[trigger] p[k]),
    ensures
        par.dom().contains(p.last()),
    decreases p.len() - i,
{
    if i < p.len() - 1 {
        assert(linked(em, p, i));
        let u = p[i];
        assert(order.contains(u));
        let iu = lemma_index_of(order, u);
        assert(em.dom().contains((order[iu], p[i + 1])));
        assert forall|k: int| 0 <= k <= i + 1 implies par.dom().contains(#[trigger] p[k]) by {
            if k <= i {
                assert(par.dom().contains(p[k]));
            }
        }
        lemma_no_walk(em, start, order, par, dist, p, i + 1);
    }
}

impl PersistentGraph {
    /// Every vertex joined to `vertex_id` by an edge in either direction,
    /// once each: the out-neighbours, then the in-neighbours not already
    /// listed.
    pub fn all_neighbors(&self, vertex_id: u64) -> (r: Vec<u64>)
        requires
            self.wf(),
        ensures
            r@.no_duplicates(),
            forall|x: u64|
                #[trigger] r@.contains(x) <==> (self.edge_map().dom().contains((vertex_id, x))
                    || self.edge_map().dom().contains((x, vertex_id))),
    {
        let mut r = self.out_neighbors(vertex_id);
        let ins = self.in_neighbors(vertex_id);
        let ghost outs = r@;
        proof {
            assert forall|a: int, b: int| 0 <= a < r@.len() && 0 <= b < r@.len() && a != b implies r@[a] != r@[b] by {
                if a < b {
                    assert(r@[a] < r@[b]);
                } else {
                    assert(r@[b] < r@[a]);
                }
            }
        }
        let mut i: usize = 0;
        while i < ins.len()
            invariant
                i <= ins@.len(),
                r@.no_duplicates(),
                forall|x: u64| #[trigger] r@.contains(x) <==> (outs.contains(x) || ins@.take(i as int).contains(x)),
            decreases ins@.len() - i,
        {
            let x = ins[i];
            let ghost r0 = r@;
            if !crate::index::contains_id(&r, x) {
                r.push(x);
                proof {
                    assert forall|a: int, b: int| 0 <= a < r@.len() && 0 <= b < r@.len() && a != b implies r@[a] != r@[b] by {
                        if a < r0.len() && b < r0.len() {
                            assert(r0[a] != r0[b]);
                        } else if a == r0.len() {
                            assert(r@[b] == r0[b] && r0.contains(r0[b]));
                        } else {
                            assert(r@[a] == r0[a] && r0.contains(r0[a]));
                        }
                    }
                }
            }
            proof {
                let t0 = ins@.take(i as int);
                let t1 = ins@.take(i + 1);
                assert(t1 =~= t0.push(x));
                assert forall|y: u64| #[trigger] r@.contains(y) <==> (outs.contains(y) || t1.contains(y)) by {
                    if r@.contains(y) && !r0.contains(y) {
                        let q = choose|q: int| 0 <= q < r@.len() && r@[q] == y;
                        if q < r0.len() {
                            assert(r0[q] == y);
                        }
                        assert(t1[i as int] == y);
                    }
                    if t1.contains(y) && !t0.contains(y) {
                        let q = choose|q: int| 0 <= q < t1.len() && t1[q] == y;
                        if q < i {
                            assert(t0[q] == y);
                        }
                        assert(y == x);
                        if r@.len() > r0.len() {
                            assert(r@[r0.len() as int] == x);
                        }
                    }
                    if r0.contains(y) {
                        let q = choose|q: int| 0 <= q < r0.len() && r0[q] == y;
                        assert(r@[q] == y);
                    }
                    if t0.contains(y) {
                        let q = choose|q: int| 0 <= q < t0.len() && t0[q] == y;
                        assert(t1[q] == y);
                    }
                }
            }
            i = i + 1;
        }
        proof {
            assert(ins@.take(ins@.len() as int) =~= ins@);
        }
        r
    }
}

impl PersistentGraph {
    /// A shortest walk from `start` to `end` along the edges: `[start]`
    /// when they are equal, empty when `end` cannot be reached.
    pub fn shortest_path(&self, start: u64, end: u64) -> (r: Vec<u64>)
        requires
            self.wf(),
        ensures
            start == end ==> r@ == seq![start],
            start != end && r@.len() > 0 ==> walk(self.edge_map(), r@, start, end)
                && forall|p: Seq<u64>| #[trigger] walk(self.edge_map(), p, start, end) ==> r@.len() <= p.len(),
            start != end && r@.len() == 0 ==> forall|p: Seq<u64>| !#[trigger] walk(self.edge_map(), p, start, end),
    {
        if start == end {
            let mut r: Vec<u64> = Vec::new();
            r.push(start);
            proof {
                assert(r@ =~= seq![start]);
            }
            return r;
        }
        let ghost em = self.edge_map();
        let ghost pool = seq![start] + self.edge_list().map_values(|e: (u64, u64)| e.1);
        proof {
            self.lemma_views();
        }
        let mut parent: HashMap<u64, u64> = HashMap::new();
        let mut order: Vec<u64> = Vec::new();
        parent.insert(start, start);
        order.push(start);
        let ghost mut dist: Map<u64, int> = Map::empty().insert(start, 0);
        proof {
            assert(order@.contains(start)) by {
                assert(order@[0] == start);
            }
            assert(pool[0] == start);
        }
        let mut head: usize = 0;
        while head < order.len()
            invariant
                self.wf(),
                em == self.edge_map(),
                start != end,
                pool == seq![start] + self.edge_list().map_values(|e: (u64, u64)| e.1),
                forall|e: (u64, u64)| #[trigger] em.dom().contains(e) <==> self.edge_list().contains(e),
                tree_ok(em, start, order@, parent@, dist, head as int),
                !parent@.dom().contains(end),
                order@.len() <= pool.len(),
                forall|i: int| 0 <= i < order@.len() ==> pool.contains(#[trigger] order@[i]),
            decreases pool.len() - head,
        {
            let cur = order[head];
            let nbrs = self.out_neighbors(cur);
            let mut j: usize = 0;
            while j < nbrs.len()
                invariant
                    self.wf(),
                    em == self.edge_map(),
                    start != end,
                    pool == seq![start] + self.edge_list().map_values(|e: (u64, u64)| e.1),
                    forall|e: (u64, u64)| #[trigger] em.dom().contains(e) <==> self.edge_list().contains(e),
                    head < order@.len(),
                    cur == order@[head as int],
                    tree_ok(em, start, order@, parent@, dist, head as int),
                    !parent@.dom().contains(end),
                    order@.len() <= pool.len(),
                    forall|i: int| 0 <= i < order@.len() ==> pool.contains(#[trigger] order@[i]),
                    forall|to: u64| #[trigger] nbrs@.contains(to) <==> em.dom().contains((cur, to)),
                    j <= nbrs@.len(),
                    forall|jj: int| 0 <= jj < j ==> parent@.dom().contains(#[trigger] nbrs@[jj]) && dist[nbrs@[jj]] <= dist[cur] + 1,
                decreases nbrs@.len() - j,
            {
                let w = nbrs[j];
                proof {
                    assert(nbrs@.contains(w)) by {
                        assert(nbrs@[j as int] == w);
                    }
                    assert(em.dom().contains((cur, w)));
                    assert(order@.contains(cur)) by {
                        assert(order@[head as int] == cur);
                    }
                }
                if !parent.contains_key(&w) {
                    let ghost order0 = order@;
                    let ghost par0 = parent@;
                    let ghost dist0 = dist;
                    proof {
                        assert(self.edge_list().contains((cur, w)));
                        let q = lemma_edge_index(self.edge_list(), (cur, w));
                        assert(pool[q + 1] == w);
                        assert(!order0.contains(w));
                        lemma_grow(em, start, order0, par0, dist0, head as int, cur, w);
                        lemma_visit_bound(pool, order0.push(w));
                    }
                    parent.insert(w, cur);
                    order.push(w);
                    proof {
                        dist = dist0.insert(w, dist0[cur] + 1);
                    }
                    if w == end {
                        proof {
                            assert(order@.contains(end)) by {
                                assert(order@[order@.len() - 1] == end);
                            }
                            assert forall|p: Seq<u64>| #[trigger] walk(em, p, start, end) implies p.len() - 1 >= dist0[cur] + 1 by {
                                assert(p[0] == start);
                                assert(par0.dom().contains(p[0]));
                                lemma_walk_long(em, start, order0, par0, dist0, head as int, p, 0);
                            }
                        }
                        let r = self.path_back(&parent, start, end, Ghost(order@), Ghost(dist), Ghost(head as int));
                        proof {
                            assert(dist[end] == dist0[cur] + 1);
                        }
                        return r;
                    }
                }
                proof {
                    assert(nbrs@[j as int] == w);
                    assert(parent@.dom().contains(w));
                    assert(order@.contains(w));
                    let iw = lemma_index_of(order@, w);
                    assert(dist[order@[iw]] <= dist[order@[head as int]] + 1);
                }
                j = j + 1;
            }
            proof {
                assert forall|i: int, w: u64| 0 <= i < head + 1 && #[trigger] em.dom().contains((order@[i], w))
                    implies parent@.dom().contains(w) && dist[w] <= dist[order@[i]] + 1 by {
                    if i == head {
                        assert(nbrs@.contains(w));
                        let jj = choose|jj: int| 0 <= jj < nbrs@.len() && nbrs@[jj] == w;
                        assert(parent@.dom().contains(nbrs@[jj]));
                    }
                }
                if head + 1 < order@.len() {
                    assert(dist[order@[head as int]] <= dist[order@[head + 1]]);
                }
                assert(tree_ok(em, start, order@, parent@, dist, head + 1));
            }
            head = head + 1;
        }
        proof {
            assert forall|p: Seq<u64>| !#[trigger] walk(em, p, start, end) by {
                if walk(em, p, start, end) {
                    assert(parent@.dom().contains(p[0])) by {
                        assert(order@[0] == start);
                        assert(order@.contains(start));
                    }
                    lemma_no_walk(em, start, order@, parent@, dist, p, 0);
                }
            }
        }
        Vec::new()
    }

    /// Follows the recorded predecessors from `end` back to `start` and
    /// returns the walk from `start` to `end`.
    #[verifier::rlimit(40)]
    fn path_back(
        &self,
        parent: &HashMap<u64, u64>,
        start: u64,
        end: u64,
        Ghost(order): Ghost<Seq<u64>>,
        Ghost(dist): Ghost<Map<u64, int>>,
        Ghost(head): Ghost<int>,
    ) -> (r: Vec<u64>)
        requires
            tree_ok(self.edge_map(), start, order, parent@, dist, head),
            parent@.dom().contains(end),
        ensures
            walk(self.edge_map(), r@, start, end),
            r@.len() == dist[end] + 1,
    {
        let ghost em = self.edge_map();
        let mut rev: Vec<u64> = Vec::new();
        let mut cur = end;
        proof {
            assert(order.contains(end));
        }
        while cur != start
            invariant
                em == self.edge_map(),
                tree_ok(em, start, order, parent@, dist, head),
                parent@.dom().contains(cur),
                rev@.len() + dist[cur] == dist[end],
                rev@.len() > 0 ==> rev@[0] == end && em.dom().contains((cur, rev@.last())),
                rev@.len() == 0 ==> cur == end,
                forall|i: int| 0 <= i < rev@.len() - 1 ==> em.dom().contains((#[trigger] rev@[i + 1], rev@[i])),
            decreases dist[cur],
        {
            let ghost c0 = cur;
            let ghost r0 = rev@;
            rev.push(cur);
            cur = match parent.get(&cur) {
                Some(p) => *p,
                None => cur,
            };
            proof {
                assert(order.contains(c0));
                assert(dist.dom().contains(c0));
                assert(dist[c0] >= 0);
                assert forall|i: int| 0 <= i < rev@.len() - 1 implies em.dom().contains((#[trigger] rev@[i + 1], rev@[i])) by {
                    if i < r0.len() - 1 {
                        assert(rev@[i + 1] == r0[i + 1]);
                        assert(rev@[i] == r0[i]);
                    } else {
                        assert(rev@[i + 1] == c0);
                    }
                }
                assert(order.contains(cur));
                assert(dist.dom().contains(cur));
                assert(dist[cur] >= 0);
            }
        }
        rev.push(start);
        let n = rev.len();
        let mut r: Vec<u64> = Vec::new();
        let mut k: usize = 0;
        while k < n
            invariant
                n == rev@.len(),
                k <= n,
                r@.len() == k,
                forall|i: int| 0 <= i < k ==> #[trigger] r@[i] == rev@[n - 1 - i],
            decreases n - k,
        {
            r.push(rev[n - 1 - k]);
            k = k + 1;
        }
        proof {
            assert(rev@[n - 1] == start);
            assert(r@[0] == start);
            assert(r@[n - 1] == rev@[0]);
            assert(rev@[0] == end);
            assert forall|i: int| 0 <= i < r@.len() - 1 implies #[trigger] linked(em, r@, i) by {
                let a = n - 2 - i;
                assert(r@[i] == rev@[a + 1]);
                assert(r@[i + 1] == rev@[a]);
            }
        }
        r
    }
}

/// Where an edge stands in a list that holds it.
proof fn lemma_edge_index(es: Seq<(u64, u64)>, e: (u64, u64)) -> (q: int)
    requires
        es.contains(e),
    ensures
        0 <= q < es.len(),
        es[q] == e,
        (seq![0u64] + es.map_values(|x: (u64, u64)| x.1))[q + 1] == e.1,
{
    let q = choose|q: int| 0 <= q < es.len() && es[q] == e;
    q
}

/// Reaching `w` from the vertex at `head` keeps the search state.
proof fn lemma_grow(em: EdgeMap, start: u64, order: Seq<u64>, par: Map<u64, u64>, dist: Map<u64, int>, head: int, cur: u64, w: u64)
    requires
        tree_ok(em, start, order, par, dist, head),
        head < order.len(),
        cur == order[head],
        em.dom().contains((cur, w)),
        !order.contains(w),
    ensures
        tree_ok(em, start, order.push(w), par.insert(w, cur), dist.insert(w, dist[cur] + 1), head),
        order.push(w).no_duplicates(),
{
    let o2 = order.push(w);
    let p2 = par.insert(w, cur);
    let d2 = dist.insert(w, dist[cur] + 1);
    assert(order.contains(cur)) by {
        assert(order[head] == cur);
    }
    assert(o2.no_duplicates()) by {
        assert forall|a: int, b: int| 0 <= a < o2.len() && 0 <= b < o2.len() && a != b implies o2[a] != o2[b] by {
            if a == order.len() {
                assert(order.contains(o2[b]));
            } else if b == order.len() {
                assert(order.contains(o2[a]));
            }
        }
    }
    assert forall|v: u64| #[trigger] p2.dom().contains(v) <==> o2.contains(v) by {
        if order.contains(v) {
            let i = lemma_index_of(order, v);
            assert(o2[i] == v);
        }
        if o2.contains(v) && v != w {
            let i = lemma_index_of(o2, v);
            assert(order[i] == v);
        }
        if v == w {
            assert(o2[order.len() as int] == w);
        }
    }
    assert forall|v: u64| #[trigger] d2.dom().contains(v) <==> o2.contains(v) by {
        assert(p2.dom().contains(v) <==> o2.contains(v));
    }
    assert(w != start) by {
        assert(order[0] == start);
        assert(order.contains(start));
    }
    assert forall|i: int, j: int| 0 <= i < j < o2.len() implies d2[#[trigger] o2[i]] <= d2[#[trigger] o2[j]] by {
        assert(o2[i] == order[i]);
        assert(order[i] != w) by {
            assert(order.contains(order[i]));
        }
        if j < order.len() {
            assert(o2[j] == order[j]);
            assert(order[j] != w) by {
                assert(order.contains(order[j]));
            }
        } else {
            assert(dist[order[i]] <= dist[order[head]] + 1);
        }
    }
    assert forall|v: u64| #[trigger] p2.dom().contains(v) && v != start implies p2.dom().contains(p2[v]) && d2[p2[v]] + 1 == d2[v]
        && em.dom().contains((p2[v], v)) by {
        if v != w {
            assert(par.dom().contains(v));
            assert(par.dom().contains(par[v]));
            assert(par[v] != w) by {
                assert(order.contains(par[v]));
            }
        } else {
            assert(cur != w);
        }
    }
    assert forall|i: int| 0 <= i < o2.len() implies d2[#[trigger] o2[i]] <= d2[o2[head]] + 1 by {
        assert(o2[head] == cur);
        assert(cur != w);
        if i < order.len() {
            assert(o2[i] == order[i]);
            assert(order[i] != w) by {
                assert(order.contains(order[i]));
            }
        }
    }
    assert forall|i: int, x: u64| 0 <= i < head && #[trigger] em.dom().contains((o2[i], x)) implies p2.dom().contains(x)
        && d2[x] <= d2[o2[i]] + 1 by {
        assert(o2[i] == order[i]);
        assert(em.dom().contains((order[i], x)));
        assert(order[i] != w) by {
            assert(order.contains(order[i]));
        }
        assert(par.dom().contains(x));
        assert(order.contains(x));
        assert(x != w);
    }
    assert forall|v: u64| #[trigger] d2.dom().contains(v) implies d2[v] >= 0 by {
        if v != w {
            assert(dist.dom().contains(v));
        }
    }
    assert(d2[start] == 0);
}

/// A condition list as mathematical values.
pub open spec fn conds_view(c: Seq<(String, PropertyValue)>) -> Seq<(Seq<char>, PropertyValueView)> {
    c.map_values(|e: (String, PropertyValue)| (e.0@, e.1@))
}

/// `pm` holds each condition's key with exactly its value.
pub open spec fn satisfies(pm: PropMap, conds: Seq<(Seq<char>, PropertyValueView)>) -> bool {
    forall|i: int| 0 <= i < conds.len() ==> pm.dom().contains(#[trigger] conds[i].0) && pm[conds[i].0] == conds[i].1
}

/// Whether `p` meets every condition (values compared as
/// [`PropertyValue::same_as`] does).
pub fn props_satisfy(p: &Properties, conds: &Vec<(String, PropertyValue)>) -> (r: bool)
    requires
        p.wf(),
    ensures
        r == satisfies(p.map(), conds_view(conds@)),
{
    let ghost cv = conds_view(conds@);
    let mut i: usize = 0;
    while i < conds.len()
        invariant
            p.wf(),
            cv == conds_view(conds@),
            i <= conds@.len(),
            satisfies(p.map(), cv.take(i as int)),
        decreases conds@.len() - i,
    {
        let (k, v) = &conds[i];
        let ok = match p.get(k.as_str()) {
            Some(x) => x.same_as(v),
            None => false,
        };
        if !ok {
            proof {
                assert(cv[i as int] == (k@, v@));
                assert(!satisfies(p.map(), cv)) by {
                    if satisfies(p.map(), cv) {
                        assert(p.map().dom().contains(cv[i as int].0));
                    }
                }
            }
            return false;
        }
        proof {
            assert(cv[i as int] == (k@, v@));
            assert forall|j: int| 0 <= j < i + 1 implies p.map().dom().contains(#[trigger] cv.take(i + 1)[j].0)
                && p.map()[cv.take(i + 1)[j].0] == cv.take(i + 1)[j].1 by {
                if j < i {
                    assert(cv.take(i + 1)[j] == cv.take(i as int)[j]);
                }
            }
        }
        i = i + 1;
    }
    proof {
        assert(cv.take(i as int) =~= cv);
    }
    true
}

/// A query for vertices: optionally one id, and exact property values.
pub struct VertexQuery<'a> {
    pub graph: &'a PersistentGraph,
    pub id_filter: Option<u64>,
    pub conditions: Vec<(String, PropertyValue)>,
}

/// The ids of id-and-properties pairs.
pub open spec fn ids_of(r: Seq<(u64, Properties)>) -> Seq<u64> {
    Seq::new(r.len(), |k: int| r[k].0)
}

/// Whether vertex `id` is an answer to a vertex query.
pub open spec fn vertex_matches(g: &PersistentGraph, id_filter: Option<u64>, conds: Seq<(Seq<char>, PropertyValueView)>, id: u64) -> bool {
    &&& g.vertex_map().dom().contains(id)
    &&& (id_filter matches Some(f) ==> id == f)
    &&& satisfies(g.vertex_map()[id], conds)
}

impl<'a> VertexQuery<'a> {
    /// A query that every vertex of `graph` answers.
    pub fn new(graph: &'a PersistentGraph) -> (q: Self)
        ensures
            q.graph == graph,
            q.id_filter.is_none(),
            q.conditions@.len() == 0,
    {
        VertexQuery { graph, id_filter: None, conditions: Vec::new() }
    }

    /// Restricts the query to vertex `id`.
    pub fn with_id(self, id: u64) -> (q: Self)
        ensures
            q.graph == self.graph,
            q.id_filter == Some(id),
            q.conditions@ == self.conditions@,
    {
        VertexQuery { graph: self.graph, id_filter: Some(id), conditions: self.conditions }
    }

    /// Adds the condition that property `key` holds `value`.
    pub fn with_property(self, key: &str, value: PropertyValue) -> (q: Self)
        ensures
            q.graph == self.graph,
            q.id_filter == self.id_filter,
            conds_view(q.conditions@) == conds_view(self.conditions@).push((key@, value@)),
    {
        let mut conditions = self.conditions;
        let ghost c0 = conditions@;
        conditions.push((key.to_string(), value));
        proof {
            assert(conds_view(conditions@) =~= conds_view(c0).push((key@, value@)));
        }
        VertexQuery { graph: self.graph, id_filter: self.id_filter, conditions }
    }

    /// The candidates the query filters: the one id asked for; else the
    /// vertices listed under the value of the first condition whose key
    /// has an index (in that index's order); else every vertex, by
    /// increasing id.
    pub open spec fn candidates(&self) -> Seq<u64> {
        match self.id_filter {
            Some(id) => seq![id],
            None => match first_hint(self.graph.indexes(), conds_view(self.conditions@), 0) {
                Some((j, i)) => lookup(self.graph.indexes()[i], conds_view(self.conditions@)[j].1),
                None => self.graph.vertex_ids(),
            },
        }
    }

    /// The candidates are complete: no index is used, or the one used is
    /// not unique.
    pub open spec fn complete_candidates(&self) -> bool {
        match self.id_filter {
            Some(_) => true,
            None => match first_hint(self.graph.indexes(), conds_view(self.conditions@), 0) {
                Some((j, i)) => !self.graph.indexes()[i].unique,
                None => true,
            },
        }
    }

    /// No index is used.
    pub open spec fn scans(&self) -> bool {
        self.id_filter is Some || first_hint(self.graph.indexes(), conds_view(self.conditions@), 0) is None
    }

    /// The answers: the candidates that are vertices meeting every
    /// condition, in candidate order. When the candidates are complete
    /// these are exactly the matching vertices; without an index they come
    /// by increasing id.
    pub fn execute(&self) -> (r: Vec<u64>)
        requires
            self.graph.wf(),
        ensures
            r@ == keep_matching(self.graph, conds_view(self.conditions@), self.candidates()),
            self.complete_candidates() ==> forall|id: u64|
                #[trigger] r@.contains(id) <==> vertex_matches(self.graph, self.id_filter, conds_view(self.conditions@), id),
            self.scans() ==> forall|a: int, b: int| 0 <= a < b < r@.len() ==> #[trigger] r@[a] < #[trigger] r@[b],
    {
        let g = self.graph;
        let ghost cv = conds_view(self.conditions@);
        proof {
            g.lemma_views();
        }
        let cands: Vec<u64> = match self.id_filter {
            Some(id) => {
                let mut c: Vec<u64> = Vec::new();
                c.push(id);
                proof {
                    assert(c@ =~= seq![id]);
                }
                c
            },
            None => match self.try_index_lookup() {
                Some(ids) => ids,
                None => all_vertex_ids(g),
            },
        };
        let r = self.keep_answers(&cands);
        proof {
            lemma_keep_matching_contains(g, cv, cands@);
            if self.scans() {
                if self.id_filter is None {
                    lemma_keep_matching_sorted(g, cv, cands@);
                } else {
                    lemma_keep_matching_short(g, cv, cands@);
                }
            }
            if self.complete_candidates() {
                assert forall|x: u64| #[trigger] r@.contains(x) <==> vertex_matches(g, self.id_filter, cv, x) by {
                    match self.id_filter {
                        Some(id) => {
                            if r@.contains(x) {
                                assert(cands@.contains(x));
                                assert(cands@[0] == id);
                            }
                            if vertex_matches(g, self.id_filter, cv, x) {
                                assert(cands@[0] == x);
                            }
                        },
                        None => match first_hint(g.indexes(), cv, 0) {
                            Some((j, i)) => {
                                lemma_first_hint(g.indexes(), cv, 0);
                                if vertex_matches(g, None, cv, x) {
                                    assert(g.vertex_map()[x].dom().contains(cv[j].0) && g.vertex_map()[x][cv[j].0] == cv[j].1);
                                    g.lemma_index_complete(i, x);
                                }
                            },
                            None => {
                                if vertex_matches(g, None, cv, x) {
                                    assert(g.vertex_ids().contains(x));
                                }
                            },
                        },
                    }
                }
            }
        }
        r
    }

    /// Ids listed by the first index on the key of the first condition
    /// that has one (see [`first_hint`]); `None` when no condition's key
    /// has an index.
    fn try_index_lookup(&self) -> (r: Option<Vec<u64>>)
        requires
            self.graph.wf(),
        ensures
            match first_hint(self.graph.indexes(), conds_view(self.conditions@), 0) {
                Some((j, i)) => r is Some && r.unwrap()@ == lookup(self.graph.indexes()[i], conds_view(self.conditions@)[j].1),
                None => r is None,
            },
    {
        let ghost cv = conds_view(self.conditions@);
        let ghost ss = self.graph.indexes();
        let mut j: usize = 0;
        while j < self.conditions.len()
            invariant
                self.graph.wf(),
                cv == conds_view(self.conditions@),
                ss == self.graph.indexes(),
                j <= self.conditions@.len(),
                first_hint(ss, cv, j as int) == first_hint(ss, cv, 0),
            decreases self.conditions@.len() - j,
        {
            let (key, value) = (&self.conditions[j].0, &self.conditions[j].1);
            match self.graph.index_lookup(key.as_str(), value) {
                Some(ids) => {
                    return Some(ids);
                },
                None => {},
            }
            j = j + 1;
        }
        None
    }

    /// The candidates `cands` that are vertices meeting every condition.
    fn keep_answers(&self, cands: &Vec<u64>) -> (r: Vec<u64>)
        requires
            self.graph.wf(),
        ensures
            r@ == keep_matching(self.graph, conds_view(self.conditions@), cands@),
    {
        let g = self.graph;
        let ghost cv = conds_view(self.conditions@);
        let mut r: Vec<u64> = Vec::new();
        let mut k: usize = 0;
        while k < cands.len()
            invariant
                g.wf(),
                g == self.graph,
                cv == conds_view(self.conditions@),
                k <= cands@.len(),
                r@ == keep_matching(g, cv, cands@.take(k as int)),
            decreases cands@.len() - k,
        {
            let id = cands[k];
            proof {
                assert(cands@.take(k + 1).drop_last() =~= cands@.take(k as int));
            }
            match g.get_vertex(id) {
                Some(p) => {
                    if props_satisfy(p, &self.conditions) {
                        r.push(id);
                    }
                },
                None => {},
            }
            k = k + 1;
        }
        proof {
            assert(cands@.take(k as int) =~= cands@);
        }
        r
    }
}

/// The candidates of `cands` that match the conditions, in order.
pub open spec fn keep_matching(g: &PersistentGraph, conds: Seq<(Seq<char>, PropertyValueView)>, cands: Seq<u64>) -> Seq<u64>
    decreases cands.len(),
{
    if cands.len() == 0 {
        Seq::empty()
    } else {
        let k = keep_matching(g, conds, cands.drop_last());
        if vertex_matches(g, None, conds, cands.last()) {
            k.push(cands.last())
        } else {
            k
        }
    }
}

/// The first condition, from the `j`-th on, whose key has an index, with
/// the first index on that key.
pub open spec fn first_hint(ss: Seq<IndexState>, conds: Seq<(Seq<char>, PropertyValueView)>, j: int) -> Option<(int, int)>
    decreases conds.len() - j,
{
    if j < 0 || j >= conds.len() {
        None
    } else {
        match first_on(ss, conds[j].0) {
            Some(i) => Some((j, i)),
            None => first_hint(ss, conds, j + 1),
        }
    }
}

/// What [`first_hint`] finds: a condition and an index on its key.
pub proof fn lemma_first_hint(ss: Seq<IndexState>, conds: Seq<(Seq<char>, PropertyValueView)>, j: int)
    ensures
        first_hint(ss, conds, j) matches Some((c, i)) ==> 0 <= c < conds.len() && 0 <= i < ss.len() && ss[i].key
            == conds[c].0 && first_on(ss, conds[c].0) == Some(i),
    decreases conds.len() - j,
{
    if 0 <= j < conds.len() {
        lemma_first_on(ss, conds[j].0);
        if first_on(ss, conds[j].0) is None {
            lemma_first_hint(ss, conds, j + 1);
        }
    }
}

/// An id is kept exactly when it is a candidate that matches.
pub proof fn lemma_keep_matching_contains(g: &PersistentGraph, conds: Seq<(Seq<char>, PropertyValueView)>, cands: Seq<u64>)
    ensures
        forall|x: u64| #[trigger] keep_matching(g, conds, cands).contains(x) <==> cands.contains(x) && vertex_matches(g, None, conds, x),
    decreases cands.len(),
{
    if cands.len() > 0 {
        let prev = cands.drop_last();
        lemma_keep_matching_contains(g, conds, prev);
        let k = keep_matching(g, conds, prev);
        assert forall|x: u64| #[trigger] keep_matching(g, conds, cands).contains(x) <==> cands.contains(x) && vertex_matches(
            g,
            None,
            conds,
            x,
        ) by {
            if k.contains(x) {
                let q = choose|q: int| 0 <= q < k.len() && k[q] == x;
                assert(k.push(cands.last())[q] == x);
                let w = choose|w: int| 0 <= w < prev.len() && prev[w] == x;
                assert(cands[w] == x);
            }
            if keep_matching(g, conds, cands).contains(x) && !k.contains(x) {
                let q = choose|q: int| 0 <= q < k.push(cands.last()).len() && k.push(cands.last())[q] == x;
                if q < k.len() {
                    assert(k[q] == x);
                }
                assert(cands[cands.len() - 1] == x);
            }
            if cands.contains(x) && vertex_matches(g, None, conds, x) {
                let w = choose|w: int| 0 <= w < cands.len() && cands[w] == x;
                if w < cands.len() - 1 {
                    assert(prev[w] == x);
                    let q = choose|q: int| 0 <= q < k.len() && k[q] == x;
                    assert(k.push(cands.last())[q] == x);
                } else {
                    assert(k.push(cands.last())[k.len() as int] == x);
                }
            }
        }
    }
}

/// Keeping candidates keeps their order.
pub proof fn lemma_keep_matching_sorted(g: &PersistentGraph, conds: Seq<(Seq<char>, PropertyValueView)>, cands: Seq<u64>)
    requires
        forall|a: int, b: int| 0 <= a < b < cands.len() ==> #[trigger] cands[a] < #[trigger] cands[b],
    ensures
        forall|a: int, b: int|
            0 <= a < b < keep_matching(g, conds, cands).len() ==> #[trigger] keep_matching(g, conds, cands)[a]
                < #[trigger] keep_matching(g, conds, cands)[b],
    decreases cands.len(),
{
    if cands.len() > 0 {
        let prev = cands.drop_last();
        lemma_keep_matching_sorted(g, conds, prev);
        lemma_keep_matching_contains(g, conds, prev);
        let k = keep_matching(g, conds, prev);
        assert forall|a: int| 0 <= a < k.len() implies #[trigger] k[a] < cands.last() by {
            assert(k.contains(k[a]));
            let w = choose|w: int| 0 <= w < prev.len() && prev[w] == k[a];
            assert(cands[w] < cands[cands.len() - 1]);
        }
    }
}

/// At most one candidate, at most one answer.
proof fn lemma_keep_matching_short(g: &PersistentGraph, conds: Seq<(Seq<char>, PropertyValueView)>, cands: Seq<u64>)
    requires
        cands.len() <= 1,
    ensures
        keep_matching(g, conds, cands).len() <= 1,
{
    if cands.len() == 1 {
        assert(cands.drop_last().len() == 0);
        assert(keep_matching(g, conds, cands.drop_last()).len() == 0);
    }
}

/// The vertex ids, increasing.
fn all_vertex_ids(g: &PersistentGraph) -> (r: Vec<u64>)
    requires
        g.wf(),
    ensures
        r@ == g.vertex_ids(),
{
    let n = g.vertex_count();
    let mut r: Vec<u64> = Vec::new();
    let mut i: usize = 0;
    while i < n
        invariant
            g.wf(),
            n == g.vertex_ids().len(),
            i <= n,
            r@ == g.vertex_ids().take(i as int),
        decreases n - i,
    {
        let (id, _) = g.vertex_entry(i);
        r.push(id);
        i = i + 1;
        proof {
            assert(r@ =~= g.vertex_ids().take(i as int));
        }
    }
    proof {
        assert(g.vertex_ids().take(n as int) =~= g.vertex_ids());
    }
    r
}

impl PersistentGraph {
    /// Starts a vertex query.
    pub fn find_vertex(&self) -> (q: VertexQuery<'_>)
        ensures
            q.graph == self,
            q.id_filter.is_none(),
            q.conditions@.len() == 0,
    {
        VertexQuery::new(self)
    }
}

impl<'a> VertexQuery<'a> {
    /// The answers of [`VertexQuery::execute`], each with its properties.
    pub fn execute_with_properties(&self) -> (r: Vec<(u64, Properties)>)
        requires
            self.graph.wf(),
        ensures
            ids_of(r@) == keep_matching(self.graph, conds_view(self.conditions@), self.candidates()),
            forall|i: int| 0 <= i < r@.len() ==> (#[trigger] r@[i]).1.wf() && r@[i].1.map() == self.graph.vertex_map()[r@[i].0],
    {
        let ids = self.execute();
        proof {
            lemma_keep_matching_contains(self.graph, conds_view(self.conditions@), self.candidates());
        }
        let mut r: Vec<(u64, Properties)> = Vec::new();
        let mut i: usize = 0;
        while i < ids.len()
            invariant
                self.graph.wf(),
                i <= ids@.len(),
                forall|x: u64| #[trigger] ids@.contains(x) ==> vertex_matches(self.graph, None, conds_view(self.conditions@), x),
                r@.len() == i,
                forall|k: int| 0 <= k < i ==> (#[trigger] r@[k]).0 == ids@[k],
                forall|k: int| 0 <= k < r@.len() ==> (#[trigger] r@[k]).1.wf() && r@[k].1.map() == self.graph.vertex_map()[r@[k].0],
            decreases ids@.len() - i,
        {
            let id = ids[i];
            proof {
                assert(ids@.contains(id)) by {
                    assert(ids@[i as int] == id);
                }
            }
            match self.graph.get_vertex(id) {
                Some(p) => {
                    r.push((id, p.duplicate()));
                },
                None => {},
            }
            i = i + 1;
        }
        proof {
            assert(ids_of(r@) =~= ids@);
        }
        r
    }

}

/// A query for edges: optionally a source, a target, and exact property
/// values.
pub struct EdgeQuery<'a> {
    pub graph: &'a PersistentGraph,
    pub from_filter: Option<u64>,
    pub to_filter: Option<u64>,
    pub conditions: Vec<(String, PropertyValue)>,
}

/// Whether edge `e` is an answer to an edge query.
pub open spec fn edge_matches(
    g: &PersistentGraph,
    from_filter: Option<u64>,
    to_filter: Option<u64>,
    conds: Seq<(Seq<char>, PropertyValueView)>,
    e: (u64, u64),
) -> bool {
    &&& g.edge_map().dom().contains(e)
    &&& (from_filter matches Some(f) ==> e.0 == f)
    &&& (to_filter matches Some(t) ==> e.1 == t)
    &&& satisfies(g.edge_map()[e].1, conds)
}

/// The edges of edge answers.
pub open spec fn edges_of(r: Seq<((u64, u64), u64, Properties)>) -> Seq<(u64, u64)> {
    Seq::new(r.len(), |k: int| r[k].0)
}

impl<'a> EdgeQuery<'a> {
    /// A query that every edge of `graph` answers.
    pub fn new(graph: &'a PersistentGraph) -> (q: Self)
        ensures
            q.graph == graph,
            q.from_filter.is_none(),
            q.to_filter.is_none(),
            q.conditions@.len() == 0,
    {
        EdgeQuery { graph, from_filter: None, to_filter: None, conditions: Vec::new() }
    }

    /// Restricts the query to edges from `id`.
    pub fn from(self, id: u64) -> (q: Self)
        ensures
            q.graph == self.graph,
            q.from_filter == Some(id),
            q.to_filter == self.to_filter,
            q.conditions@ == self.conditions@,
    {
        EdgeQuery { graph: self.graph, from_filter: Some(id), to_filter: self.to_filter, conditions: self.conditions }
    }

    /// Restricts the query to edges into `id`.
    pub fn to(self, id: u64) -> (q: Self)
        ensures
            q.graph == self.graph,
            q.from_filter == self.from_filter,
            q.to_filter == Some(id),
            q.conditions@ == self.conditions@,
    {
        EdgeQuery { graph: self.graph, from_filter: self.from_filter, to_filter: Some(id), conditions: self.conditions }
    }

    /// Adds the condition that edge property `key` holds `value`.
    pub fn with_edge_property(self, key: &str, value: PropertyValue) -> (q: Self)
        ensures
            q.graph == self.graph,
            q.from_filter == self.from_filter,
            q.to_filter == self.to_filter,
            conds_view(q.conditions@) == conds_view(self.conditions@).push((key@, value@)),
    {
        let mut conditions = self.conditions;
        let ghost c0 = conditions@;
        conditions.push((key.to_string(), value));
        proof {
            assert(conds_view(conditions@) =~= conds_view(c0).push((key@, value@)));
        }
        EdgeQuery { graph: self.graph, from_filter: self.from_filter, to_filter: self.to_filter, conditions }
    }

    /// The answering edges by increasing `(from, to)`, each with its
    /// weight bits and properties.
    pub fn execute(&self) -> (r: Vec<((u64, u64), u64, Properties)>)
        requires
            self.graph.wf(),
        ensures
            forall|a: int, b: int| 0 <= a < b < r@.len() ==> edge_key((#[trigger] r@[a]).0.0, r@[a].0.1) < edge_key((#[trigger] r@[b]).0.0, r@[b].0.1),
            forall|e: (u64, u64)| #[trigger] edges_of(r@).contains(e) <==> edge_matches(self.graph, self.from_filter, self.to_filter, conds_view(self.conditions@), e),
            forall|i: int| 0 <= i < r@.len() ==> (#[trigger] r@[i]).2.wf() && (r@[i].1, r@[i].2.map()) == self.graph.edge_map()[r@[i].0],
    {
        let g = self.graph;
        let ghost cv = conds_view(self.conditions@);
        proof {
            g.lemma_views();
        }
        let n = g.edge_count();
        let mut r: Vec<((u64, u64), u64, Properties)> = Vec::new();
        let mut i: usize = 0;
        while i < n
            invariant
                g.wf(),
                g == self.graph,
                cv == conds_view(self.conditions@),
                n == g.edge_list().len(),
                i <= n,
                forall|a: int, b: int| 0 <= a < b < g.edge_list().len() ==> edge_key(#[trigger] g.edge_list()[a].0, g.edge_list()[a].1)
                    < edge_key(#[trigger] g.edge_list()[b].0, g.edge_list()[b].1),
                forall|e: (u64, u64)| #[trigger] g.edge_map().dom().contains(e) <==> g.edge_list().contains(e),
                forall|a: int, b: int| 0 <= a < b < r@.len() ==> edge_key((#[trigger] r@[a]).0.0, r@[a].0.1) < edge_key((#[trigger] r@[b]).0.0, r@[b].0.1),
                forall|a: int| #![trigger r@[a]] 0 <= a < r@.len() ==> exists|j: int| 0 <= j < i && #[trigger] g.edge_list()[j] == r@[a].0,
                forall|e: (u64, u64)| #[trigger] edges_of(r@).contains(e) <==> exists|j: int| 0 <= j < i && g.edge_list()[j] == e
                    && edge_matches(g, self.from_filter, self.to_filter, cv, e),
                forall|k: int| 0 <= k < r@.len() ==> (#[trigger] r@[k]).2.wf() && (r@[k].1, r@[k].2.map()) == g.edge_map()[r@[k].0],
            decreases n - i,
        {
            let (e, rec) = g.edge_entry(i);
            let ghost r0 = r@;
            proof {
                assert(g.edge_list().contains(e)) by {
                    assert(g.edge_list()[i as int] == e);
                }
            }
            let keep_from = match self.from_filter {
                Some(f) => e.0 == f,
                None => true,
            };
            let keep_to = match self.to_filter {
                Some(t) => e.1 == t,
                None => true,
            };
            let keep = keep_from && keep_to && props_satisfy(&rec.properties, &self.conditions);
            if keep {
                proof {
                    assert forall|a: int| 0 <= a < r0.len() implies edge_key(#[trigger] r0[a].0.0, r0[a].0.1) < edge_key(e.0, e.1) by {
                        let j = choose|j: int| 0 <= j < i && #[trigger] g.edge_list()[j] == r0[a].0;
                        assert(edge_key(g.edge_list()[j].0, g.edge_list()[j].1) < edge_key(g.edge_list()[i as int].0, g.edge_list()[i as int].1));
                    }
                }
                r.push((e, rec.weight_bits, rec.properties.duplicate()));
            }
            proof {
                assert forall|a: int| #![trigger r@[a]] 0 <= a < r@.len() implies exists|j: int| 0 <= j < i + 1 && #[trigger] g.edge_list()[j] == r@[a].0 by {
                    if a < r0.len() {
                        assert(r@[a] == r0[a]);
                        let j = choose|j: int| 0 <= j < i && #[trigger] g.edge_list()[j] == r0[a].0;
                        assert(g.edge_list()[j] == r@[a].0);
                    } else {
                        assert(g.edge_list()[i as int] == r@[a].0);
                    }
                }
                assert forall|x: (u64, u64)| #[trigger] edges_of(r@).contains(x) <==> exists|j: int| 0 <= j < i + 1 && g.edge_list()[j] == x
                    && edge_matches(g, self.from_filter, self.to_filter, cv, x) by {
                    if edges_of(r@).contains(x) {
                        let q = choose|q: int| 0 <= q < edges_of(r@).len() && edges_of(r@)[q] == x;
                        if q < r0.len() {
                            assert(edges_of(r0)[q] == x);
                            assert(edges_of(r0).contains(x));
                            let j = choose|j: int| 0 <= j < i && g.edge_list()[j] == x && edge_matches(g, self.from_filter, self.to_filter, cv, x);
                            assert(0 <= j < i + 1 && g.edge_list()[j] == x && edge_matches(g, self.from_filter, self.to_filter, cv, x));
                        } else {
                            assert(keep);
                            assert(x == e);
                            assert(g.edge_list()[i as int] == x);
                            assert(edge_matches(g, self.from_filter, self.to_filter, cv, x));
                        }
                    }
                    if exists|j: int| 0 <= j < i + 1 && g.edge_list()[j] == x && edge_matches(g, self.from_filter, self.to_filter, cv, x) {
                        let j = choose|j: int| 0 <= j < i + 1 && g.edge_list()[j] == x && edge_matches(g, self.from_filter, self.to_filter, cv, x);
                        if j == i {
                            assert(edges_of(r@)[r@.len() - 1] == x);
                        } else {
                            assert(edges_of(r0).contains(x));
                            let q = choose|q: int| 0 <= q < edges_of(r0).len() && edges_of(r0)[q] == x;
                            assert(edges_of(r@)[q] == x);
                        }
                    }
                }
            }
            i = i + 1;
        }
        proof {
            assert forall|x: (u64, u64)| #[trigger] edges_of(r@).contains(x) <==> edge_matches(g, self.from_filter, self.to_filter, cv, x) by {
                if edge_matches(g, self.from_filter, self.to_filter, cv, x) {
                    assert(g.edge_list().contains(x));
                    let j = choose|j: int| 0 <= j < g.edge_list().len() && g.edge_list()[j] == x;
                }
            }
        }
        r
    }
}

impl PersistentGraph {
    /// Starts an edge query.
    pub fn find_edges(&self) -> (q: EdgeQuery<'_>)
        ensures
            q.graph == self,
            q.from_filter.is_none(),
            q.to_filter.is_none(),
            q.conditions@.len() == 0,
    {
        EdgeQuery::new(self)
    }
}

} // verus!
