//! Moving a graph between its property-graph form and its EdgeBlock form,
//! as done around log replay when a database is opened.

use vstd::prelude::*;
use crate::axol_format::PropMap;
use crate::edge_store::{far_ends, csr_from_pairs, store_from_csr, lemma_adjacency_in_range};
use crate::gpu_edge_block::{with_id, GPUEdgeBlockGraph};
use crate::persistent_graph::{with_vertex, PersistentGraph};
use crate::properties::Properties;

verus! {

/// Bit pattern of the weight 1.0, given to every edge rebuilt from
/// EdgeBlock storage (which keeps no weights).
pub const UNIT_WEIGHT_BITS: u64 = 0x3FF0_0000_0000_0000;

/// The edge `a -> b` of an EdgeBlock graph that a rebuilt property graph
/// keeps: `a` is a vertex other than `u64::MAX` and `b` is read among its
/// out-neighbours.
pub open spec fn kept_edge(eb: GPUEdgeBlockGraph, keep_max: bool, a: u64, b: u64) -> bool {
    !skipped(keep_max, a) && eb.has(a) && eb.out_list(a).contains(b)
}

/// Vertex `id` is left out: it is `u64::MAX`, unless `keep_max`.
pub open spec fn skipped(keep_max: bool, id: u64) -> bool {
    !keep_max && id == u64::MAX
}

/// Edges kept so far: those of the first `i` vertex indices, and the first
/// `j` out-neighbours of index `i`.
pub open spec fn kept_upto(eb: GPUEdgeBlockGraph, keep_max: bool, i: int, j: int, a: u64, b: u64) -> bool {
    &&& !skipped(keep_max, a)
    &&& eb.has(a)
    &&& {
        ||| eb.index_of(a) < i && eb.out_ids(eb.index_of(a)).contains(b)
        ||| eb.index_of(a) == i && eb.out_ids(i).take(j).contains(b)
    }
}

/// Whether edge `e` starts or ends at `id`.
pub open spec fn touches(e: (u64, u64), id: u64) -> bool {
    e.0 == id || e.1 == id
}

/// The empty property map.
pub open spec fn no_props() -> PropMap {
    Map::empty()
}

/// In a well-formed EdgeBlock graph a vertex is known exactly when it is
/// listed, and each listed id sits at its own index.
proof fn lemma_known(eb: GPUEdgeBlockGraph)
    requires
        eb.wf(),
    ensures
        forall|id: u64| #[trigger] eb.has(id) <==> eb.idx_to_id@.contains(id),
        forall|k: int| 0 <= k < eb.idx_to_id@.len() ==> eb.has(#[trigger] eb.idx_to_id@[k]) && eb.index_of(
            eb.idx_to_id@[k],
        ) == k,
{
    assert forall|id: u64| #[trigger] eb.has(id) <==> eb.idx_to_id@.contains(id) by {
        if eb.has(id) {
            assert(eb.idx_to_id@[eb.index_of(id)] == id);
        }
        if eb.idx_to_id@.contains(id) {
            let k = choose|k: int| 0 <= k < eb.idx_to_id@.len() && eb.idx_to_id@[k] == id;
            assert(eb.id_to_idx@.contains_key(eb.idx_to_id@[k]));
        }
    }
    assert forall|k: int| 0 <= k < eb.idx_to_id@.len() implies eb.has(#[trigger] eb.idx_to_id@[k]) && eb.index_of(
        eb.idx_to_id@[k],
    ) == k by {
        let id = eb.idx_to_id@[k];
        assert(eb.id_to_idx@.contains_key(id));
        let m = eb.index_of(id);
        assert(eb.idx_to_id@[m] == id);
        if m != k {
            if m < k {
                assert(eb.idx_to_id@[m] != eb.idx_to_id@[k]);
            } else {
                assert(eb.idx_to_id@[k] != eb.idx_to_id@[m]);
            }
        }
    }
}

/// Rebuilds a property graph from EdgeBlock storage: every vertex (but
/// `u64::MAX` unless `keep_max`) with its properties, then every edge read
/// from such a vertex, with weight 1.0 and no properties (a skipped target
/// is added without properties).
#[verifier::rlimit(40)]
pub fn rebuild_persistent(eb: &GPUEdgeBlockGraph, file_path: String, keep_max: bool) -> (g: PersistentGraph)
    requires
        eb.wf(),
        forall|k: int| 0 <= k < eb.vertex_props@.len() ==> (#[trigger] eb.vertex_props@[k]).wf(),
    ensures
        g.wf(),
        g.path() == file_path@,
        forall|id: u64| !skipped(keep_max, id) ==> (#[trigger] g.vertex_map().dom().contains(id) <==> eb.has(id)),
        forall|id: u64|
            !skipped(keep_max, id) && eb.has(id) ==> #[trigger] g.vertex_map()[id] == eb.vertex_props@[eb.index_of(id)].map(),
        !keep_max ==> (g.vertex_map().dom().contains(u64::MAX) <==> exists|a: u64| kept_edge(*eb, keep_max, a, u64::MAX)),
        !keep_max ==> (g.vertex_map().dom().contains(u64::MAX) ==> g.vertex_map()[u64::MAX] == no_props()),
        forall|a: u64, b: u64| #[trigger] g.edge_map().dom().contains((a, b)) <==> kept_edge(*eb, keep_max, a, b),
        forall|e: (u64, u64)|
            #[trigger] g.edge_map().dom().contains(e) ==> g.edge_map()[e] == (
                UNIT_WEIGHT_BITS,
                no_props(),
            ),
{
    proof {
        lemma_known(*eb);
    }
    let n = eb.idx_to_id.len();
    let mut g = PersistentGraph::new(file_path);
    let mut i: usize = 0;
    while i < n
        invariant
            n == eb.idx_to_id@.len(),
            eb.wf(),
            forall|k: int| 0 <= k < eb.vertex_props@.len() ==> (#[trigger] eb.vertex_props@[k]).wf(),
            forall|id: u64| #[trigger] eb.has(id) <==> eb.idx_to_id@.contains(id),
            forall|k: int| 0 <= k < eb.idx_to_id@.len() ==> eb.has(#[trigger] eb.idx_to_id@[k]) && eb.index_of(
                eb.idx_to_id@[k],
            ) == k,
            i <= n,
            g.wf(),
            g.path() == file_path@,
            g.edge_map() == Map::<(u64, u64), (u64, PropMap)>::empty(),
            forall|id: u64|
                #[trigger] g.vertex_map().dom().contains(id) <==> (!skipped(keep_max, id) && eb.has(id) && eb.index_of(id) < i),
            forall|id: u64|
                #[trigger] g.vertex_map().dom().contains(id) ==> g.vertex_map()[id] == eb.vertex_props@[eb.index_of(
                    id,
                )].map(),
        decreases n - i,
    {
        let id = eb.idx_to_id[i];
        if keep_max || id != u64::MAX {
            let p = eb.vertex_props[i].duplicate();
            g.add_vertex(id, p);
        }
        i = i + 1;
    }
    proof {
        assert forall|id: u64| !skipped(keep_max, id) && eb.has(id) implies #[trigger] g.vertex_map()[id]
            == eb.vertex_props@[eb.index_of(id)].map() by {
            assert(g.vertex_map().dom().contains(id));
        }
        assert forall|a: u64, b: u64| #[trigger] g.edge_map().dom().contains((a, b)) <==> kept_upto(*eb, keep_max, 0, 0, a, b) by {
            assert(eb.out_ids(0).take(0) =~= Seq::<u64>::empty());
        }
    }
    let mut i: usize = 0;
    while i < n
        invariant
            n == eb.idx_to_id@.len(),
            eb.wf(),
            forall|id: u64| #[trigger] eb.has(id) <==> eb.idx_to_id@.contains(id),
            forall|k: int| 0 <= k < eb.idx_to_id@.len() ==> eb.has(#[trigger] eb.idx_to_id@[k]) && eb.index_of(
                eb.idx_to_id@[k],
            ) == k,
            i <= n,
            g.wf(),
            g.path() == file_path@,
            forall|id: u64| !skipped(keep_max, id) ==> (#[trigger] g.vertex_map().dom().contains(id) <==> eb.has(id)),
            forall|id: u64|
                !skipped(keep_max, id) && eb.has(id) ==> #[trigger] g.vertex_map()[id] == eb.vertex_props@[eb.index_of(
                    id,
                )].map(),
            !keep_max ==> (g.vertex_map().dom().contains(u64::MAX) <==> exists|a: u64| #[trigger] g.edge_map().dom().contains((a, u64::MAX))),
            !keep_max ==> (g.vertex_map().dom().contains(u64::MAX) ==> g.vertex_map()[u64::MAX] == no_props()),
            forall|a: u64, b: u64| #[trigger] g.edge_map().dom().contains((a, b)) <==> kept_upto(*eb, keep_max, i as int, 0, a, b),
            forall|e: (u64, u64)| #[trigger] g.edge_map().dom().contains(e) ==> g.edge_map()[e] == (UNIT_WEIGHT_BITS, no_props()),
        decreases n - i,
    {
        let from = eb.idx_to_id[i];
        if keep_max || from != u64::MAX {
            let targets = eb.out_neighbors_by_idx(i);
            proof {
                lemma_adjacency_in_range(eb.vertices@, eb.block_counts@, eb.blocks@, n as int, i as int);
                assert(eb.index_of(from) == i as int);
            }
            let mut j: usize = 0;
            while j < targets.len()
                invariant
                    n == eb.idx_to_id@.len(),
                    eb.wf(),
                    forall|id: u64| #[trigger] eb.has(id) <==> eb.idx_to_id@.contains(id),
                    forall|k: int| 0 <= k < eb.idx_to_id@.len() ==> eb.has(#[trigger] eb.idx_to_id@[k]) && eb.index_of(
                        eb.idx_to_id@[k],
                    ) == k,
                    i < n,
                    from == eb.idx_to_id@[i as int],
                    !skipped(keep_max, from),
                    eb.index_of(from) == i as int,
                    targets@ == eb.out_ids(i as int),
                    forall|t: int| 0 <= t < eb.out_adj(i as int).len() ==> (#[trigger] eb.out_adj(i as int)[t] as int) < n,
                    j <= targets@.len(),
                    g.wf(),
                    g.path() == file_path@,
                    forall|id: u64| !skipped(keep_max, id) ==> (#[trigger] g.vertex_map().dom().contains(id) <==> eb.has(id)),
                    forall|id: u64|
                        !skipped(keep_max, id) && eb.has(id) ==> #[trigger] g.vertex_map()[id] == eb.vertex_props@[eb.index_of(
                            id,
                        )].map(),
                    !keep_max ==> (g.vertex_map().dom().contains(u64::MAX) <==> exists|a: u64|
                        #[trigger] g.edge_map().dom().contains((a, u64::MAX))),
                    !keep_max ==> (g.vertex_map().dom().contains(u64::MAX) ==> g.vertex_map()[u64::MAX] == no_props()),
                    forall|a: u64, b: u64|
                        #[trigger] g.edge_map().dom().contains((a, b)) <==> kept_upto(*eb, keep_max, i as int, j as int, a, b),
                    forall|e: (u64, u64)|
                        #[trigger] g.edge_map().dom().contains(e) ==> g.edge_map()[e] == (UNIT_WEIGHT_BITS, no_props()),
                decreases targets@.len() - j,
            {
                let to = targets[j];
                let ghost vm0 = g.vertex_map();
                let ghost em0 = g.edge_map();
                let p = Properties::new();
                proof {
                    assert(p.map() =~= no_props());
                    let t = eb.out_adj(i as int)[j as int];
                    assert(to == eb.idx_to_id@[t as int]);
                    assert(eb.has(to));
                }
                g.add_edge(from, to, UNIT_WEIGHT_BITS, p);
                proof {
                    let oi = eb.out_ids(i as int);
                    assert(oi.take(j as int + 1) =~= oi.take(j as int).push(to));
                    assert forall|a: u64, b: u64| #[trigger] g.edge_map().dom().contains((a, b)) <==> kept_upto(
                        *eb,
                        keep_max,
                        i as int,
                        j as int + 1,
                        a,
                        b,
                    ) by {
                        if a == from && b == to {
                            assert(oi.take(j as int + 1)[j as int] == to);
                        }
                        if em0.dom().contains((a, b)) {
                            assert(kept_upto(*eb, keep_max, i as int, j as int, a, b));
                        }
                    }
                    if !keep_max && to == u64::MAX {
                        assert(g.edge_map().dom().contains((from, u64::MAX)));
                    }
                    if !keep_max && g.vertex_map().dom().contains(u64::MAX) && to != u64::MAX {
                        assert(vm0.dom().contains(u64::MAX));
                        let a = choose|a: u64| #[trigger] em0.dom().contains((a, u64::MAX));
                        assert(g.edge_map().dom().contains((a, u64::MAX)));
                    }
                    if !keep_max && exists|a: u64| #[trigger] g.edge_map().dom().contains((a, u64::MAX)) {
                        let a = choose|a: u64| #[trigger] g.edge_map().dom().contains((a, u64::MAX));
                        if (a, u64::MAX) != (from, to) {
                            assert(em0.dom().contains((a, u64::MAX)));
                        }
                    }
                }
                j = j + 1;
            }
            proof {
                assert(eb.out_ids(i as int).take(targets@.len() as int) =~= eb.out_ids(i as int));
                assert forall|a: u64, b: u64| #[trigger] g.edge_map().dom().contains((a, b)) <==> kept_upto(
                    *eb,
                    keep_max,
                    i as int + 1,
                    0,
                    a,
                    b,
                ) by {
                    assert(eb.out_ids(i as int).take(0) =~= Seq::<u64>::empty());
                }
            }
        } else {
            proof {
                assert forall|a: u64, b: u64| #[trigger] g.edge_map().dom().contains((a, b)) <==> kept_upto(
                    *eb,
                    keep_max,
                    i as int + 1,
                    0,
                    a,
                    b,
                ) by {
                    if eb.has(a) && eb.index_of(a) == i as int {
                        assert(a == from);
                    }
                    assert(eb.out_ids(i as int).take(0) =~= Seq::<u64>::empty());
                }
            }
        }
        i = i + 1;
    }
    proof {
        assert forall|a: u64, b: u64| #[trigger] g.edge_map().dom().contains((a, b)) <==> kept_edge(*eb, keep_max, a, b) by {
            if eb.has(a) {
                assert(eb.out_list(a) == eb.out_ids(eb.index_of(a)));
                assert(eb.idx_to_id@[eb.index_of(a)] == a);
            }
        }
        if !keep_max && g.vertex_map().dom().contains(u64::MAX) {
            let a = choose|a: u64| #[trigger] g.edge_map().dom().contains((a, u64::MAX));
            assert(kept_edge(*eb, keep_max, a, u64::MAX));
        }
        if !keep_max && exists|a: u64| kept_edge(*eb, keep_max, a, u64::MAX) {
            let a = choose|a: u64| kept_edge(*eb, keep_max, a, u64::MAX);
            assert(g.edge_map().dom().contains((a, u64::MAX)));
        }
    }
    g
}

/// Rebuilds a property graph from EdgeBlock storage: every vertex but
/// `u64::MAX` with its properties, then every edge read from such a vertex,
/// with weight 1.0 and no properties (a target `u64::MAX` is added without
/// properties).
pub fn edgeblock_to_persistent(eb: &GPUEdgeBlockGraph, file_path: String) -> (g: PersistentGraph)
    requires
        eb.wf(),
        forall|k: int| 0 <= k < eb.vertex_props@.len() ==> (#[trigger] eb.vertex_props@[k]).wf(),
    ensures
        g.wf(),
        g.path() == file_path@,
        forall|id: u64| id != u64::MAX ==> (#[trigger] g.vertex_map().dom().contains(id) <==> eb.has(id)),
        forall|id: u64|
            id != u64::MAX && eb.has(id) ==> #[trigger] g.vertex_map()[id] == eb.vertex_props@[eb.index_of(id)].map(),
        g.vertex_map().dom().contains(u64::MAX) <==> exists|a: u64| kept_edge(*eb, false, a, u64::MAX),
        g.vertex_map().dom().contains(u64::MAX) ==> g.vertex_map()[u64::MAX] == no_props(),
        forall|a: u64, b: u64| #[trigger] g.edge_map().dom().contains((a, b)) <==> kept_edge(*eb, false, a, b),
        forall|e: (u64, u64)|
            #[trigger] g.edge_map().dom().contains(e) ==> g.edge_map()[e] == (UNIT_WEIGHT_BITS, no_props()),
{
    rebuild_persistent(eb, file_path, false)
}

/// Out-neighbours of `a` in an edge list: the targets of its edges from
/// `a`, in list order.
pub open spec fn targets_in(el: Seq<(u64, u64)>, a: u64) -> Seq<u64> {
    far_ends(el.map_values(|e: (u64, u64)| e.0), el.map_values(|e: (u64, u64)| e.1), a, el.len() as int)
}

/// In-neighbours of `b` in an edge list: the sources of its edges to `b`,
/// in list order.
pub open spec fn sources_in(el: Seq<(u64, u64)>, b: u64) -> Seq<u64> {
    far_ends(el.map_values(|e: (u64, u64)| e.1), el.map_values(|e: (u64, u64)| e.0), b, el.len() as int)
}

/// Pairs of vertex indices read through distinct ids are the pairs of those
/// ids.
proof fn lemma_far_ends_ids(
    near: Seq<u32>,
    far: Seq<u32>,
    ids: Seq<u64>,
    nu: Seq<u64>,
    fu: Seq<u64>,
    x: u32,
    k: int,
)
    requires
        0 <= k <= near.len(),
        near.len() == far.len(),
        nu.len() == near.len(),
        fu.len() == near.len(),
        (x as int) < ids.len(),
        forall|i: int, j: int| 0 <= i < j < ids.len() ==> #[trigger] ids[i] != #[trigger] ids[j],
        forall|i: int| 0 <= i < near.len() ==> (#[trigger] near[i] as int) < ids.len() && ids[near[i] as int] == nu[i],
        forall|i: int| 0 <= i < far.len() ==> (#[trigger] far[i] as int) < ids.len() && ids[far[i] as int] == fu[i],
    ensures
        far_ends(near, far, x, k).map_values(|t: u32| ids[t as int]) == far_ends(nu, fu, ids[x as int], k),
    decreases k,
{
    if k > 0 {
        lemma_far_ends_ids(near, far, ids, nu, fu, x, k - 1);
        let prev = far_ends(near, far, x, k - 1);
        let cur = far_ends(near, far, x, k);
        let lhs = cur.map_values(|t: u32| ids[t as int]);
        let p2 = prev.map_values(|t: u32| ids[t as int]);
        let rhs = far_ends(nu, fu, ids[x as int], k);
        let i = near[k - 1] as int;
        assert(near[k - 1] == x <==> nu[k - 1] == ids[x as int]) by {
            if nu[k - 1] == ids[x as int] && i != x as int {
                if i < x as int {
                    assert(ids[i] != ids[x as int]);
                } else {
                    assert(ids[x as int] != ids[i]);
                }
            }
        }
        assert forall|j: int| 0 <= j < lhs.len() implies lhs[j] == rhs[j] by {
            if j < prev.len() {
                assert(lhs[j] == p2[j]);
            }
        }
        assert(lhs =~= rhs);
    }
}

/// No pair has near end `x`: no far ends.
proof fn lemma_far_ends_absent(near: Seq<u64>, far: Seq<u64>, x: u64, k: int)
    requires
        0 <= k <= near.len(),
        forall|i: int| 0 <= i < k ==> #[trigger] near[i] != x,
    ensures
        far_ends(near, far, x, k) == Seq::<u64>::empty(),
    decreases k,
{
    if k > 0 {
        lemma_far_ends_absent(near, far, x, k - 1);
        assert(far_ends(near, far, x, k) =~= Seq::<u64>::empty());
    }
}

/// Builds EdgeBlock storage from a property graph: every vertex with its
/// properties, by increasing id, then every endpoint of an edge that is no
/// vertex, with no properties; each vertex's out-neighbours are the targets
/// of its edges and its in-neighbours the sources of its edges, both by
/// increasing `(from, to)` (weights and edge properties are not kept).
#[verifier::rlimit(60)]
pub fn persistent_to_edgeblock(pg: &PersistentGraph) -> (eb: GPUEdgeBlockGraph)
    requires
        pg.wf(),
        pg.vertex_ids().len() + 3 * pg.edge_list().len() + 2 <= 0xffff_ffff,
    ensures
        eb.wf(),
        eb.runs_ok(),
        eb.idx_to_id@.len() >= pg.vertex_ids().len(),
        eb.idx_to_id@.subrange(0, pg.vertex_ids().len() as int) == pg.vertex_ids(),
        forall|id: u64|
            #[trigger] eb.has(id) <==> (pg.vertex_map().dom().contains(id) || exists|e: (u64, u64)|
                #[trigger] pg.edge_map().dom().contains(e) && (e.0 == id || e.1 == id)),
        forall|id: u64|
            #[trigger] pg.vertex_map().dom().contains(id) ==> eb.vertex_props@[eb.index_of(id)].map()
                == pg.vertex_map()[id],
        forall|id: u64|
            eb.has(id) && !pg.vertex_map().dom().contains(id) ==> #[trigger] eb.vertex_props@[eb.index_of(id)]@.len() == 0,
        forall|id: u64| #[trigger] eb.out_list(id) == targets_in(pg.edge_list(), id),
        forall|id: u64| #[trigger] eb.in_list(id) == sources_in(pg.edge_list(), id),
        eb.total_edges == pg.edge_list().len(),
{
    let ghost vids = pg.vertex_ids();
    let ghost el = pg.edge_list();
    proof {
        pg.lemma_views();
    }
    let nv = pg.vertex_count();
    let ne = pg.edge_count();
    let mut eb = GPUEdgeBlockGraph::new();
    let mut i: usize = 0;
    while i < nv
        invariant
            pg.wf(),
            vids == pg.vertex_ids(),
            nv == vids.len(),
            forall|a: int, b: int| 0 <= a < b < vids.len() ==> #[trigger] vids[a] < #[trigger] vids[b],
            vids.len() + 3 * el.len() + 2 <= 0xffff_ffff,
            i <= nv,
            eb.wf(),
            eb.idx_to_id@ == vids.take(i as int),
            eb.vertex_props@.len() == i,
            forall|k: int| 0 <= k < i ==> (#[trigger] eb.vertex_props@[k]).map() == pg.vertex_map()[vids[k]],
        decreases nv - i,
    {
        let (id, props) = pg.vertex_entry(i);
        let p = props.duplicate();
        proof {
            assert(!eb.idx_to_id@.contains(id)) by {
                if eb.idx_to_id@.contains(id) {
                    let k = choose|k: int| 0 <= k < eb.idx_to_id@.len() && eb.idx_to_id@[k] == id;
                    assert(vids[k] < vids[i as int]);
                }
            }
            lemma_known(eb);
        }
        eb.add_vertex(id, p);
        proof {
            assert(eb.idx_to_id@ =~= vids.take(i as int + 1));
        }
        i = i + 1;
    }
    proof {
        assert(eb.idx_to_id@ =~= vids);
    }
    let mut froms: Vec<u32> = Vec::new();
    let mut tos: Vec<u32> = Vec::new();
    let mut i: usize = 0;
    while i < ne
        invariant
            pg.wf(),
            vids == pg.vertex_ids(),
            el == pg.edge_list(),
            ne == el.len(),
            nv == vids.len(),
            vids.len() + 3 * el.len() + 2 <= 0xffff_ffff,
            i <= ne,
            eb.wf(),
            nv <= eb.idx_to_id@.len() <= nv + 2 * i,
            eb.idx_to_id@.subrange(0, nv as int) == vids,
            eb.vertex_props@.len() == eb.idx_to_id@.len(),
            forall|k: int| 0 <= k < nv ==> (#[trigger] eb.vertex_props@[k]).map() == pg.vertex_map()[vids[k]],
            forall|k: int| nv <= k < eb.vertex_props@.len() ==> (#[trigger] eb.vertex_props@[k])@.len() == 0,
            forall|id: u64|
                #[trigger] eb.idx_to_id@.contains(id) <==> (vids.contains(id) || exists|k: int|
                    0 <= k < i && #[trigger] touches(el[k], id)),
            froms@.len() == i,
            tos@.len() == i,
            forall|k: int| 0 <= k < i ==> (#[trigger] froms@[k] as int) < eb.idx_to_id@.len() && eb.idx_to_id@[froms@[k] as int] == el[k].0,
            forall|k: int| 0 <= k < i ==> (#[trigger] tos@[k] as int) < eb.idx_to_id@.len() && eb.idx_to_id@[tos@[k] as int] == el[k].1,
        decreases ne - i,
    {
        let (e, _) = pg.edge_entry(i);
        let ghost s0 = eb;
        let fi = eb.index_for(e.0);
        let ghost s1 = eb;
        let ti = eb.index_for(e.1);
        froms.push(fi as u32);
        tos.push(ti as u32);
        proof {
            let w1 = with_id(s0.idx_to_id@, e.0);
            assert(s1.idx_to_id@ == w1);
            assert(forall|j: int| 0 <= j < s0.idx_to_id@.len() ==> #[trigger] w1[j] == s0.idx_to_id@[j]);
            assert(forall|j: int| 0 <= j < w1.len() ==> #[trigger] eb.idx_to_id@[j] == w1[j]);
            assert(eb.idx_to_id@[fi as int] == e.0);
            assert(eb.idx_to_id@[ti as int] == e.1);
            assert(el[i as int] == e);
            assert forall|k: int| 0 <= k < i + 1 implies (#[trigger] froms@[k] as int) < eb.idx_to_id@.len()
                && eb.idx_to_id@[froms@[k] as int] == el[k].0 by {
                if k < i {
                    assert(w1[froms@[k] as int] == s0.idx_to_id@[froms@[k] as int]);
                }
            }
            assert forall|k: int| 0 <= k < i + 1 implies (#[trigger] tos@[k] as int) < eb.idx_to_id@.len()
                && eb.idx_to_id@[tos@[k] as int] == el[k].1 by {
                if k < i {
                    assert(w1[tos@[k] as int] == s0.idx_to_id@[tos@[k] as int]);
                }
            }
            assert(w1.subrange(0, nv as int) =~= vids);
            assert(eb.idx_to_id@.subrange(0, nv as int) =~= vids);
            assert forall|id: u64| #[trigger] eb.idx_to_id@.contains(id) <==> (vids.contains(id) || exists|k: int|
                0 <= k < i + 1 && #[trigger] touches(el[k], id)) by {
                if eb.idx_to_id@.contains(id) && id != e.0 && id != e.1 {
                    let k = choose|k: int| 0 <= k < eb.idx_to_id@.len() && eb.idx_to_id@[k] == id;
                    if !w1.contains(id) {
                        assert(eb.idx_to_id@ == w1.push(e.1));
                    }
                    assert(w1.contains(id));
                    if !s0.idx_to_id@.contains(id) {
                        assert(w1 == s0.idx_to_id@.push(e.0));
                        let k2 = choose|k2: int| 0 <= k2 < w1.len() && w1[k2] == id;
                    }
                    assert(s0.idx_to_id@.contains(id));
                    if exists|k: int| 0 <= k < i && #[trigger] touches(el[k], id) {
                        let k = choose|k: int| 0 <= k < i && #[trigger] touches(el[k], id);
                        assert(touches(el[k], id));
                    }
                }
                if id == e.0 || id == e.1 {
                    assert(touches(el[i as int], id));
                }
                assert forall|k: int| 0 <= k < i + 1 && #[trigger] touches(el[k], id) implies eb.idx_to_id@.contains(id) by {
                    if k < i {
                        assert(exists|k2: int| 0 <= k2 < i && #[trigger] touches(el[k2], id));
                        assert(s0.idx_to_id@.contains(id));
                        let m = choose|m: int| 0 <= m < s0.idx_to_id@.len() && s0.idx_to_id@[m] == id;
                        assert(w1[m] == id);
                        assert(eb.idx_to_id@[m] == id);
                    } else {
                        assert(eb.idx_to_id@[fi as int] == e.0);
                        assert(eb.idx_to_id@[ti as int] == e.1);
                    }
                }
                if vids.contains(id) {
                    let m = choose|m: int| 0 <= m < vids.len() && vids[m] == id;
                    assert(eb.idx_to_id@.subrange(0, nv as int)[m] == id);
                }
            }
        }
        i = i + 1;
    }
    let n = eb.idx_to_id.len();
    let (fo, ft) = csr_from_pairs(&froms, &tos, n);
    let (bo, bt) = csr_from_pairs(&tos, &froms, n);
    let (vertices, block_counts, blocks) = store_from_csr(fo.as_slice(), ft.as_slice(), n);
    let (reverse_vertices, reverse_block_counts, reverse_blocks) = store_from_csr(bo.as_slice(), bt.as_slice(), n);
    let ghost s = eb;
    let g = GPUEdgeBlockGraph {
        vertices,
        block_counts,
        blocks,
        reverse_vertices,
        reverse_block_counts,
        reverse_blocks,
        vertex_count: eb.vertex_count,
        block_capacity: 32,
        idx_to_id: eb.idx_to_id,
        id_to_idx: eb.id_to_idx,
        vertex_props: eb.vertex_props,
        total_edges: ne as u64,
        blocks_dirty: true,
        reverse_blocks_dirty: true,
        structure_dirty: true,
    };
    proof {
        let ids = g.idx_to_id@;
        let nu = el.map_values(|e: (u64, u64)| e.0);
        let fu = el.map_values(|e: (u64, u64)| e.1);
        assert(g.wf());
        lemma_known(g);
        assert forall|id: u64|
            #[trigger] g.has(id) <==> (pg.vertex_map().dom().contains(id) || exists|e: (u64, u64)|
                #[trigger] pg.edge_map().dom().contains(e) && (e.0 == id || e.1 == id)) by {
            assert forall|k: int| 0 <= k < ne && #[trigger] touches(el[k], id) implies exists|e: (u64, u64)|
                #[trigger] pg.edge_map().dom().contains(e) && (e.0 == id || e.1 == id) by {
                assert(el.contains(el[k]));
                assert(pg.edge_map().dom().contains(el[k]));
            }
            if exists|e: (u64, u64)| #[trigger] pg.edge_map().dom().contains(e) && (e.0 == id || e.1 == id) {
                let e = choose|e: (u64, u64)| #[trigger] pg.edge_map().dom().contains(e) && (e.0 == id || e.1 == id);
                assert(el.contains(e));
                let k = choose|k: int| 0 <= k < el.len() && el[k] == e;
                assert(touches(el[k], id));
            }
        }
        assert forall|id: u64| #[trigger] pg.vertex_map().dom().contains(id) implies g.vertex_props@[g.index_of(id)].map()
            == pg.vertex_map()[id] by {
            assert(vids.contains(id));
            let m = choose|m: int| 0 <= m < vids.len() && vids[m] == id;
            assert(ids.subrange(0, nv as int)[m] == id);
            assert(ids[m] == id);
        }
        assert forall|id: u64| g.has(id) && !pg.vertex_map().dom().contains(id) implies #[trigger] g.vertex_props@[g.index_of(
            id,
        )]@.len() == 0 by {
            let m = g.index_of(id);
            assert(ids[m] == id);
            if m < nv {
                assert(ids.subrange(0, nv as int)[m] == id);
                assert(vids.contains(id));
            }
        }
        assert forall|id: u64| #[trigger] g.out_list(id) == targets_in(el, id) by {
            if g.has(id) {
                let v = g.index_of(id);
                assert(ids[v] == id);
                assert(g.out_adj(v) == far_ends(froms@, tos@, v as u32, ne as int));
                lemma_far_ends_ids(froms@, tos@, ids, nu, fu, v as u32, ne as int);
                assert(g.out_ids(v) =~= far_ends(froms@, tos@, v as u32, ne as int).map_values(|t: u32| ids[t as int]));
            } else {
                assert forall|k: int| 0 <= k < ne implies #[trigger] nu[k] != id by {
                    if nu[k] == id {
                        assert(touches(el[k], id));
                        assert(ids.contains(id));
                    }
                }
                lemma_far_ends_absent(nu, fu, id, ne as int);
            }
        }
        assert forall|id: u64| #[trigger] g.in_list(id) == sources_in(el, id) by {
            if g.has(id) {
                let v = g.index_of(id);
                assert(ids[v] == id);
                assert(g.in_adj(v) == far_ends(tos@, froms@, v as u32, ne as int));
                lemma_far_ends_ids(tos@, froms@, ids, fu, nu, v as u32, ne as int);
                assert(g.in_ids(v) =~= far_ends(tos@, froms@, v as u32, ne as int).map_values(|t: u32| ids[t as int]));
            } else {
                assert forall|k: int| 0 <= k < ne implies #[trigger] fu[k] != id by {
                    if fu[k] == id {
                        assert(touches(el[k], id));
                        assert(ids.contains(id));
                    }
                }
                lemma_far_ends_absent(fu, nu, id, ne as int);
            }
        }
    }
    g
}

} // verus!
