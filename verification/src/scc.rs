//! Strongly connected components of an EdgeBlock graph by Tarjan's
//! algorithm, with an explicit DFS stack and a scan of each vertex's
//! blocks slot by slot.

use vstd::prelude::*;
use crate::gpu_edge_block::GPUEdgeBlockGraph;
use crate::edge_store::{num_blocks, lemma_blocks_len, block_len, block_slot, block_entries, run_entries, store_ok};

verus! {

/// The components one after the other.
pub open spec fn flatten(r: Seq<Vec<usize>>) -> Seq<usize>
    decreases r.len(),
{
    if r.len() == 0 {
        seq![]
    } else {
        flatten(r.drop_last()) + r.last()@
    }
}

/// `w` is an out-neighbour of vertex index `u`.
pub open spec fn arc(eb: &GPUEdgeBlockGraph, u: int, w: int) -> bool {
    0 <= u < eb.vertex_count && 0 <= w < eb.vertex_count && eb.out_adj(u).contains(w as u32)
}

/// `p` is a walk along out-edges.
pub open spec fn is_path(eb: &GPUEdgeBlockGraph, p: Seq<int>) -> bool {
    &&& p.len() > 0
    &&& forall|i: int| 0 <= i < p.len() - 1 ==> arc(eb, #[trigger] p[i], p[i + 1])
}

/// Vertex `b` can be reached from vertex `a` along out-edges.
#[verifier::opaque]
pub open spec fn reaches(eb: &GPUEdgeBlockGraph, a: int, b: int) -> bool {
    exists|p: Seq<int>| #[trigger] is_path(eb, p) && p[0] == a && p.last() == b
}

proof fn lemma_reach_refl(eb: &GPUEdgeBlockGraph, a: int)
    ensures
        reaches(eb, a, a),
{
    reveal(reaches);
    let p = seq![a];
    assert(is_path(eb, p));
}

proof fn lemma_reach_arc(eb: &GPUEdgeBlockGraph, a: int, b: int)
    requires
        arc(eb, a, b),
    ensures
        reaches(eb, a, b),
{
    reveal(reaches);
    let p = seq![a, b];
    assert(is_path(eb, p));
}

proof fn lemma_reach_trans(eb: &GPUEdgeBlockGraph, a: int, b: int, c: int)
    requires
        reaches(eb, a, b),
        reaches(eb, b, c),
    ensures
        reaches(eb, a, c),
{
    reveal(reaches);
    let p = choose|p: Seq<int>| #[trigger] is_path(eb, p) && p[0] == a && p.last() == b;
    let q = choose|q: Seq<int>| #[trigger] is_path(eb, q) && q[0] == b && q.last() == c;
    let r = p + q.skip(1);
    assert forall|i: int| 0 <= i < r.len() - 1 implies arc(eb, #[trigger] r[i], r[i + 1]) by {
        if i < p.len() - 1 {
            assert(r[i] == p[i] && r[i + 1] == p[i + 1]);
        } else if i == p.len() - 1 {
            assert(r[i] == b);
            assert(r[i + 1] == q[1]);
            assert(arc(eb, q[0], q[1]));
        } else {
            assert(r[i] == q[i - p.len() + 1]);
            assert(r[i + 1] == q[i - p.len() + 2]);
            assert(arc(eb, q[i - p.len() + 1], q[i - p.len() + 2]));
        }
    }
    if q.len() == 1 {
        assert(r =~= p);
    } else {
        assert(r.last() == q.last());
    }
    assert(is_path(eb, r));
}

/// Slot `pos` of the forward blocks of `u` holds neighbour `w`: slot
/// `pos % 32` of its `pos / 32`-th block, within that block's edge count.
pub open spec fn reads(eb: &GPUEdgeBlockGraph, u: int, pos: int, w: int) -> bool {
    let b = eb.vertices@[u] + pos / 32;
    &&& 0 <= pos
    &&& pos / 32 < eb.block_counts@[u]
    &&& pos % 32 < block_len(eb.blocks@, b)
    &&& block_slot(eb.blocks@, b, pos % 32) == w
}

/// The neighbours held by a run of blocks are the slots read in it.
proof fn lemma_run_slots(blocks: Seq<u32>, first: int, count: int)
    requires
        blocks.len() % 34 == 0,
        0 <= first,
        0 <= count,
        first + count <= num_blocks(blocks),
        forall|b: int| 0 <= b < num_blocks(blocks) ==> #[trigger] block_len(blocks, b) <= 32,
    ensures
        forall|x: u32| #[trigger] run_entries(blocks, first, count).contains(x) <==> exists|b: int, j: int|
            0 <= b < count && 0 <= j < block_len(blocks, first + b) && #[trigger] block_slot(blocks, first + b, j) == x,
    decreases count,
{
    lemma_blocks_len(blocks);
    if count > 0 {
        lemma_run_slots(blocks, first, count - 1);
        let last = first + count - 1;
        let be = block_entries(blocks, last);
        let nb = num_blocks(blocks);
        assert(block_len(blocks, last) <= 32);
        assert(last * 34 + 34 <= nb * 34) by (nonlinear_arith)
            requires
                last < nb,
        ;
        assert(be.len() == block_len(blocks, last));
        assert(forall|j: int| 0 <= j < be.len() ==> #[trigger] be[j] == block_slot(blocks, last, j));
        let prev = run_entries(blocks, first, count - 1);
        assert(run_entries(blocks, first, count) == prev + be);
        assert forall|x: u32| #[trigger] run_entries(blocks, first, count).contains(x) <==> exists|b: int, j: int|
            0 <= b < count && 0 <= j < block_len(blocks, first + b) && #[trigger] block_slot(blocks, first + b, j) == x by {
            if run_entries(blocks, first, count).contains(x) {
                let k = choose|k: int| 0 <= k < (prev + be).len() && (prev + be)[k] == x;
                if k < prev.len() {
                    assert(prev.contains(x));
                    let (b, j) = choose|b: int, j: int|
                        0 <= b < count - 1 && 0 <= j < block_len(blocks, first + b) && #[trigger] block_slot(blocks, first + b, j) == x;
                    assert(block_len(blocks, first + b) >= 0);
                } else {
                    let j = k - prev.len();
                    assert(be[j] == x);
                    assert(block_slot(blocks, last, j) == x);
                    assert(block_len(blocks, first + (count - 1)) >= 0);
                }
            }
            if exists|b: int, j: int|
                0 <= b < count && 0 <= j < block_len(blocks, first + b) && #[trigger] block_slot(blocks, first + b, j) == x {
                let (b, j) = choose|b: int, j: int|
                    0 <= b < count && 0 <= j < block_len(blocks, first + b) && #[trigger] block_slot(blocks, first + b, j) == x;
                if b < count - 1 {
                    assert(prev.contains(x));
                    let k = choose|k: int| 0 <= k < prev.len() && prev[k] == x;
                    assert((prev + be)[k] == x);
                } else {
                    assert(be[j] == x);
                    assert((prev + be)[prev.len() + j] == x);
                }
            }
        }
    }
}

/// The slots read for `u` are exactly its out-neighbours.
proof fn lemma_reads_adjacency(eb: &GPUEdgeBlockGraph, u: int)
    requires
        eb.wf(),
        0 <= u < eb.vertex_count,
    ensures
        forall|pos: int, w: int| #[trigger] reads(eb, u, pos, w) ==> 0 <= w < eb.vertex_count && eb.out_adj(u).contains(w as u32)
            && pos < eb.block_counts@[u] * 32,
        forall|w: u32| #[trigger] eb.out_adj(u).contains(w) ==> exists|pos: int| #[trigger] reads(eb, u, pos, w as int),
{
    let n = eb.vertex_count as int;
    let first = eb.vertices@[u] as int;
    let count = eb.block_counts@[u] as int;
    let blocks = eb.blocks@;
    if count > 0 {
        lemma_run_slots(blocks, first, count);
    }
    assert forall|pos: int, w: int| #[trigger] reads(eb, u, pos, w) implies 0 <= w < n && eb.out_adj(u).contains(w as u32)
        && pos < count * 32 by {
        let b = pos / 32;
        let j = pos % 32;
        assert(count > 0);
        assert(block_slot(blocks, first + b, j) == w);
        assert(block_len(blocks, first + b) >= 0);
        assert(pos < count * 32) by (nonlinear_arith)
            requires
                b == pos / 32,
                b < count,
                0 <= pos,
        ;
    }
    assert forall|w: u32| #[trigger] eb.out_adj(u).contains(w) implies exists|pos: int| #[trigger] reads(eb, u, pos, w as int) by {
        assert(count > 0);
        let (b, j) = choose|b: int, j: int|
            0 <= b < count && 0 <= j < block_len(blocks, first + b) && #[trigger] block_slot(blocks, first + b, j) == w;
        assert(block_len(blocks, first + b) <= 32);
        let pos = b * 32 + j;
        assert(pos / 32 == b && pos % 32 == j) by (nonlinear_arith)
            requires
                pos == b * 32 + j,
                0 <= j < 32,
                0 <= b,
        ;
        assert(reads(eb, u, pos, w as int));
    }
}

/// Number of zero entries.
pub open spec fn count_zero(s: Seq<u32>) -> nat
    decreases s.len(),
{
    if s.len() == 0 {
        0
    } else {
        count_zero(s.drop_last()) + if s.last() == 0 { 1nat } else { 0nat }
    }
}

proof fn lemma_count_zero_set(s: Seq<u32>, i: int, x: u32)
    requires
        0 <= i < s.len(),
        s[i] == 0,
        x != 0,
    ensures
        count_zero(s.update(i, x)) + 1 == count_zero(s),
    decreases s.len(),
{
    if i < s.len() - 1 {
        assert(s.update(i, x).drop_last() =~= s.drop_last().update(i, x));
        lemma_count_zero_set(s.drop_last(), i, x);
    } else {
        assert(s.update(i, x).drop_last() =~= s.drop_last());
    }
}

proof fn lemma_count_zero_le(s: Seq<u32>)
    ensures
        count_zero(s) <= s.len(),
    decreases s.len(),
{
    if s.len() > 0 {
        lemma_count_zero_le(s.drop_last());
    }
}

proof fn lemma_count_zero_all(s: Seq<u32>)
    requires
        forall|i: int| 0 <= i < s.len() ==> #[trigger] s[i] == 0,
    ensures
        count_zero(s) == s.len(),
    decreases s.len(),
{
    if s.len() > 0 {
        lemma_count_zero_all(s.drop_last());
    }
}

proof fn lemma_count_zero_other(s: Seq<u32>, i: int, x: u32)
    requires
        0 <= i < s.len(),
        (s[i] == 0) == (x == 0),
    ensures
        count_zero(s.update(i, x)) == count_zero(s),
    decreases s.len(),
{
    if i < s.len() - 1 {
        assert(s.update(i, x).drop_last() =~= s.drop_last().update(i, x));
        lemma_count_zero_other(s.drop_last(), i, x);
    } else {
        assert(s.update(i, x).drop_last() =~= s.drop_last());
    }
}

/// Termination measure of the DFS: three per unvisited vertex, one per
/// stack entry, less two when the top entry is not visited yet.
pub open spec fn dfs_measure(index: Seq<u32>, dfs: Seq<(usize, usize)>) -> int {
    3 * count_zero(index) + dfs.len() - if dfs.len() > 0 && index[dfs.last().0 as int] == 0 {
        2int
    } else {
        0int
    }
}

/// The state invariant of the search between steps.
pub open spec fn search_ok(
    n: int,
    index: Seq<u32>,
    lowlink: Seq<u32>,
    on_stack: Seq<bool>,
    scc: Seq<usize>,
    dfs: Seq<(usize, usize)>,
    result: Seq<Vec<usize>>,
    timer: u32,
) -> bool {
    &&& 0 <= n <= 0xffff_ffff
    &&& index.len() == n
    &&& lowlink.len() == n
    &&& on_stack.len() == n
    &&& timer as int == n + 1 - count_zero(index)
    &&& forall|x: int| 0 <= x < n ==> (#[trigger] index[x]) < timer
    &&& forall|x: int| 0 <= x < n && index[x] != 0 ==> #[trigger] lowlink[x] <= index[x]
    // the component stack
    &&& forall|i: int| 0 <= i < scc.len() ==> (#[trigger] scc[i] as int) < n && index[scc[i] as int] != 0
    &&& forall|i: int, j: int| 0 <= i < j < scc.len() ==> index[#[trigger] scc[i] as int] < index[#[trigger] scc[j] as int]
    &&& forall|x: int| 0 <= x < n ==> (#[trigger] on_stack[x] <==> scc.contains(x as usize))
    // the DFS stack
    &&& forall|i: int| 0 <= i < dfs.len() ==> (#[trigger] dfs[i].0 as int) < n
    &&& forall|i: int| 0 <= i < dfs.len() - 1 ==> index[#[trigger] dfs[i].0 as int] != 0
    &&& forall|i: int, j: int| 0 <= i < j < dfs.len() && index[dfs[j].0 as int] != 0 ==> index[#[trigger] dfs[i].0 as int] < index[#[trigger] dfs[j].0 as int]
    &&& forall|i: int| 0 <= i < dfs.len() && index[dfs[i].0 as int] != 0 ==> on_stack[#[trigger] dfs[i].0 as int]
    &&& dfs.len() > 0 && index[dfs.last().0 as int] == 0 ==> dfs.last().1 == 0
    &&& dfs.len() == 0 ==> scc.len() == 0
    // the current tree's root
    &&& dfs.len() > 0 && index[dfs[0].0 as int] != 0 ==> {
        let r = index[dfs[0].0 as int];
        &&& forall|i: int| 0 <= i < scc.len() ==> r <= index[#[trigger] scc[i] as int]
        &&& forall|x: int| 0 <= x < n && index[x] >= r ==> r <= #[trigger] lowlink[x]
    }
    &&& dfs.len() > 0 && index[dfs[0].0 as int] == 0 ==> dfs.len() == 1 && scc.len() == 0
    &&& found_ok(n, index, on_stack, result)
}

/// The components found so far: non-empty, no vertex twice, and exactly
/// the visited vertices that left the component stack.
pub open spec fn found_ok(n: int, index: Seq<u32>, on_stack: Seq<bool>, result: Seq<Vec<usize>>) -> bool {
    &&& flatten(result).no_duplicates()
    &&& forall|i: int| 0 <= i < result.len() ==> (#[trigger] result[i])@.len() > 0
    &&& forall|x: int| 0 <= x < n ==> (flatten(result).contains(x as usize) <==> #[trigger] index[x] != 0 && !on_stack[x])
    &&& forall|i: int| 0 <= i < flatten(result).len() ==> (#[trigger] flatten(result)[i] as int) < n
}

/// `dfs[i]` is the last visited entry of the DFS stack visited no later
/// than vertex `x`.
pub open spec fn deepest(index: Seq<u32>, dfs: Seq<(usize, usize)>, i: int, x: int) -> bool {
    &&& 0 <= i < dfs.len()
    &&& index[dfs[i].0 as int] != 0
    &&& index[dfs[i].0 as int] <= index[x]
    &&& (i + 1 >= dfs.len() || index[dfs[i + 1].0 as int] == 0 || index[dfs[i + 1].0 as int] > index[x])
}

/// What the search has learnt from an explored edge `x -> w`: `w` is the
/// vertex about to be entered from `x`, or it is visited and, while still
/// on the component stack, either entered after `x` or below `x`'s lowlink.
pub open spec fn edge_seen(
    index: Seq<u32>,
    lowlink: Seq<u32>,
    on_stack: Seq<bool>,
    dfs: Seq<(usize, usize)>,
    x: int,
    w: int,
) -> bool {
    ||| (index[w] == 0 && dfs.len() >= 2 && w == dfs.last().0 && x == dfs[dfs.len() - 2].0)
    ||| (index[w] != 0 && (on_stack[w] ==> lowlink[x] <= index[w] || index[w] > index[x]))
}

/// Vertex `x` has an entry on the DFS stack.
pub open spec fn on_dfs(dfs: Seq<(usize, usize)>, x: int) -> bool {
    exists|i: int| 0 <= i < dfs.len() && dfs[i].0 == x
}

/// Slots of the `i`-th DFS entry explored so far (`top_lim` for the top).
pub open spec fn seen_upto(dfs: Seq<(usize, usize)>, i: int, top_lim: int) -> int {
    if i == dfs.len() - 1 {
        top_lim
    } else {
        dfs[i].1 as int
    }
}

/// Vertex `x` is in the `c`-th component.
pub open spec fn in_result(result: Seq<Vec<usize>>, c: int, x: int) -> bool {
    0 <= c < result.len() && 0 <= x <= usize::MAX && result[c]@.contains(x as usize)
}

/// The layout facts of the search that its reachability facts rest on.
#[verifier::opaque]
pub open spec fn stack_facts(
    n: int,
    index: Seq<u32>,
    lowlink: Seq<u32>,
    on_stack: Seq<bool>,
    scc: Seq<usize>,
    dfs: Seq<(usize, usize)>,
    result: Seq<Vec<usize>>,
    timer: u32,
) -> bool {
    &&& index.len() == n
    &&& lowlink.len() == n
    &&& on_stack.len() == n
    &&& forall|x: int| 0 <= x < n ==> (#[trigger] index[x]) < timer
    &&& forall|x: int| 0 <= x < n && index[x] != 0 ==> #[trigger] lowlink[x] <= index[x]
    &&& forall|i: int| 0 <= i < scc.len() ==> (#[trigger] scc[i] as int) < n && index[scc[i] as int] != 0
    &&& forall|i: int, j: int| 0 <= i < j < scc.len() ==> index[#[trigger] scc[i] as int] < index[#[trigger] scc[j] as int]
    &&& forall|x: int| 0 <= x < n ==> (#[trigger] on_stack[x] <==> scc.contains(x as usize))
    &&& forall|i: int| 0 <= i < dfs.len() ==> (#[trigger] dfs[i].0 as int) < n
    &&& forall|i: int| 0 <= i < dfs.len() - 1 ==> index[#[trigger] dfs[i].0 as int] != 0
    &&& forall|i: int, j: int| 0 <= i < j < dfs.len() && index[dfs[j].0 as int] != 0 ==> index[#[trigger] dfs[i].0 as int] < index[#[trigger] dfs[j].0 as int]
    &&& forall|i: int| 0 <= i < dfs.len() && index[dfs[i].0 as int] != 0 ==> on_stack[#[trigger] dfs[i].0 as int]
    &&& found_ok(n, index, on_stack, result)
    &&& dfs.len() > 0 && index[dfs[0].0 as int] != 0 ==> forall|i: int|
        0 <= i < scc.len() ==> index[dfs[0].0 as int] <= index[#[trigger] scc[i] as int]
    &&& dfs.len() > 0 && index[dfs[0].0 as int] != 0 ==> forall|x: int|
        0 <= x < n && index[x] >= index[dfs[0].0 as int] ==> index[dfs[0].0 as int] <= #[trigger] lowlink[x]
}

proof fn lemma_stack_facts(
    n: int,
    index: Seq<u32>,
    lowlink: Seq<u32>,
    on_stack: Seq<bool>,
    scc: Seq<usize>,
    dfs: Seq<(usize, usize)>,
    result: Seq<Vec<usize>>,
    timer: u32,
)
    requires
        search_ok(n, index, lowlink, on_stack, scc, dfs, result, timer),
    ensures
        stack_facts(n, index, lowlink, on_stack, scc, dfs, result, timer),
{
    reveal(stack_facts);
}

/// A DFS entry reaches every vertex entered after it and still on the stack.
#[verifier::opaque]
pub open spec fn part_from_dfs(eb: &GPUEdgeBlockGraph, index: Seq<u32>, scc: Seq<usize>, dfs: Seq<(usize, usize)>) -> bool {
    forall|i: int, j: int|
        #![trigger dfs[i], scc[j]]
        0 <= i < dfs.len() && 0 <= j < scc.len() && index[dfs[i].0 as int] != 0 && index[dfs[i].0 as int]
            <= index[scc[j] as int] ==> reaches(eb, dfs[i].0 as int, scc[j] as int)
}

/// A stacked vertex reaches its deepest DFS entry, whose lowlink is no
/// larger.
#[verifier::opaque]
pub open spec fn part_to_dfs(
    eb: &GPUEdgeBlockGraph,
    index: Seq<u32>,
    lowlink: Seq<u32>,
    scc: Seq<usize>,
    dfs: Seq<(usize, usize)>,
) -> bool {
    forall|i: int, j: int|
        #![trigger dfs[i], scc[j]]
        0 <= j < scc.len() && deepest(index, dfs, i, scc[j] as int) ==> reaches(eb, scc[j] as int, dfs[i].0 as int)
            && lowlink[dfs[i].0 as int] <= lowlink[scc[j] as int]
}

/// The `j`-th stacked vertex reaches a stacked vertex entered at its
/// lowlink.
pub open spec fn low_witnessed(eb: &GPUEdgeBlockGraph, index: Seq<u32>, lowlink: Seq<u32>, scc: Seq<usize>, j: int) -> bool {
    exists|k: int|
        0 <= k < scc.len() && index[#[trigger] scc[k] as int] == lowlink[scc[j] as int] && reaches(
            eb,
            scc[j] as int,
            scc[k] as int,
        )
}

/// Every stacked vertex reaches a stacked vertex entered at its lowlink.
#[verifier::opaque]
pub open spec fn part_low(eb: &GPUEdgeBlockGraph, index: Seq<u32>, lowlink: Seq<u32>, scc: Seq<usize>) -> bool {
    forall|j: int| 0 <= j < scc.len() ==> #[trigger] low_witnessed(eb, index, lowlink, scc, j)
}

/// The vertex about to be entered is an out-neighbour of its parent.
#[verifier::opaque]
pub open spec fn part_tree(eb: &GPUEdgeBlockGraph, index: Seq<u32>, dfs: Seq<(usize, usize)>) -> bool {
    dfs.len() >= 2 && index[dfs.last().0 as int] == 0 ==> arc(eb, dfs[dfs.len() - 2].0 as int, dfs.last().0 as int)
}

/// The explored slots of the DFS entries.
#[verifier::opaque]
pub open spec fn part_seen_dfs(
    eb: &GPUEdgeBlockGraph,
    index: Seq<u32>,
    lowlink: Seq<u32>,
    on_stack: Seq<bool>,
    dfs: Seq<(usize, usize)>,
    top_lim: int,
) -> bool {
    forall|i: int, p: int, w: int|
        0 <= i < dfs.len() && index[dfs[i].0 as int] != 0 && p < seen_upto(dfs, i, top_lim) && #[trigger] reads(
            eb,
            dfs[i].0 as int,
            p,
            w,
        ) && w != dfs[i].0 ==> edge_seen(index, lowlink, on_stack, dfs, dfs[i].0 as int, w)
}

/// Every slot of a visited vertex that left the DFS stack.
#[verifier::opaque]
pub open spec fn part_seen_done(
    eb: &GPUEdgeBlockGraph,
    index: Seq<u32>,
    lowlink: Seq<u32>,
    on_stack: Seq<bool>,
    dfs: Seq<(usize, usize)>,
) -> bool {
    forall|x: int, p: int, w: int|
        0 <= x < eb.vertex_count && index[x] != 0 && !on_dfs(dfs, x) && #[trigger] reads(eb, x, p, w) && w != x
            ==> edge_seen(index, lowlink, on_stack, dfs, x, w)
}

/// The components are strongly connected.
pub open spec fn comps_connected(eb: &GPUEdgeBlockGraph, result: Seq<Vec<usize>>) -> bool {
    forall|c: int, x: int, y: int|
        #![trigger in_result(result, c, x), in_result(result, c, y)]
        in_result(result, c, x) && in_result(result, c, y) ==> reaches(eb, x, y)
}

/// An edge out of a component leads to it or to an earlier one.
pub open spec fn comps_closed(eb: &GPUEdgeBlockGraph, result: Seq<Vec<usize>>) -> bool {
    forall|c: int, x: int, w: int|
        #![trigger in_result(result, c, x), arc(eb, x, w)]
        in_result(result, c, x) && arc(eb, x, w) ==> exists|c2: int| 0 <= c2 <= c && #[trigger] in_result(result, c2, w)
}

/// What the search knows of reachability.
pub open spec fn reach_ok(
    eb: &GPUEdgeBlockGraph,
    index: Seq<u32>,
    lowlink: Seq<u32>,
    on_stack: Seq<bool>,
    scc: Seq<usize>,
    dfs: Seq<(usize, usize)>,
    result: Seq<Vec<usize>>,
    top_lim: int,
) -> bool {
    &&& part_from_dfs(eb, index, scc, dfs)
    &&& part_to_dfs(eb, index, lowlink, scc, dfs)
    &&& part_low(eb, index, lowlink, scc)
    &&& part_tree(eb, index, dfs)
    &&& part_seen_dfs(eb, index, lowlink, on_stack, dfs, top_lim)
    &&& part_seen_done(eb, index, lowlink, on_stack, dfs)
    &&& comps_connected(eb, result)
    &&& comps_closed(eb, result)
}

/// Starting a new tree keeps what the search knows.
proof fn lemma_reach_start(
    eb: &GPUEdgeBlockGraph,
    index: Seq<u32>,
    lowlink: Seq<u32>,
    on_stack: Seq<bool>,
    scc: Seq<usize>,
    dfs: Seq<(usize, usize)>,
    result: Seq<Vec<usize>>,
    start: usize,
)
    requires
        reach_ok(eb, index, lowlink, on_stack, scc, dfs, result, 0),
        dfs.len() == 0,
        scc.len() == 0,
        index[start as int] == 0,
    ensures
        reach_ok(eb, index, lowlink, on_stack, scc, dfs.push((start, 0usize)), result, 0),
{
    let dfs2 = dfs.push((start, 0usize));
    reveal(part_from_dfs);
    reveal(part_to_dfs);
    reveal(part_tree);
    reveal(part_seen_dfs);
    reveal(part_seen_done);
    assert forall|x: int, p: int, w: int|
        0 <= x < eb.vertex_count && index[x] != 0 && !on_dfs(dfs2, x) && #[trigger] reads(eb, x, p, w) && w != x implies edge_seen(
        index,
        lowlink,
        on_stack,
        dfs2,
        x,
        w,
    ) by {
        assert(!on_dfs(dfs, x));
        assert(edge_seen(index, lowlink, on_stack, dfs, x, w));
    }
}

proof fn lemma_visit_from_dfs(
    eb: &GPUEdgeBlockGraph,
    index: Seq<u32>,
    lowlink: Seq<u32>,
    on_stack: Seq<bool>,
    scc: Seq<usize>,
    dfs: Seq<(usize, usize)>,
    result: Seq<Vec<usize>>,
    timer: u32,
)
    requires
        stack_facts(eb.vertex_count as int, index, lowlink, on_stack, scc, dfs, result, timer),
        part_from_dfs(eb, index, scc, dfs),
        part_tree(eb, index, dfs),
        dfs.len() > 0,
        index[dfs.last().0 as int] == 0,
        timer > 0,
    ensures
        part_from_dfs(eb, index.update(dfs.last().0 as int, timer), scc.push(dfs.last().0), dfs),
{
    reveal(stack_facts);
    reveal(part_from_dfs);
    reveal(part_tree);
    let v = dfs.last().0 as int;
    let t = dfs.len() - 1;
    let index2 = index.update(v, timer);
    let scc2 = scc.push(v as usize);
    lemma_reach_refl(eb, v);
    assert forall|i: int, j: int|
        #![trigger dfs[i], scc2[j]]
        0 <= i < dfs.len() && 0 <= j < scc2.len() && index2[dfs[i].0 as int] != 0 && index2[dfs[i].0 as int]
            <= index2[scc2[j] as int] implies reaches(eb, dfs[i].0 as int, scc2[j] as int) by {
        if j < scc.len() {
            assert(scc2[j] == scc[j]);
            assert(index[scc[j] as int] != 0);
            assert(scc[j] as int != v);
            if i == t {
                assert(index[scc[j] as int] < timer);
            } else {
                assert(dfs[i].0 as int != v);
            }
            assert(reaches(eb, dfs[i].0 as int, scc[j] as int));
        } else if i < t {
            let par = dfs[t - 1].0 as int;
            assert(index[par] != 0);
            assert(on_stack[par]);
            assert(scc.contains(par as usize));
            let jp = choose|jp: int| 0 <= jp < scc.len() && scc[jp] == par as usize;
            assert(dfs[i].0 as int != v);
            if i < t - 1 {
                assert(index[dfs[i].0 as int] < index[dfs[t - 1].0 as int]);
            }
            assert(reaches(eb, dfs[i].0 as int, scc[jp] as int));
            lemma_reach_arc(eb, par, v);
            lemma_reach_trans(eb, dfs[i].0 as int, par, v);
        }
    }
}

proof fn lemma_visit_to_dfs(
    eb: &GPUEdgeBlockGraph,
    index: Seq<u32>,
    lowlink: Seq<u32>,
    on_stack: Seq<bool>,
    scc: Seq<usize>,
    dfs: Seq<(usize, usize)>,
    result: Seq<Vec<usize>>,
    timer: u32,
)
    requires
        stack_facts(eb.vertex_count as int, index, lowlink, on_stack, scc, dfs, result, timer),
        part_to_dfs(eb, index, lowlink, scc, dfs),
        dfs.len() > 0,
        index[dfs.last().0 as int] == 0,
        timer > 0,
    ensures
        part_to_dfs(eb, index.update(dfs.last().0 as int, timer), lowlink.update(dfs.last().0 as int, timer), scc.push(dfs.last().0), dfs),
{
    reveal(stack_facts);
    reveal(part_to_dfs);
    let v = dfs.last().0 as int;
    let t = dfs.len() - 1;
    let index2 = index.update(v, timer);
    let lowlink2 = lowlink.update(v, timer);
    let scc2 = scc.push(v as usize);
    lemma_reach_refl(eb, v);
    assert forall|i: int, j: int|
        #![trigger dfs[i], scc2[j]]
        0 <= j < scc2.len() && deepest(index2, dfs, i, scc2[j] as int) implies reaches(eb, scc2[j] as int, dfs[i].0 as int)
        && lowlink2[dfs[i].0 as int] <= lowlink2[scc2[j] as int] by {
        if j < scc.len() {
            let x = scc[j] as int;
            assert(scc2[j] == scc[j]);
            assert(index[x] != 0 && x != v);
            assert(index[x] < timer);
            assert(i != t);
            assert(dfs[i].0 as int != v);
            assert(deepest(index, dfs, i, x));
            assert(reaches(eb, scc[j] as int, dfs[i].0 as int));
        } else if i < t {
            assert(dfs[i].0 as int != v);
            if i + 1 < t {
                assert(index[dfs[i + 1].0 as int] != 0);
                assert(index[dfs[i + 1].0 as int] < timer);
                assert(dfs[i + 1].0 as int != v);
            }
            assert(false);
        }
    }
}

proof fn lemma_visit_low(
    eb: &GPUEdgeBlockGraph,
    index: Seq<u32>,
    lowlink: Seq<u32>,
    on_stack: Seq<bool>,
    scc: Seq<usize>,
    dfs: Seq<(usize, usize)>,
    result: Seq<Vec<usize>>,
    timer: u32,
)
    requires
        stack_facts(eb.vertex_count as int, index, lowlink, on_stack, scc, dfs, result, timer),
        part_low(eb, index, lowlink, scc),
        dfs.len() > 0,
        index[dfs.last().0 as int] == 0,
        timer > 0,
    ensures
        part_low(eb, index.update(dfs.last().0 as int, timer), lowlink.update(dfs.last().0 as int, timer), scc.push(dfs.last().0)),
{
    reveal(stack_facts);
    reveal(part_low);
    let v = dfs.last().0 as int;
    let index2 = index.update(v, timer);
    let lowlink2 = lowlink.update(v, timer);
    let scc2 = scc.push(dfs.last().0);
    lemma_reach_refl(eb, v);
    assert forall|j: int| 0 <= j < scc2.len() implies #[trigger] low_witnessed(eb, index2, lowlink2, scc2, j) by {
        if j < scc.len() {
            assert(scc2[j] == scc[j]);
            assert(low_witnessed(eb, index, lowlink, scc, j));
            let k = choose|k: int|
                0 <= k < scc.len() && index[#[trigger] scc[k] as int] == lowlink[scc[j] as int] && reaches(
                    eb,
                    scc[j] as int,
                    scc[k] as int,
                );
            assert(scc2[k] == scc[k]);
            assert(index[scc[k] as int] != 0 && index[scc[j] as int] != 0);
            assert(scc[k] as int != v && scc[j] as int != v);
        } else {
            assert(index2[scc2[j] as int] == lowlink2[scc2[j] as int]);
        }
    }
    assert(part_low(eb, index2, lowlink2, scc2));
}

proof fn lemma_visit_seen(
    eb: &GPUEdgeBlockGraph,
    index: Seq<u32>,
    lowlink: Seq<u32>,
    on_stack: Seq<bool>,
    scc: Seq<usize>,
    dfs: Seq<(usize, usize)>,
    result: Seq<Vec<usize>>,
    timer: u32,
)
    requires
        eb.wf(),
        stack_facts(eb.vertex_count as int, index, lowlink, on_stack, scc, dfs, result, timer),
        part_seen_dfs(eb, index, lowlink, on_stack, dfs, 0),
        part_seen_done(eb, index, lowlink, on_stack, dfs),
        dfs.len() > 0,
        index[dfs.last().0 as int] == 0,
        timer > 0,
    ensures
        ({
            let v = dfs.last().0 as int;
            &&& part_seen_dfs(eb, index.update(v, timer), lowlink.update(v, timer), on_stack.update(v, true), dfs, 0)
            &&& part_seen_done(eb, index.update(v, timer), lowlink.update(v, timer), on_stack.update(v, true), dfs)
        }),
{
    reveal(stack_facts);
    reveal(part_seen_dfs);
    reveal(part_seen_done);
    let n = eb.vertex_count as int;
    let v = dfs.last().0 as int;
    let t = dfs.len() - 1;
    let index2 = index.update(v, timer);
    let lowlink2 = lowlink.update(v, timer);
    let on2 = on_stack.update(v, true);
    assert forall|i: int, p: int, w: int|
        0 <= i < dfs.len() && index2[dfs[i].0 as int] != 0 && p < seen_upto(dfs, i, 0) && #[trigger] reads(
            eb,
            dfs[i].0 as int,
            p,
            w,
        ) && w != dfs[i].0 implies edge_seen(index2, lowlink2, on2, dfs, dfs[i].0 as int, w) by {
        let x = dfs[i].0 as int;
        lemma_reads_adjacency(eb, x);
        assert(i < t);
        assert(index[x] != 0);
        assert(x != v);
        assert(edge_seen(index, lowlink, on_stack, dfs, x, w));
        assert(index[x] < timer);
    }
    assert forall|x: int, p: int, w: int|
        0 <= x < n && index2[x] != 0 && !on_dfs(dfs, x) && #[trigger] reads(eb, x, p, w) && w != x implies edge_seen(
        index2,
        lowlink2,
        on2,
        dfs,
        x,
        w,
    ) by {
        lemma_reads_adjacency(eb, x);
        if x == v {
            assert(on_dfs(dfs, x));
        }
        assert(edge_seen(index, lowlink, on_stack, dfs, x, w));
        if w == v && dfs.len() >= 2 && x == dfs[dfs.len() - 2].0 {
            assert(on_dfs(dfs, x));
        }
    }
}

/// Entering the top vertex keeps what the search knows.
proof fn lemma_reach_visit(
    eb: &GPUEdgeBlockGraph,
    index: Seq<u32>,
    lowlink: Seq<u32>,
    on_stack: Seq<bool>,
    scc: Seq<usize>,
    dfs: Seq<(usize, usize)>,
    result: Seq<Vec<usize>>,
    timer: u32,
)
    requires
        eb.wf(),
        search_ok(eb.vertex_count as int, index, lowlink, on_stack, scc, dfs, result, timer),
        reach_ok(eb, index, lowlink, on_stack, scc, dfs, result, 0),
        dfs.len() > 0,
        index[dfs.last().0 as int] == 0,
    ensures
        ({
            let v = dfs.last().0 as int;
            reach_ok(
                eb,
                index.update(v, timer),
                lowlink.update(v, timer),
                on_stack.update(v, true),
                scc.push(v as usize),
                dfs,
                result,
                0,
            )
        }),
{
    assert(timer > 0) by {
        lemma_count_zero_le(index);
    }
    lemma_stack_facts(eb.vertex_count as int, index, lowlink, on_stack, scc, dfs, result, timer);
    lemma_visit_from_dfs(eb, index, lowlink, on_stack, scc, dfs, result, timer);
    lemma_visit_to_dfs(eb, index, lowlink, on_stack, scc, dfs, result, timer);
    lemma_visit_low(eb, index, lowlink, on_stack, scc, dfs, result, timer);
    lemma_visit_seen(eb, index, lowlink, on_stack, scc, dfs, result, timer);
    reveal(part_tree);
}

/// Slot `pos` of the top vertex leads to a vertex not yet entered: it is
/// pushed, and the top resumes after that slot.
proof fn lemma_reach_tree(
    eb: &GPUEdgeBlockGraph,
    index: Seq<u32>,
    lowlink: Seq<u32>,
    on_stack: Seq<bool>,
    scc: Seq<usize>,
    dfs: Seq<(usize, usize)>,
    result: Seq<Vec<usize>>,
    timer: u32,
    pos: usize,
    w: usize,
)
    requires
        eb.wf(),
        stack_facts(eb.vertex_count as int, index, lowlink, on_stack, scc, dfs, result, timer),
        reach_ok(eb, index, lowlink, on_stack, scc, dfs, result, pos as int),
        dfs.len() > 0,
        index[dfs.last().0 as int] != 0,
        reads(eb, dfs.last().0 as int, pos as int, w as int),
        w != dfs.last().0,
        index[w as int] == 0,
    ensures
        reach_ok(
            eb,
            index,
            lowlink,
            on_stack,
            scc,
            dfs.update(dfs.len() - 1, (dfs.last().0, (pos + 1) as usize)).push((w, 0usize)),
            result,
            0,
        ),
{
    reveal(stack_facts);
    reveal(part_from_dfs);
    reveal(part_to_dfs);
    reveal(part_tree);
    reveal(part_seen_dfs);
    reveal(part_seen_done);
    let n = eb.vertex_count as int;
    let v = dfs.last().0 as int;
    let t = dfs.len() - 1;
    let dfs2 = dfs.update(t, (dfs.last().0, (pos + 1) as usize)).push((w, 0usize));
    lemma_reads_adjacency(eb, v);
    assert(forall|i: int| 0 <= i < dfs.len() ==> #[trigger] dfs2[i].0 == dfs[i].0);
    assert forall|i: int, j: int|
        #![trigger dfs2[i], scc[j]]
        0 <= i < dfs2.len() && 0 <= j < scc.len() && index[dfs2[i].0 as int] != 0 && index[dfs2[i].0 as int]
            <= index[scc[j] as int] implies reaches(eb, dfs2[i].0 as int, scc[j] as int) by {
        assert(i < dfs.len());
        assert(dfs2[i].0 == dfs[i].0);
    }
    assert forall|i: int, j: int|
        #![trigger dfs2[i], scc[j]]
        0 <= j < scc.len() && deepest(index, dfs2, i, scc[j] as int) implies reaches(eb, scc[j] as int, dfs2[i].0 as int)
        && lowlink[dfs2[i].0 as int] <= lowlink[scc[j] as int] by {
        assert(i < dfs.len());
        assert(dfs2[i].0 == dfs[i].0);
        if i + 1 < dfs.len() {
            assert(dfs2[i + 1].0 == dfs[i + 1].0);
        }
        assert(deepest(index, dfs, i, scc[j] as int));
    }
    assert(dfs2[dfs2.len() - 2].0 == dfs[t].0);
    assert forall|i: int, p: int, x: int|
        0 <= i < dfs2.len() && index[dfs2[i].0 as int] != 0 && p < seen_upto(dfs2, i, 0) && #[trigger] reads(
            eb,
            dfs2[i].0 as int,
            p,
            x,
        ) && x != dfs2[i].0 implies edge_seen(index, lowlink, on_stack, dfs2, dfs2[i].0 as int, x) by {
        assert(i < dfs.len());
        assert(dfs2[i].0 == dfs[i].0);
        if i == t && p == pos {
            assert(x == w);
        } else {
            if i == t {
                assert(p < pos);
            }
            assert(edge_seen(index, lowlink, on_stack, dfs, dfs[i].0 as int, x));
        }
    }
    assert forall|x: int, p: int, y: int|
        0 <= x < n && index[x] != 0 && !on_dfs(dfs2, x) && #[trigger] reads(eb, x, p, y) && y != x implies edge_seen(
        index,
        lowlink,
        on_stack,
        dfs2,
        x,
        y,
    ) by {
        if on_dfs(dfs, x) {
            let i = choose|i: int| 0 <= i < dfs.len() && dfs[i].0 == x;
            assert(dfs2[i].0 == x);
        }
        assert(edge_seen(index, lowlink, on_stack, dfs, x, y));
        if dfs.len() >= 2 && x == dfs[dfs.len() - 2].0 {
            assert(dfs2[dfs.len() - 2].0 == x);
        }
    }
}

/// Slot `pos` of the top vertex leads to a vertex on the component stack:
/// the top's lowlink drops to that vertex's index if lower.
#[verifier::rlimit(50)]
proof fn lemma_reach_back(
    eb: &GPUEdgeBlockGraph,
    index: Seq<u32>,
    lowlink: Seq<u32>,
    on_stack: Seq<bool>,
    scc: Seq<usize>,
    dfs: Seq<(usize, usize)>,
    result: Seq<Vec<usize>>,
    timer: u32,
    pos: usize,
    w: usize,
)
    requires
        eb.wf(),
        stack_facts(eb.vertex_count as int, index, lowlink, on_stack, scc, dfs, result, timer),
        reach_ok(eb, index, lowlink, on_stack, scc, dfs, result, pos as int),
        dfs.len() > 0,
        index[dfs.last().0 as int] != 0,
        reads(eb, dfs.last().0 as int, pos as int, w as int),
        w != dfs.last().0,
        on_stack[w as int],
    ensures
        ({
            let v = dfs.last().0 as int;
            let m = if lowlink[v] < index[w as int] { lowlink[v] } else { index[w as int] };
            reach_ok(eb, index, lowlink.update(v, m), on_stack, scc, dfs, result, pos + 1)
        }),
{
    reveal(stack_facts);
    reveal(part_to_dfs);
    reveal(part_low);
    reveal(part_seen_dfs);
    reveal(part_seen_done);
    let n = eb.vertex_count as int;
    let v = dfs.last().0 as int;
    let t = dfs.len() - 1;
    let m = if lowlink[v] < index[w as int] { lowlink[v] } else { index[w as int] };
    let low2 = lowlink.update(v, m);
    lemma_reads_adjacency(eb, v);
    assert(scc.contains(w));
    let kw = choose|kw: int| 0 <= kw < scc.len() && scc[kw] == w;
    assert(index[w as int] != 0);
    assert forall|i: int, j: int|
        #![trigger dfs[i], scc[j]]
        0 <= j < scc.len() && deepest(index, dfs, i, scc[j] as int) implies reaches(eb, scc[j] as int, dfs[i].0 as int)
        && low2[dfs[i].0 as int] <= low2[scc[j] as int] by {
        if scc[j] as int == v && i < t {
            if i + 1 < t {
                assert(index[dfs[i + 1].0 as int] < index[dfs[t].0 as int]);
            } else {
                assert(dfs[i + 1].0 == dfs.last().0);
            }
        }
    }
    assert forall|j: int| 0 <= j < scc.len() implies #[trigger] low_witnessed(eb, index, low2, scc, j) by {
        assert(low_witnessed(eb, index, lowlink, scc, j));
        if scc[j] as int == v && index[w as int] < lowlink[v] {
            lemma_reach_arc(eb, v, w as int);
            assert(index[scc[kw] as int] == low2[scc[j] as int]);
        }
    }
    assert forall|i: int, p: int, x: int|
        0 <= i < dfs.len() && index[dfs[i].0 as int] != 0 && p < seen_upto(dfs, i, pos + 1) && #[trigger] reads(
            eb,
            dfs[i].0 as int,
            p,
            x,
        ) && x != dfs[i].0 implies edge_seen(index, low2, on_stack, dfs, dfs[i].0 as int, x) by {
        if i == t && p == pos {
            assert(x == w);
        } else {
            if i == t {
                assert(p < pos);
            } else {
                assert(index[dfs[i].0 as int] < index[dfs[t].0 as int]);
            }
            assert(edge_seen(index, lowlink, on_stack, dfs, dfs[i].0 as int, x));
        }
    }
    assert forall|x: int, p: int, y: int|
        0 <= x < n && index[x] != 0 && !on_dfs(dfs, x) && #[trigger] reads(eb, x, p, y) && y != x implies edge_seen(
        index,
        low2,
        on_stack,
        dfs,
        x,
        y,
    ) by {
        assert(x != v);
        assert(edge_seen(index, lowlink, on_stack, dfs, x, y));
    }
}

/// Slot `pos` of the top vertex holds no vertex other than the top, or one
/// whose component is already complete: nothing changes.
proof fn lemma_reach_skip(
    eb: &GPUEdgeBlockGraph,
    index: Seq<u32>,
    lowlink: Seq<u32>,
    on_stack: Seq<bool>,
    scc: Seq<usize>,
    dfs: Seq<(usize, usize)>,
    result: Seq<Vec<usize>>,
    pos: usize,
)
    requires
        reach_ok(eb, index, lowlink, on_stack, scc, dfs, result, pos as int),
        dfs.len() > 0,
        forall|w: int| #[trigger] reads(eb, dfs.last().0 as int, pos as int, w) && w != dfs.last().0 ==> index[w] != 0 && !on_stack[w],
    ensures
        reach_ok(eb, index, lowlink, on_stack, scc, dfs, result, pos + 1),
{
    reveal(part_seen_dfs);
    let t = dfs.len() - 1;
    assert forall|i: int, p: int, x: int|
        0 <= i < dfs.len() && index[dfs[i].0 as int] != 0 && p < seen_upto(dfs, i, pos + 1) && #[trigger] reads(
            eb,
            dfs[i].0 as int,
            p,
            x,
        ) && x != dfs[i].0 implies edge_seen(index, lowlink, on_stack, dfs, dfs[i].0 as int, x) by {
        if !(i == t && p == pos) {
            assert(p < seen_upto(dfs, i, pos as int));
        } else {
            assert(dfs[i] == dfs.last());
            assert(reads(eb, dfs.last().0 as int, pos as int, x));
        }
    }
}

/// A visited vertex in a component found earlier is in one of them.
proof fn lemma_flatten_contains(r: Seq<Vec<usize>>, x: usize)
    requires
        flatten(r).contains(x),
    ensures
        exists|c: int| #[trigger] in_result(r, c, x as int),
    decreases r.len(),
{
    if r.len() > 0 {
        let k = choose|k: int| 0 <= k < flatten(r).len() && flatten(r)[k] == x;
        let prev = flatten(r.drop_last());
        if k < prev.len() {
            assert(prev[k] == x);
            lemma_flatten_contains(r.drop_last(), x);
            let c = choose|c: int| #[trigger] in_result(r.drop_last(), c, x as int);
            assert(r.drop_last()[c] == r[c]);
            assert(in_result(r, c, x as int));
        } else {
            assert(r.last()@[k - prev.len()] == x);
            assert(in_result(r, r.len() - 1, x as int));
        }
    }
}

/// Some visited DFS entry below `hi` is the deepest one visited no later
/// than `x`.
proof fn lemma_deepest_exists(index: Seq<u32>, dfs: Seq<(usize, usize)>, x: int, hi: int)
    requires
        0 < hi <= dfs.len(),
        forall|i: int| 0 <= i < hi ==> index[#[trigger] dfs[i].0 as int] != 0,
        forall|i: int, j: int| 0 <= i < j < dfs.len() && index[dfs[j].0 as int] != 0 ==> index[#[trigger] dfs[i].0 as int] < index[#[trigger] dfs[j].0 as int],
        index[dfs[0].0 as int] <= index[x],
        hi == dfs.len() || index[dfs[hi].0 as int] == 0 || index[dfs[hi].0 as int] > index[x],
    ensures
        exists|i: int| 0 <= i < hi && #[trigger] deepest(index, dfs, i, x),
    decreases hi,
{
    if index[dfs[hi - 1].0 as int] <= index[x] {
        assert(deepest(index, dfs, hi - 1, x));
    } else {
        lemma_deepest_exists(index, dfs, x, hi - 1);
        let i = choose|i: int| 0 <= i < hi - 1 && #[trigger] deepest(index, dfs, i, x);
        assert(deepest(index, dfs, i, x));
    }
}

/// A top vertex that is not a component root reaches its parent, and back.
proof fn lemma_leave_links(
    eb: &GPUEdgeBlockGraph,
    index: Seq<u32>,
    lowlink: Seq<u32>,
    on_stack: Seq<bool>,
    scc: Seq<usize>,
    dfs: Seq<(usize, usize)>,
    result: Seq<Vec<usize>>,
    timer: u32,
)
    requires
        stack_facts(eb.vertex_count as int, index, lowlink, on_stack, scc, dfs, result, timer),
        part_from_dfs(eb, index, scc, dfs),
        part_to_dfs(eb, index, lowlink, scc, dfs),
        part_low(eb, index, lowlink, scc),
        dfs.len() >= 2,
        index[dfs.last().0 as int] != 0,
        lowlink[dfs.last().0 as int] != index[dfs.last().0 as int],
    ensures
        reaches(eb, dfs.last().0 as int, dfs[dfs.len() - 2].0 as int),
        reaches(eb, dfs[dfs.len() - 2].0 as int, dfs.last().0 as int),
        exists|ky: int|
            0 <= ky < scc.len() && index[#[trigger] scc[ky] as int] == lowlink[dfs.last().0 as int] && reaches(
                eb,
                dfs.last().0 as int,
                scc[ky] as int,
            ),
{
    reveal(stack_facts);
    reveal(part_from_dfs);
    reveal(part_to_dfs);
    reveal(part_low);
    let v = dfs.last().0 as int;
    let t = dfs.len() - 1;
    let p = dfs[t - 1].0 as int;
    assert(index[p] != 0);
    assert(index[p] < index[v]);
    assert(lowlink[v] < index[v]);
    assert(on_stack[v] && on_stack[p]);
    assert(scc.contains(v as usize));
    let kv = choose|kv: int| 0 <= kv < scc.len() && scc[kv] == v as usize;
    assert(scc.contains(p as usize));
    let kp = choose|kp: int| 0 <= kp < scc.len() && scc[kp] == p as usize;
    assert(low_witnessed(eb, index, lowlink, scc, kv));
    let ky = choose|ky: int|
        0 <= ky < scc.len() && index[#[trigger] scc[ky] as int] == lowlink[scc[kv] as int] && reaches(
            eb,
            scc[kv] as int,
            scc[ky] as int,
        );
    let y = scc[ky] as int;
    assert(index[dfs[0].0 as int] <= index[y]);
    lemma_deepest_exists(index, dfs, y, t);
    let i0 = choose|i0: int| 0 <= i0 < t && #[trigger] deepest(index, dfs, i0, y);
    assert(reaches(eb, y, dfs[i0].0 as int));
    if i0 < t - 1 {
        assert(index[dfs[i0].0 as int] < index[dfs[t - 1].0 as int]);
    }
    assert(reaches(eb, dfs[i0].0 as int, scc[kp] as int));
    lemma_reach_trans(eb, v, y, dfs[i0].0 as int);
    lemma_reach_trans(eb, v, dfs[i0].0 as int, p);
    assert(reaches(eb, dfs[t - 1].0 as int, scc[kv] as int));
}

proof fn lemma_leave_to_dfs(
    eb: &GPUEdgeBlockGraph,
    index: Seq<u32>,
    lowlink: Seq<u32>,
    on_stack: Seq<bool>,
    scc: Seq<usize>,
    dfs: Seq<(usize, usize)>,
    result: Seq<Vec<usize>>,
    timer: u32,
)
    requires
        stack_facts(eb.vertex_count as int, index, lowlink, on_stack, scc, dfs, result, timer),
        part_to_dfs(eb, index, lowlink, scc, dfs),
        dfs.len() >= 2,
        index[dfs.last().0 as int] != 0,
        reaches(eb, dfs.last().0 as int, dfs[dfs.len() - 2].0 as int),
    ensures
        ({
            let v = dfs.last().0 as int;
            let dfs2 = dfs.drop_last();
            let p = dfs2.last().0 as int;
            let low2 = lowlink.update(p, if lowlink[p] < lowlink[v] { lowlink[p] } else { lowlink[v] });
            part_to_dfs(eb, index, low2, scc, dfs2)
        }),
{
    reveal(stack_facts);
    reveal(part_to_dfs);
    let v = dfs.last().0 as int;
    let t = dfs.len() - 1;
    let dfs2 = dfs.drop_last();
    let p = dfs2.last().0 as int;
    let low2 = lowlink.update(p, if lowlink[p] < lowlink[v] { lowlink[p] } else { lowlink[v] });
    assert(dfs2[t - 1] == dfs[t - 1]);
    assert(index[p] != 0);
    assert(index[p] < index[v]);
    assert forall|i: int, j: int|
        #![trigger dfs2[i], scc[j]]
        0 <= j < scc.len() && deepest(index, dfs2, i, scc[j] as int) implies reaches(eb, scc[j] as int, dfs2[i].0 as int)
        && low2[dfs2[i].0 as int] <= low2[scc[j] as int] by {
        let x = scc[j] as int;
        assert(dfs2[i] == dfs[i]);
        if i < t - 1 {
            assert(dfs2[i + 1] == dfs[i + 1]);
            assert(deepest(index, dfs, i, x));
            assert(index[dfs[i].0 as int] < index[p]);
        } else if index[v] > index[x] {
            assert(deepest(index, dfs, i, x));
        } else {
            assert(deepest(index, dfs, t, x));
            assert(reaches(eb, x, v));
            lemma_reach_trans(eb, x, v, p);
            assert(x != p);
        }
    }
}

proof fn lemma_leave_low(
    eb: &GPUEdgeBlockGraph,
    index: Seq<u32>,
    lowlink: Seq<u32>,
    on_stack: Seq<bool>,
    scc: Seq<usize>,
    dfs: Seq<(usize, usize)>,
    result: Seq<Vec<usize>>,
    timer: u32,
)
    requires
        stack_facts(eb.vertex_count as int, index, lowlink, on_stack, scc, dfs, result, timer),
        part_low(eb, index, lowlink, scc),
        dfs.len() >= 2,
        index[dfs.last().0 as int] != 0,
        reaches(eb, dfs[dfs.len() - 2].0 as int, dfs.last().0 as int),
        exists|ky: int|
            0 <= ky < scc.len() && index[#[trigger] scc[ky] as int] == lowlink[dfs.last().0 as int] && reaches(
                eb,
                dfs.last().0 as int,
                scc[ky] as int,
            ),
    ensures
        ({
            let v = dfs.last().0 as int;
            let p = dfs[dfs.len() - 2].0 as int;
            let low2 = lowlink.update(p, if lowlink[p] < lowlink[v] { lowlink[p] } else { lowlink[v] });
            part_low(eb, index, low2, scc)
        }),
{
    reveal(part_low);
    reveal(stack_facts);
    let v = dfs.last().0 as int;
    assert((dfs[dfs.len() - 2].0 as int) < lowlink.len());
    let p = dfs[dfs.len() - 2].0 as int;
    let low2 = lowlink.update(p, if lowlink[p] < lowlink[v] { lowlink[p] } else { lowlink[v] });
    let ky = choose|ky: int|
        0 <= ky < scc.len() && index[#[trigger] scc[ky] as int] == lowlink[dfs.last().0 as int] && reaches(
            eb,
            dfs.last().0 as int,
            scc[ky] as int,
        );
    assert forall|j: int| 0 <= j < scc.len() implies #[trigger] low_witnessed(eb, index, low2, scc, j) by {
        assert(low_witnessed(eb, index, lowlink, scc, j));
        if scc[j] as int == p && lowlink[v] < lowlink[p] {
            lemma_reach_trans(eb, p, v, scc[ky] as int);
            assert(index[scc[ky] as int] == low2[scc[j] as int]);
        }
    }
}

proof fn lemma_leave_seen(
    eb: &GPUEdgeBlockGraph,
    index: Seq<u32>,
    lowlink: Seq<u32>,
    on_stack: Seq<bool>,
    scc: Seq<usize>,
    dfs: Seq<(usize, usize)>,
    result: Seq<Vec<usize>>,
    timer: u32,
    top_lim: int,
    low2: Seq<u32>,
    on2: Seq<bool>,
)
    requires
        eb.wf(),
        stack_facts(eb.vertex_count as int, index, lowlink, on_stack, scc, dfs, result, timer),
        part_seen_dfs(eb, index, lowlink, on_stack, dfs, top_lim),
        part_seen_done(eb, index, lowlink, on_stack, dfs),
        dfs.len() >= 1,
        index[dfs.last().0 as int] != 0,
        top_lim >= eb.block_counts@[dfs.last().0 as int] * 32,
        low2.len() == lowlink.len(),
        on2.len() == on_stack.len(),
        forall|x: int| 0 <= x < lowlink.len() ==> #[trigger] low2[x] <= lowlink[x],
        forall|x: int| 0 <= x < on_stack.len() && #[trigger] on2[x] ==> on_stack[x],
    ensures
        part_seen_dfs(eb, index, low2, on2, dfs.drop_last(), if dfs.len() >= 2 { dfs[dfs.len() - 2].1 as int } else { 0 }),
        part_seen_done(eb, index, low2, on2, dfs.drop_last()),
{
    reveal(stack_facts);
    reveal(part_seen_dfs);
    reveal(part_seen_done);
    let n = eb.vertex_count as int;
    let v = dfs.last().0 as int;
    let t = dfs.len() - 1;
    let dfs2 = dfs.drop_last();
    let lim2 = if dfs.len() >= 2 { dfs[dfs.len() - 2].1 as int } else { 0 };
    assert forall|i: int, q: int, w: int|
        0 <= i < dfs2.len() && index[dfs2[i].0 as int] != 0 && q < seen_upto(dfs2, i, lim2) && #[trigger] reads(
            eb,
            dfs2[i].0 as int,
            q,
            w,
        ) && w != dfs2[i].0 implies edge_seen(index, low2, on2, dfs2, dfs2[i].0 as int, w) by {
        lemma_reads_adjacency(eb, dfs2[i].0 as int);
        assert(dfs2[i] == dfs[i]);
        assert(seen_upto(dfs, i, top_lim) == dfs[i].1);
        assert(edge_seen(index, lowlink, on_stack, dfs, dfs[i].0 as int, w));
        assert(index[dfs[i].0 as int] != 0);
    }
    assert forall|x: int, q: int, w: int|
        0 <= x < n && index[x] != 0 && !on_dfs(dfs2, x) && #[trigger] reads(eb, x, q, w) && w != x implies edge_seen(
        index,
        low2,
        on2,
        dfs2,
        x,
        w,
    ) by {
        lemma_reads_adjacency(eb, x);
        if x == v {
            assert(dfs[t].0 == v);
            assert(edge_seen(index, lowlink, on_stack, dfs, dfs[t].0 as int, w));
        } else {
            if on_dfs(dfs, x) {
                let i = choose|i: int| 0 <= i < dfs.len() && dfs[i].0 == x;
                assert(dfs2[i].0 == x);
            }
            assert(edge_seen(index, lowlink, on_stack, dfs, x, w));
        }
    }
}

/// The top vertex, fully explored, leaves the DFS stack and stays on the
/// component stack; its parent's lowlink drops to the top's if lower.
proof fn lemma_reach_leave(
    eb: &GPUEdgeBlockGraph,
    index: Seq<u32>,
    lowlink: Seq<u32>,
    on_stack: Seq<bool>,
    scc: Seq<usize>,
    dfs: Seq<(usize, usize)>,
    result: Seq<Vec<usize>>,
    timer: u32,
    top_lim: int,
)
    requires
        eb.wf(),
        stack_facts(eb.vertex_count as int, index, lowlink, on_stack, scc, dfs, result, timer),
        reach_ok(eb, index, lowlink, on_stack, scc, dfs, result, top_lim),
        dfs.len() >= 2,
        index[dfs.last().0 as int] != 0,
        top_lim >= eb.block_counts@[dfs.last().0 as int] * 32,
        lowlink[dfs.last().0 as int] != index[dfs.last().0 as int],
    ensures
        ({
            let v = dfs.last().0 as int;
            let dfs2 = dfs.drop_last();
            let p = dfs2.last().0 as int;
            let low2 = lowlink.update(p, if lowlink[p] < lowlink[v] { lowlink[p] } else { lowlink[v] });
            reach_ok(eb, index, low2, on_stack, scc, dfs2, result, dfs2.last().1 as int)
        }),
{
    let v = dfs.last().0 as int;
    let dfs2 = dfs.drop_last();
    let p = dfs2.last().0 as int;
    let low2 = lowlink.update(p, if lowlink[p] < lowlink[v] { lowlink[p] } else { lowlink[v] });
    assert(dfs2.last() == dfs[dfs.len() - 2]);
    assert(0 <= p < lowlink.len() && lowlink.len() == index.len()) by {
        reveal(stack_facts);
    }
    assert(forall|x: int| 0 <= x < lowlink.len() ==> #[trigger] low2[x] <= lowlink[x]);
    lemma_leave_links(eb, index, lowlink, on_stack, scc, dfs, result, timer);
    lemma_leave_to_dfs(eb, index, lowlink, on_stack, scc, dfs, result, timer);
    lemma_leave_low(eb, index, lowlink, on_stack, scc, dfs, result, timer);
    lemma_leave_seen(eb, index, lowlink, on_stack, scc, dfs, result, timer, top_lim, low2, on_stack);
    assert(part_from_dfs(eb, index, scc, dfs2)) by {
        reveal(part_from_dfs);
        assert forall|i: int, j: int|
            #![trigger dfs2[i], scc[j]]
            0 <= i < dfs2.len() && 0 <= j < scc.len() && index[dfs2[i].0 as int] != 0 && index[dfs2[i].0 as int]
                <= index[scc[j] as int] implies reaches(eb, dfs2[i].0 as int, scc[j] as int) by {
            assert(dfs2[i] == dfs[i]);
        }
    }
    assert(part_tree(eb, index, dfs2)) by {
        reveal(stack_facts);
        reveal(part_tree);
        assert(dfs2.last() == dfs[dfs.len() - 2]);
    }
}

/// After a component is taken off the stacks, what remains keeps its
/// reachability facts.
proof fn lemma_root_keep(
    eb: &GPUEdgeBlockGraph,
    index: Seq<u32>,
    lowlink: Seq<u32>,
    on_stack: Seq<bool>,
    scc: Seq<usize>,
    dfs: Seq<(usize, usize)>,
    result: Seq<Vec<usize>>,
    timer: u32,
    low2: Seq<u32>,
    k: int,
)
    requires
        stack_facts(eb.vertex_count as int, index, lowlink, on_stack, scc, dfs, result, timer),
        part_from_dfs(eb, index, scc, dfs),
        part_to_dfs(eb, index, lowlink, scc, dfs),
        dfs.len() >= 1,
        index[dfs.last().0 as int] != 0,
        0 <= k < scc.len(),
        scc[k] == dfs.last().0,
        low2.len() == lowlink.len(),
        forall|x: int| 0 <= x < lowlink.len() ==> #[trigger] low2[x] <= lowlink[x],
        forall|x: int|
            0 <= x < lowlink.len() && index[x] != 0 && index[x] < index[dfs.last().0 as int] ==> #[trigger] low2[x]
                == lowlink[x],
    ensures
        part_from_dfs(eb, index, scc.take(k), dfs.drop_last()),
        part_to_dfs(eb, index, low2, scc.take(k), dfs.drop_last()),
        part_tree(eb, index, dfs.drop_last()),
{
    reveal(stack_facts);
    reveal(part_from_dfs);
    reveal(part_to_dfs);
    reveal(part_tree);
    let v = dfs.last().0 as int;
    let t = dfs.len() - 1;
    let dfs2 = dfs.drop_last();
    let scc2 = scc.take(k);
    assert forall|j: int| 0 <= j < scc2.len() implies index[#[trigger] scc2[j] as int] < index[v] by {
        assert(scc2[j] == scc[j]);
        assert(index[scc[j] as int] < index[scc[k] as int]);
    }
    assert forall|i: int, j: int|
        #![trigger dfs2[i], scc2[j]]
        0 <= i < dfs2.len() && 0 <= j < scc2.len() && index[dfs2[i].0 as int] != 0 && index[dfs2[i].0 as int]
            <= index[scc2[j] as int] implies reaches(eb, dfs2[i].0 as int, scc2[j] as int) by {
        assert(dfs2[i] == dfs[i]);
        assert(scc2[j] == scc[j]);
    }
    assert forall|i: int, j: int|
        #![trigger dfs2[i], scc2[j]]
        0 <= j < scc2.len() && deepest(index, dfs2, i, scc2[j] as int) implies reaches(eb, scc2[j] as int, dfs2[i].0 as int)
        && low2[dfs2[i].0 as int] <= low2[scc2[j] as int] by {
        let x = scc[j] as int;
        assert(scc2[j] == scc[j]);
        assert(dfs2[i] == dfs[i]);
        if i + 1 < dfs2.len() {
            assert(dfs2[i + 1] == dfs[i + 1]);
        }
        assert(index[x] < index[v]);
        assert(deepest(index, dfs, i, x));
    }
    if dfs2.len() >= 2 {
        assert(dfs2.last() == dfs[t - 1]);
    }
}

proof fn lemma_root_keep_low(
    eb: &GPUEdgeBlockGraph,
    index: Seq<u32>,
    lowlink: Seq<u32>,
    on_stack: Seq<bool>,
    scc: Seq<usize>,
    dfs: Seq<(usize, usize)>,
    result: Seq<Vec<usize>>,
    timer: u32,
    low2: Seq<u32>,
    k: int,
)
    requires
        stack_facts(eb.vertex_count as int, index, lowlink, on_stack, scc, dfs, result, timer),
        part_low(eb, index, lowlink, scc),
        dfs.len() >= 1,
        index[dfs.last().0 as int] != 0,
        0 <= k < scc.len(),
        scc[k] == dfs.last().0,
        low2.len() == lowlink.len(),
        forall|x: int| 0 <= x < lowlink.len() ==> #[trigger] low2[x] <= lowlink[x],
        forall|x: int|
            0 <= x < lowlink.len() && index[x] != 0 && index[x] < index[dfs.last().0 as int] ==> #[trigger] low2[x]
                == lowlink[x],
    ensures
        part_low(eb, index, low2, scc.take(k)),
{
    reveal(stack_facts);
    reveal(part_low);
    let v = dfs.last().0 as int;
    let scc2 = scc.take(k);
    assert forall|j: int| 0 <= j < scc2.len() implies #[trigger] low_witnessed(eb, index, low2, scc2, j) by {
        assert(scc2[j] == scc[j]);
        assert(low_witnessed(eb, index, lowlink, scc, j));
        let x = scc[j] as int;
        assert(index[x] < index[v]);
        let ky = choose|ky: int|
            0 <= ky < scc.len() && index[#[trigger] scc[ky] as int] == lowlink[scc[j] as int] && reaches(
                eb,
                scc[j] as int,
                scc[ky] as int,
            );
        if ky >= k {
            if ky > k {
                assert(index[scc[k] as int] < index[scc[ky] as int]);
            }
            assert(false);
        }
        assert(scc2[ky] == scc[ky]);
    }
}

/// The vertices of a component popped at position `k` of the stack.
proof fn lemma_comp_members(scc: Seq<usize>, k: int, comp: Vec<usize>)
    requires
        0 <= k < scc.len(),
        comp@ == scc.skip(k).reverse(),
    ensures
        forall|x: usize| #[trigger] comp@.contains(x) <==> exists|j: int| k <= j < scc.len() && scc[j] == x,
{
    let sk = scc.skip(k);
    assert forall|x: usize| #[trigger] comp@.contains(x) <==> exists|j: int| k <= j < scc.len() && scc[j] == x by {
        if comp@.contains(x) {
            let q = choose|q: int| 0 <= q < comp@.len() && comp@[q] == x;
            assert(sk.reverse()[q] == sk[sk.len() - 1 - q]);
            assert(sk[sk.len() - 1 - q] == scc[scc.len() - 1 - q]);
        }
        if exists|j: int| k <= j < scc.len() && scc[j] == x {
            let j = choose|j: int| k <= j < scc.len() && scc[j] == x;
            let q = scc.len() - 1 - j;
            assert(sk.reverse()[q] == sk[sk.len() - 1 - q]);
            assert(sk[j - k] == scc[j]);
            assert(comp@[q] == x);
        }
    }
}

/// Each vertex above the root on the component stack reaches the root and
/// is reached from it, and its lowlink is no smaller than the root's.
proof fn lemma_root_links(
    eb: &GPUEdgeBlockGraph,
    index: Seq<u32>,
    lowlink: Seq<u32>,
    on_stack: Seq<bool>,
    scc: Seq<usize>,
    dfs: Seq<(usize, usize)>,
    result: Seq<Vec<usize>>,
    timer: u32,
    k: int,
)
    requires
        stack_facts(eb.vertex_count as int, index, lowlink, on_stack, scc, dfs, result, timer),
        part_from_dfs(eb, index, scc, dfs),
        part_to_dfs(eb, index, lowlink, scc, dfs),
        dfs.len() >= 1,
        index[dfs.last().0 as int] != 0,
        0 <= k < scc.len(),
        scc[k] == dfs.last().0,
    ensures
        forall|j: int| k <= j < scc.len() ==> reaches(eb, #[trigger] scc[j] as int, dfs.last().0 as int)
            && reaches(eb, dfs.last().0 as int, scc[j] as int) && lowlink[dfs.last().0 as int] <= lowlink[scc[j] as int]
            && index[dfs.last().0 as int] <= index[scc[j] as int],
        forall|j: int| 0 <= j < k ==> index[#[trigger] scc[j] as int] < index[dfs.last().0 as int],
{
    reveal(stack_facts);
    reveal(part_from_dfs);
    reveal(part_to_dfs);
    let v = dfs.last().0 as int;
    let t = dfs.len() - 1;
    assert forall|j: int| k <= j < scc.len() implies reaches(eb, #[trigger] scc[j] as int, v) && reaches(eb, v, scc[j] as int)
        && lowlink[v] <= lowlink[scc[j] as int] && index[v] <= index[scc[j] as int] by {
        if j > k {
            assert(index[scc[k] as int] < index[scc[j] as int]);
        }
        assert(deepest(index, dfs, t, scc[j] as int));
    }
    assert forall|j: int| 0 <= j < k implies index[#[trigger] scc[j] as int] < index[v] by {
        assert(index[scc[j] as int] < index[scc[k] as int]);
    }
}

/// The component taken off the stack is strongly connected.
proof fn lemma_root_connected(eb: &GPUEdgeBlockGraph, scc: Seq<usize>, result: Seq<Vec<usize>>, v: int, k: int, comp: Vec<usize>)
    requires
        comps_connected(eb, result),
        0 <= k < scc.len(),
        comp@ == scc.skip(k).reverse(),
        forall|j: int| k <= j < scc.len() ==> reaches(eb, #[trigger] scc[j] as int, v) && reaches(eb, v, scc[j] as int),
    ensures
        comps_connected(eb, result.push(comp)),
{
    lemma_comp_members(scc, k, comp);
    let r2 = result.push(comp);
    let m = result.len() as int;
    assert forall|c: int, x: int, y: int|
        #![trigger in_result(r2, c, x), in_result(r2, c, y)]
        in_result(r2, c, x) && in_result(r2, c, y) implies reaches(eb, x, y) by {
        if c == m {
            assert(r2[m] == comp);
            assert(comp@.contains(x as usize) && comp@.contains(y as usize));
            let jx = choose|j: int| k <= j < scc.len() && scc[j] == x as usize;
            let jy = choose|j: int| k <= j < scc.len() && scc[j] == y as usize;
            assert(reaches(eb, scc[jx] as int, v));
            assert(reaches(eb, v, scc[jy] as int));
            lemma_reach_trans(eb, x, v, y);
        } else {
            assert(r2[c] == result[c]);
            assert(in_result(result, c, x) && in_result(result, c, y));
        }
    }
}

/// An explored edge out of a vertex above the root leads into the
/// component or to a vertex already in an earlier component.
proof fn lemma_root_edge(
    eb: &GPUEdgeBlockGraph,
    index: Seq<u32>,
    lowlink: Seq<u32>,
    on_stack: Seq<bool>,
    scc: Seq<usize>,
    dfs: Seq<(usize, usize)>,
    result: Seq<Vec<usize>>,
    timer: u32,
    top_lim: int,
    k: int,
    x: int,
    w: int,
)
    requires
        eb.wf(),
        stack_facts(eb.vertex_count as int, index, lowlink, on_stack, scc, dfs, result, timer),
        part_seen_dfs(eb, index, lowlink, on_stack, dfs, top_lim),
        part_seen_done(eb, index, lowlink, on_stack, dfs),
        dfs.len() >= 1,
        index[dfs.last().0 as int] != 0,
        lowlink[dfs.last().0 as int] == index[dfs.last().0 as int],
        top_lim >= eb.block_counts@[dfs.last().0 as int] * 32,
        0 <= k < scc.len(),
        scc[k] == dfs.last().0,
        forall|j: int| k <= j < scc.len() ==> lowlink[dfs.last().0 as int] <= lowlink[#[trigger] scc[j] as int]
            && index[dfs.last().0 as int] <= index[scc[j] as int],
        forall|j: int| 0 <= j < k ==> index[#[trigger] scc[j] as int] < index[dfs.last().0 as int],
        exists|j: int| k <= j < scc.len() && scc[j] as int == x,
        arc(eb, x, w),
        w != x,
    ensures
        (exists|j: int| k <= j < scc.len() && scc[j] as int == w) || exists|c: int| #[trigger] in_result(result, c, w),
{
    reveal(stack_facts);
    reveal(part_seen_dfs);
    reveal(part_seen_done);
    let v = dfs.last().0 as int;
    let t = dfs.len() - 1;
    let jx = choose|j: int| k <= j < scc.len() && scc[j] as int == x;
    assert(scc[jx] as int == x);
    lemma_reads_adjacency(eb, x);
    assert(eb.out_adj(x).contains(w as u32));
    let q = choose|q: int| #[trigger] reads(eb, x, q, w as u32 as int);
    assert(w as u32 as int == w);
    assert(index[x] != 0);
    assert(index[v] <= index[x]);
    if x == v {
        assert(dfs[t].0 as int == x);
        assert(edge_seen(index, lowlink, on_stack, dfs, x, w));
    } else {
        assert(!on_dfs(dfs, x)) by {
            if on_dfs(dfs, x) {
                let i = choose|i: int| 0 <= i < dfs.len() && dfs[i].0 == x;
                if i < t {
                    assert(index[dfs[i].0 as int] < index[dfs[t].0 as int]);
                }
            }
        }
        assert(edge_seen(index, lowlink, on_stack, dfs, x, w));
    }
    assert(index[w] != 0);
    if on_stack[w] {
        assert(scc.contains(w as usize));
        let jw = choose|jw: int| 0 <= jw < scc.len() && scc[jw] == w as usize;
        assert(lowlink[v] <= lowlink[scc[jx] as int]);
        assert(index[v] <= index[w]);
        if jw < k {
            assert(index[scc[jw] as int] < index[v]);
        }
        assert(k <= jw && scc[jw] as int == w);
    } else {
        assert(flatten(result).contains(w as usize));
        lemma_flatten_contains(result, w as usize);
    }
}

/// Edges out of the component taken off the stack lead to it or to
/// components found before.
proof fn lemma_root_closed(
    eb: &GPUEdgeBlockGraph,
    index: Seq<u32>,
    lowlink: Seq<u32>,
    on_stack: Seq<bool>,
    scc: Seq<usize>,
    dfs: Seq<(usize, usize)>,
    result: Seq<Vec<usize>>,
    timer: u32,
    top_lim: int,
    k: int,
    comp: Vec<usize>,
)
    requires
        eb.wf(),
        stack_facts(eb.vertex_count as int, index, lowlink, on_stack, scc, dfs, result, timer),
        part_seen_dfs(eb, index, lowlink, on_stack, dfs, top_lim),
        part_seen_done(eb, index, lowlink, on_stack, dfs),
        comps_closed(eb, result),
        dfs.len() >= 1,
        index[dfs.last().0 as int] != 0,
        lowlink[dfs.last().0 as int] == index[dfs.last().0 as int],
        top_lim >= eb.block_counts@[dfs.last().0 as int] * 32,
        0 <= k < scc.len(),
        scc[k] == dfs.last().0,
        comp@ == scc.skip(k).reverse(),
        forall|j: int| k <= j < scc.len() ==> lowlink[dfs.last().0 as int] <= lowlink[#[trigger] scc[j] as int]
            && index[dfs.last().0 as int] <= index[scc[j] as int],
        forall|j: int| 0 <= j < k ==> index[#[trigger] scc[j] as int] < index[dfs.last().0 as int],
    ensures
        comps_closed(eb, result.push(comp)),
{
    lemma_comp_members(scc, k, comp);
    let r2 = result.push(comp);
    let m = result.len() as int;
    assert forall|c: int, x: int, w: int|
        #![trigger in_result(r2, c, x), arc(eb, x, w)]
        in_result(r2, c, x) && arc(eb, x, w) implies exists|c2: int| 0 <= c2 <= c && #[trigger] in_result(r2, c2, w) by {
        if c == m {
            assert(r2[m] == comp);
            assert(comp@.contains(x as usize));
            let jx = choose|j: int| k <= j < scc.len() && scc[j] == x as usize;
            assert(scc[jx] as int == x);
            if w == x {
                assert(in_result(r2, m, w));
            } else {
                lemma_root_edge(eb, index, lowlink, on_stack, scc, dfs, result, timer, top_lim, k, x, w);
                if exists|j: int| k <= j < scc.len() && scc[j] as int == w {
                    let jw = choose|j: int| k <= j < scc.len() && scc[j] as int == w;
                    assert(scc[jw] == w as usize);
                    assert(comp@.contains(w as usize));
                    assert(in_result(r2, m, w));
                } else {
                    let c2 = choose|c2: int| #[trigger] in_result(result, c2, w);
                    assert(r2[c2] == result[c2]);
                    assert(in_result(r2, c2, w));
                }
            }
        } else {
            assert(r2[c] == result[c]);
            assert(in_result(result, c, x));
            let c2 = choose|c2: int| 0 <= c2 <= c && #[trigger] in_result(result, c2, w);
            assert(r2[c2] == result[c2]);
            assert(in_result(r2, c2, w));
        }
    }
}

/// The top vertex, fully explored and its own lowlink, leaves the DFS
/// stack with every vertex above it on the component stack, as a new
/// component.
proof fn lemma_reach_root(
    eb: &GPUEdgeBlockGraph,
    index: Seq<u32>,
    lowlink: Seq<u32>,
    on_stack: Seq<bool>,
    scc: Seq<usize>,
    dfs: Seq<(usize, usize)>,
    result: Seq<Vec<usize>>,
    timer: u32,
    top_lim: int,
    low2: Seq<u32>,
    k: int,
    comp: Vec<usize>,
    on2: Seq<bool>,
)
    requires
        eb.wf(),
        stack_facts(eb.vertex_count as int, index, lowlink, on_stack, scc, dfs, result, timer),
        reach_ok(eb, index, lowlink, on_stack, scc, dfs, result, top_lim),
        dfs.len() >= 1,
        index[dfs.last().0 as int] != 0,
        top_lim >= eb.block_counts@[dfs.last().0 as int] * 32,
        lowlink[dfs.last().0 as int] == index[dfs.last().0 as int],
        low2 == (if dfs.len() >= 2 {
            let p = dfs[dfs.len() - 2].0 as int;
            let v = dfs.last().0 as int;
            lowlink.update(p, if lowlink[p] < lowlink[v] { lowlink[p] } else { lowlink[v] })
        } else {
            lowlink
        }),
        0 <= k < scc.len(),
        scc[k] == dfs.last().0,
        comp@ == scc.skip(k).reverse(),
        on2.len() == on_stack.len(),
        forall|x: int| 0 <= x < on_stack.len() ==> #[trigger] on2[x] == (on_stack[x] && !scc.skip(k).contains(x as usize)),
    ensures
        reach_ok(
            eb,
            index,
            low2,
            on2,
            scc.take(k),
            dfs.drop_last(),
            result.push(comp),
            if dfs.len() >= 2 { dfs[dfs.len() - 2].1 as int } else { 0 },
        ),
{
    let v = dfs.last().0 as int;
    assert(lowlink.len() == index.len() && index.len() == eb.vertex_count && on_stack.len() == eb.vertex_count) by {
        reveal(stack_facts);
    }
    assert(forall|x: int| 0 <= x < lowlink.len() ==> #[trigger] low2[x] <= lowlink[x]) by {
        reveal(stack_facts);
    }
    assert(forall|x: int|
        0 <= x < lowlink.len() && index[x] != 0 && index[x] < index[v] ==> #[trigger] low2[x] == lowlink[x]) by {
        reveal(stack_facts);
        if dfs.len() >= 2 {
            let p = dfs[dfs.len() - 2].0 as int;
            assert(index[p] != 0);
            assert(lowlink[p] <= index[p]);
        }
    }
    assert(low2.len() == lowlink.len()) by {
        reveal(stack_facts);
    }
    lemma_root_keep(eb, index, lowlink, on_stack, scc, dfs, result, timer, low2, k);
    lemma_root_keep_low(eb, index, lowlink, on_stack, scc, dfs, result, timer, low2, k);
    lemma_leave_seen(eb, index, lowlink, on_stack, scc, dfs, result, timer, top_lim, low2, on2);
    lemma_root_links(eb, index, lowlink, on_stack, scc, dfs, result, timer, k);
    lemma_root_connected(eb, scc, result, v, k, comp);
    lemma_root_closed(eb, index, lowlink, on_stack, scc, dfs, result, timer, top_lim, k, comp);
}

/// A vertex of a component is in the concatenation of the components.
proof fn lemma_in_flatten(r: Seq<Vec<usize>>, c: int, x: int)
    requires
        in_result(r, c, x),
    ensures
        flatten(r).contains(x as usize),
    decreases r.len(),
{
    let prev = flatten(r.drop_last());
    if c < r.len() - 1 {
        assert(r.drop_last()[c] == r[c]);
        lemma_in_flatten(r.drop_last(), c, x);
        let i = choose|i: int| 0 <= i < prev.len() && prev[i] == x as usize;
        assert(flatten(r)[i] == x as usize);
    } else {
        let j = choose|j: int| 0 <= j < r.last()@.len() && r.last()@[j] == x as usize;
        assert(flatten(r)[prev.len() + j] == x as usize);
    }
}

/// With no vertex twice, a vertex lies in one component only.
proof fn lemma_flatten_unique(r: Seq<Vec<usize>>, a: int, b: int, x: int)
    requires
        flatten(r).no_duplicates(),
        in_result(r, a, x),
        in_result(r, b, x),
    ensures
        a == b,
    decreases r.len(),
{
    let prev = flatten(r.drop_last());
    let m = r.len() - 1;
    assert(flatten(r) == prev + r.last()@);
    assert(prev.no_duplicates()) by {
        assert forall|i: int, j: int| 0 <= i < prev.len() && 0 <= j < prev.len() && i != j implies prev[i] != prev[j] by {
            assert(flatten(r)[i] == prev[i] && flatten(r)[j] == prev[j]);
        }
    }
    if a < m && b < m {
        assert(r.drop_last()[a] == r[a] && r.drop_last()[b] == r[b]);
        lemma_flatten_unique(r.drop_last(), a, b, x);
    } else if a != b {
        let c = if a < m { a } else { b };
        assert(r.drop_last()[c] == r[c]);
        lemma_in_flatten(r.drop_last(), c, x);
        let i = choose|i: int| 0 <= i < prev.len() && prev[i] == x as usize;
        let j = choose|j: int| 0 <= j < r.last()@.len() && r.last()@[j] == x as usize;
        assert(flatten(r)[i] == flatten(r)[prev.len() + j]);
        assert(false);
    }
}

/// Following a walk from a vertex of a component stays within that
/// component and earlier ones.
proof fn lemma_path_stays(eb: &GPUEdgeBlockGraph, r: Seq<Vec<usize>>, c: int, p: Seq<int>, i: int)
    requires
        comps_closed(eb, r),
        is_path(eb, p),
        0 <= i < p.len(),
        exists|c2: int| 0 <= c2 <= c && #[trigger] in_result(r, c2, p[i]),
    ensures
        exists|c2: int| 0 <= c2 <= c && #[trigger] in_result(r, c2, p.last()),
    decreases p.len() - i,
{
    if i < p.len() - 1 {
        let c2 = choose|c2: int| 0 <= c2 <= c && #[trigger] in_result(r, c2, p[i]);
        assert(arc(eb, p[i], p[i + 1]));
        let c3 = choose|c3: int| 0 <= c3 <= c2 && #[trigger] in_result(r, c3, p[i + 1]);
        assert(in_result(r, c3, p[i + 1]));
        lemma_path_stays(eb, r, c, p, i + 1);
    } else {
        let c2 = choose|c2: int| 0 <= c2 <= c && #[trigger] in_result(r, c2, p[i]);
        assert(p.last() == p[i]);
        assert(in_result(r, c2, p.last()));
    }
}

/// Whatever a vertex of a component reaches lies in that component or in
/// an earlier one.
proof fn lemma_reach_stays(eb: &GPUEdgeBlockGraph, r: Seq<Vec<usize>>, c: int, x: int, y: int)
    requires
        comps_closed(eb, r),
        in_result(r, c, x),
        reaches(eb, x, y),
    ensures
        exists|c2: int| 0 <= c2 <= c && #[trigger] in_result(r, c2, y),
{
    reveal(reaches);
    let p = choose|p: Seq<int>| #[trigger] is_path(eb, p) && p[0] == x && p.last() == y;
    assert(in_result(r, c, p[0]));
    lemma_path_stays(eb, r, c, p, 0);
}

proof fn lemma_visit(
    n: int,
    index: Seq<u32>,
    lowlink: Seq<u32>,
    on_stack: Seq<bool>,
    scc: Seq<usize>,
    dfs: Seq<(usize, usize)>,
    result: Seq<Vec<usize>>,
    timer: u32,
)
    requires
        search_ok(n, index, lowlink, on_stack, scc, dfs, result, timer),
        dfs.len() > 0,
        index[dfs.last().0 as int] == 0,
        timer < u32::MAX,
    ensures
        ({
            let v = dfs.last().0 as int;
            &&& search_ok(
                n,
                index.update(v, timer),
                lowlink.update(v, timer),
                on_stack.update(v, true),
                scc.push(v as usize),
                dfs,
                result,
                (timer + 1) as u32,
            )
            &&& dfs_measure(index.update(v, timer), dfs) < dfs_measure(index, dfs)
        }),
{
    let v = dfs.last().0 as int;
    let index2 = index.update(v, timer);
    let lowlink2 = lowlink.update(v, timer);
    let on2 = on_stack.update(v, true);
    let scc2 = scc.push(v as usize);
    assert(timer > 0) by {
        lemma_count_zero_le(index);
    }
    lemma_count_zero_set(index, v, timer);
    assert(!scc.contains(v as usize)) by {
        if scc.contains(v as usize) {
            let i = choose|i: int| 0 <= i < scc.len() && scc[i] == v as usize;
            assert(index[scc[i] as int] != 0);
        }
    }
    assert forall|x: int| 0 <= x < n implies (#[trigger] on2[x] <==> scc2.contains(x as usize)) by {
        if x == v {
            assert(scc2[scc.len() as int] == v as usize);
        } else {
            if scc2.contains(x as usize) {
                let i = choose|i: int| 0 <= i < scc2.len() && scc2[i] == x as usize;
                assert(i < scc.len());
                assert(scc[i] == x as usize);
            }
            if scc.contains(x as usize) {
                let i = choose|i: int| 0 <= i < scc.len() && scc[i] == x as usize;
                assert(scc2[i] == x as usize);
            }
        }
    }
    assert forall|i: int, j: int| 0 <= i < j < scc2.len() implies index2[#[trigger] scc2[i] as int] < index2[#[trigger] scc2[j] as int] by {
        if j == scc.len() {
            assert(scc[i] as int != v);
        } else {
            assert(scc[i] as int != v && scc[j] as int != v);
        }
    }
    assert forall|i: int, j: int| 0 <= i < j < dfs.len() && index2[dfs[j].0 as int] != 0 implies index2[#[trigger] dfs[i].0 as int] < index2[#[trigger] dfs[j].0 as int] by {
        assert(index[dfs[i].0 as int] != 0);
        if j == dfs.len() - 1 {
            assert(dfs[i].0 as int != v);
        } else {
            assert(index[dfs[j].0 as int] != 0);
            assert(dfs[i].0 as int != v && dfs[j].0 as int != v);
        }
    }
    assert forall|x: int| 0 <= x < n implies (flatten(result).contains(x as usize) <==> #[trigger] index2[x] != 0 && !on2[x]) by {
        if x != v {
            assert(index2[x] == index[x] && on2[x] == on_stack[x]);
        } else {
            assert(!flatten(result).contains(x as usize));
        }
    }
    if dfs.len() > 0 && index2[dfs[0].0 as int] != 0 {
        let r = index2[dfs[0].0 as int];
        if dfs.len() == 1 {
            assert(scc.len() == 0);
            assert forall|i: int| 0 <= i < scc2.len() implies r <= index2[#[trigger] scc2[i] as int] by {}
            assert forall|x: int| 0 <= x < n && index2[x] >= r implies r <= #[trigger] lowlink2[x] by {
                if x != v {
                    assert(index[x] < timer);
                }
            }
        } else {
            assert(index[dfs[0].0 as int] != 0);
            assert(dfs[0].0 as int != v);
            assert forall|i: int| 0 <= i < scc2.len() implies r <= index2[#[trigger] scc2[i] as int] by {
                if i < scc.len() {
                    assert(scc[i] as int != v);
                }
            }
            assert forall|x: int| 0 <= x < n && index2[x] >= r implies r <= #[trigger] lowlink2[x] by {
                if x != v {
                    assert(index2[x] == index[x]);
                }
            }
        }
    }
}

proof fn lemma_back_edge(
    n: int,
    index: Seq<u32>,
    lowlink: Seq<u32>,
    on_stack: Seq<bool>,
    scc: Seq<usize>,
    dfs: Seq<(usize, usize)>,
    result: Seq<Vec<usize>>,
    timer: u32,
    w: int,
)
    requires
        search_ok(n, index, lowlink, on_stack, scc, dfs, result, timer),
        dfs.len() > 0,
        index[dfs.last().0 as int] != 0,
        0 <= w < n,
        on_stack[w],
    ensures
        ({
            let v = dfs.last().0 as int;
            let m = if lowlink[v] < index[w] { lowlink[v] } else { index[w] };
            search_ok(n, index, lowlink.update(v, m), on_stack, scc, dfs, result, timer)
        }),
{
    let v = dfs.last().0 as int;
    let m = if lowlink[v] < index[w] { lowlink[v] } else { index[w] };
    let lowlink2 = lowlink.update(v, m);
    assert(scc.contains(w as usize));
    let k = choose|k: int| 0 <= k < scc.len() && scc[k] == w as usize;
    assert(index[scc[k] as int] != 0);
    if dfs.len() > 0 && index[dfs[0].0 as int] != 0 {
        let r = index[dfs[0].0 as int];
        assert(r <= index[scc[k] as int]);
        if dfs.len() > 1 {
            assert(index[dfs[0].0 as int] < index[dfs[dfs.len() - 1].0 as int]);
        }
        assert(r <= index[v]);
        assert(r <= lowlink[v]);
        assert forall|x: int| 0 <= x < n && index[x] >= r implies r <= #[trigger] lowlink2[x] by {
            if x == v {
                assert(r <= lowlink[v]);
            }
        }
    }
}

proof fn lemma_tree_edge(
    n: int,
    index: Seq<u32>,
    lowlink: Seq<u32>,
    on_stack: Seq<bool>,
    scc: Seq<usize>,
    dfs: Seq<(usize, usize)>,
    result: Seq<Vec<usize>>,
    timer: u32,
    w: int,
    next: usize,
)
    requires
        search_ok(n, index, lowlink, on_stack, scc, dfs, result, timer),
        dfs.len() > 0,
        index[dfs.last().0 as int] != 0,
        0 <= w < n,
        index[w] == 0,
    ensures
        ({
            let dfs2 = dfs.update(dfs.len() - 1, (dfs.last().0, next)).push((w as usize, 0usize));
            &&& search_ok(n, index, lowlink, on_stack, scc, dfs2, result, timer)
            &&& dfs_measure(index, dfs2) < dfs_measure(index, dfs)
        }),
{
    let dfs1 = dfs.update(dfs.len() - 1, (dfs.last().0, next));
    let dfs2 = dfs1.push((w as usize, 0usize));
    assert forall|i: int| 0 <= i < dfs2.len() - 1 implies index[#[trigger] dfs2[i].0 as int] != 0 by {
        assert(dfs2[i].0 == dfs[i].0);
    }
    assert forall|i: int, j: int| 0 <= i < j < dfs2.len() && index[dfs2[j].0 as int] != 0 implies index[#[trigger] dfs2[i].0 as int] < index[#[trigger] dfs2[j].0 as int] by {
        assert(j < dfs.len());
        assert(dfs2[i].0 == dfs[i].0 && dfs2[j].0 == dfs[j].0);
    }
    assert forall|i: int| 0 <= i < dfs2.len() && index[dfs2[i].0 as int] != 0 implies on_stack[#[trigger] dfs2[i].0 as int] by {
        assert(dfs2[i].0 == dfs[i].0);
    }
    assert forall|i: int| 0 <= i < dfs2.len() implies (#[trigger] dfs2[i].0 as int) < n by {
        if i < dfs.len() {
            assert(dfs2[i].0 == dfs[i].0);
        }
    }
    assert(dfs2[0].0 == dfs[0].0);
    if dfs.len() == 1 {
        assert(index[dfs[0].0 as int] != 0);
    }
}

/// Pops the finished top vertex `v` off the DFS stack and passes its
/// lowlink on to its parent.
proof fn lemma_finish(
    n: int,
    index: Seq<u32>,
    lowlink: Seq<u32>,
    on_stack: Seq<bool>,
    scc: Seq<usize>,
    dfs: Seq<(usize, usize)>,
    result: Seq<Vec<usize>>,
    timer: u32,
)
    requires
        search_ok(n, index, lowlink, on_stack, scc, dfs, result, timer),
        dfs.len() > 0,
        index[dfs.last().0 as int] != 0,
    ensures
        ({
            let v = dfs.last().0 as int;
            let dfs2 = dfs.drop_last();
            let lowlink2 = if dfs2.len() > 0 {
                let p = dfs2.last().0 as int;
                lowlink.update(p, if lowlink[p] < lowlink[v] { lowlink[p] } else { lowlink[v] })
            } else {
                lowlink
            };
            &&& lowlink2[v] == lowlink[v]
            &&& lowlink2.len() == n
            &&& forall|x: int| 0 <= x < n && index[x] != 0 ==> #[trigger] lowlink2[x] <= index[x]
            &&& dfs.len() > 1 ==> forall|x: int| 0 <= x < n && index[x] >= index[dfs[0].0 as int] ==> index[dfs[0].0 as int] <= #[trigger] lowlink2[x]
            &&& dfs2.len() == 0 ==> lowlink[v] == index[v]
            &&& scc.contains(v as usize)
            &&& lowlink[v] != index[v] ==> search_ok(n, index, lowlink2, on_stack, scc, dfs2, result, timer)
            &&& dfs_measure(index, dfs2) < dfs_measure(index, dfs)
        }),
{
    let v = dfs.last().0 as int;
    let dfs2 = dfs.drop_last();
    assert(on_stack[v]);
    if dfs2.len() > 0 {
        let p = dfs2.last().0 as int;
        assert(index[dfs[dfs.len() - 2].0 as int] < index[dfs[dfs.len() - 1].0 as int]);
        assert(p != v);
        let lowlink2 = lowlink.update(p, if lowlink[p] < lowlink[v] { lowlink[p] } else { lowlink[v] });
        assert(index[dfs[0].0 as int] != 0);
        assert forall|x: int| 0 <= x < n && index[x] != 0 implies #[trigger] lowlink2[x] <= index[x] by {}
        {
            let r = index[dfs[0].0 as int];
            assert(index[dfs[0].0 as int] < index[dfs[dfs.len() - 1].0 as int]);
            assert(r <= lowlink[v]);
            assert forall|x: int| 0 <= x < n && index[x] >= r implies r <= #[trigger] lowlink2[x] by {}
        }
        if lowlink[v] != index[v] {
            let r = index[dfs[0].0 as int];
            if dfs.len() > 1 {
                assert(r <= index[v]) by {
                    if dfs.len() - 1 > 0 {
                        assert(index[dfs[0].0 as int] < index[dfs[dfs.len() - 1].0 as int]);
                    }
                }
            }
            assert(r <= lowlink[v]);
            assert forall|x: int| 0 <= x < n && index[x] >= r implies r <= #[trigger] lowlink2[x] by {}
            assert forall|x: int| 0 <= x < n && index[x] != 0 implies #[trigger] lowlink2[x] <= index[x] by {}
            assert forall|i: int, j: int| 0 <= i < j < dfs2.len() && index[dfs2[j].0 as int] != 0 implies index[#[trigger] dfs2[i].0 as int] < index[#[trigger] dfs2[j].0 as int] by {
                assert(dfs2[i] == dfs[i] && dfs2[j] == dfs[j]);
            }
        }
    } else {
        assert(lowlink[v] <= index[v]);
        assert(lowlink[v] >= index[v]);
    }
}

/// Pops the component of `v` (everything above and including `v` on the
/// component stack) into a new component.
#[verifier::spinoff_prover]
#[verifier::rlimit(100)]
proof fn lemma_component(
    n: int,
    index: Seq<u32>,
    lowlink: Seq<u32>,
    on_stack: Seq<bool>,
    scc: Seq<usize>,
    dfs: Seq<(usize, usize)>,
    result: Seq<Vec<usize>>,
    timer: u32,
    lowlink2: Seq<u32>,
    k: int,
    comp: Vec<usize>,
    on2: Seq<bool>,
)
    requires
        search_ok(n, index, lowlink, on_stack, scc, dfs, result, timer),
        dfs.len() > 0,
        index[dfs.last().0 as int] != 0,
        lowlink[dfs.last().0 as int] == index[dfs.last().0 as int],
        lowlink2.len() == n,
        forall|x: int| 0 <= x < n && index[x] != 0 ==> #[trigger] lowlink2[x] <= index[x],
        dfs.len() > 1 ==> forall|x: int| 0 <= x < n && index[x] >= index[dfs[0].0 as int] ==> index[dfs[0].0 as int] <= #[trigger] lowlink2[x],
        0 <= k < scc.len(),
        scc[k] == dfs.last().0,
        comp@ == scc.skip(k).reverse(),
        on2.len() == n,
        forall|x: int| 0 <= x < n ==> #[trigger] on2[x] == (on_stack[x] && !scc.skip(k).contains(x as usize)),
    ensures
        search_ok(n, index, lowlink2, on2, scc.take(k), dfs.drop_last(), result.push(comp), timer),
{
    let v = dfs.last().0 as int;
    let dfs2 = dfs.drop_last();
    let scc2 = scc.take(k);
    let top = scc.skip(k);
    let result2 = result.push(comp);
    assert(flatten(result2) =~= flatten(result) + comp@) by {
        assert(result2.drop_last() =~= result);
    }
    // entries above `v` have larger indices, entries below smaller ones
    assert forall|i: int| 0 <= i < top.len() implies index[v] <= index[#[trigger] top[i] as int] by {
        if i > 0 {
            assert(top[i] == scc[k + i]);
            assert(index[scc[k] as int] < index[scc[k + i] as int]);
        }
    }
    assert forall|x: int| 0 <= x < n implies (#[trigger] on2[x] <==> scc2.contains(x as usize)) by {
        if scc2.contains(x as usize) {
            let i = choose|i: int| 0 <= i < scc2.len() && scc2[i] == x as usize;
            assert(scc[i] == x as usize);
            assert(on_stack[x]);
            if top.contains(x as usize) {
                let j = choose|j: int| 0 <= j < top.len() && top[j] == x as usize;
                assert(scc[k + j] == x as usize);
                assert(index[scc[i] as int] < index[scc[k + j] as int]);
            }
        }
        if on2[x] {
            assert(scc.contains(x as usize));
            let i = choose|i: int| 0 <= i < scc.len() && scc[i] == x as usize;
            if i >= k {
                assert(top[i - k] == x as usize);
            } else {
                assert(scc2[i] == x as usize);
            }
        }
    }
    // the DFS ancestors stay on the component stack
    assert forall|i: int| 0 <= i < dfs2.len() && index[dfs2[i].0 as int] != 0 implies on2[#[trigger] dfs2[i].0 as int] by {
        assert(dfs2[i] == dfs[i]);
        assert(index[dfs[i].0 as int] < index[dfs[dfs.len() - 1].0 as int]);
        if top.contains(dfs2[i].0) {
            let j = choose|j: int| 0 <= j < top.len() && top[j] == dfs2[i].0;
            assert(index[v] <= index[top[j] as int]);
        }
    }
    assert forall|i: int, j: int| 0 <= i < j < dfs2.len() && index[dfs2[j].0 as int] != 0 implies index[#[trigger] dfs2[i].0 as int] < index[#[trigger] dfs2[j].0 as int] by {
        assert(dfs2[i] == dfs[i] && dfs2[j] == dfs[j]);
    }
    // the root's tree is done: nothing is left below it
    if dfs2.len() == 0 {
        assert(index[dfs[0].0 as int] != 0);
        if k > 0 {
            assert(index[dfs[0].0 as int] <= index[scc[0] as int]);
            assert(index[scc[0] as int] < index[scc[k] as int]);
        }
        assert(scc2.len() == 0);
    } else {
        assert(index[dfs2[0].0 as int] != 0) by {
            assert(dfs2[0] == dfs[0]);
            assert(index[dfs[0].0 as int] != 0);
        }
        let r = index[dfs[0].0 as int];
        assert(dfs2[0] == dfs[0]);
        assert forall|i: int| 0 <= i < scc2.len() implies r <= index[#[trigger] scc2[i] as int] by {
            assert(scc2[i] == scc[i]);
        }
    }
    lemma_component_found(n, index, on_stack, scc, result, k, comp, on2);
    assert forall|i: int| 0 <= i < scc2.len() implies (#[trigger] scc2[i] as int) < n && index[scc2[i] as int] != 0 by {
        assert(scc2[i] == scc[i]);
    }
    assert forall|i: int, j: int| 0 <= i < j < scc2.len() implies index[#[trigger] scc2[i] as int] < index[#[trigger] scc2[j] as int] by {
        assert(scc2[i] == scc[i] && scc2[j] == scc[j]);
    }
}

#[verifier::spinoff_prover]
#[verifier::rlimit(60)]
proof fn lemma_component_found(
    n: int,
    index: Seq<u32>,
    on_stack: Seq<bool>,
    scc: Seq<usize>,
    result: Seq<Vec<usize>>,
    k: int,
    comp: Vec<usize>,
    on2: Seq<bool>,
)
    requires
        0 <= n <= 0xffff_ffff,
        index.len() == n,
        on_stack.len() == n,
        found_ok(n, index, on_stack, result),
        forall|i: int| 0 <= i < scc.len() ==> (#[trigger] scc[i] as int) < n && index[scc[i] as int] != 0,
        forall|i: int, j: int| 0 <= i < j < scc.len() ==> index[#[trigger] scc[i] as int] < index[#[trigger] scc[j] as int],
        forall|x: int| 0 <= x < n ==> (#[trigger] on_stack[x] <==> scc.contains(x as usize)),
        0 <= k < scc.len(),
        comp@ == scc.skip(k).reverse(),
        on2.len() == n,
        forall|x: int| 0 <= x < n ==> #[trigger] on2[x] == (on_stack[x] && !scc.skip(k).contains(x as usize)),
    ensures
        found_ok(n, index, on2, result.push(comp)),
{
    let top = scc.skip(k);
    let result2 = result.push(comp);
    assert(flatten(result2) =~= flatten(result) + comp@) by {
        assert(result2.drop_last() =~= result);
    }
    // the new component
    assert(comp@.len() > 0);
    assert forall|i: int| 0 <= i < result2.len() implies (#[trigger] result2[i])@.len() > 0 by {
        if i < result.len() {
            assert(result2[i] == result[i]);
        }
    }
    assert(comp@.no_duplicates()) by {
        assert forall|a: int, b: int| 0 <= a < b < comp@.len() implies comp@[a] != comp@[b] by {
            let ia = top.len() - 1 - a;
            let ib = top.len() - 1 - b;
            assert(comp@[a] == top[ia] && comp@[b] == top[ib]);
            assert(top[ia] == scc[k + ia] && top[ib] == scc[k + ib]);
            assert(index[scc[k + ib] as int] < index[scc[k + ia] as int]);
        }
    }
    assert forall|i: int| 0 <= i < comp@.len() implies !flatten(result).contains(#[trigger] comp@[i]) by {
        let j = top.len() - 1 - i;
        assert(comp@[i] == top[j]);
        assert(top[j] == scc[k + j]);
        let x = scc[k + j] as int;
        assert(scc.contains(x as usize));
        assert(on_stack[x]);
    }
    assert(flatten(result2).no_duplicates()) by {
        let f = flatten(result);
        assert forall|a: int, b: int| 0 <= a < b < flatten(result2).len() implies flatten(result2)[a] != flatten(result2)[b] by {
            if b >= f.len() && a < f.len() {
                assert(flatten(result2)[b] == comp@[b - f.len()]);
                assert(f.contains(f[a]));
            } else if a >= f.len() {
                assert(flatten(result2)[a] == comp@[a - f.len()]);
                assert(flatten(result2)[b] == comp@[b - f.len()]);
            }
        }
    }
    assert forall|x: int| 0 <= x < n implies (flatten(result2).contains(x as usize) <==> #[trigger] index[x] != 0 && !on2[x]) by {
        if top.contains(x as usize) {
            let j = choose|j: int| 0 <= j < top.len() && top[j] == x as usize;
            let i = top.len() - 1 - j;
            assert(comp@[i] == x as usize);
            assert(flatten(result2)[flatten(result).len() + i] == x as usize);
            assert(top[j] == scc[k + j]);
            assert(index[scc[k + j] as int] != 0);
        } else {
            if flatten(result2).contains(x as usize) {
                let q = choose|q: int| 0 <= q < flatten(result2).len() && flatten(result2)[q] == x as usize;
                if q >= flatten(result).len() {
                    let i = q - flatten(result).len();
                    assert(comp@[i] == top[top.len() - 1 - i]);
                } else {
                    assert(flatten(result)[q] == x as usize);
                }
            }
            if flatten(result).contains(x as usize) {
                let q = choose|q: int| 0 <= q < flatten(result).len() && flatten(result)[q] == x as usize;
                assert(flatten(result2)[q] == x as usize);
            }
        }
    }
    assert forall|i: int| 0 <= i < flatten(result2).len() implies (#[trigger] flatten(result2)[i] as int) < n by {
        if i >= flatten(result).len() {
            let j = i - flatten(result).len();
            assert(flatten(result2)[i] == comp@[j]);
            assert(comp@[j] == top[top.len() - 1 - j]);
            assert(top[top.len() - 1 - j] == scc[k + top.len() - 1 - j]);
        } else {
            assert(flatten(result2)[i] == flatten(result)[i]);
        }
    }
}

/// Pops the component stack down to and including `v` (found at `k`),
/// clearing the on-stack marks; the popped vertices come out topmost first.
fn pop_component(scc_stack: &mut Vec<usize>, on_stack: &mut Vec<bool>, v: usize, Ghost(k): Ghost<int>) -> (comp: Vec<usize>)
    requires
        0 <= k < old(scc_stack)@.len(),
        old(scc_stack)@[k] == v,
        forall|i: int| 0 <= i < old(scc_stack)@.len() ==> (#[trigger] old(scc_stack)@[i] as int) < old(on_stack)@.len(),
        forall|i: int, j: int| 0 <= i < j < old(scc_stack)@.len() ==> #[trigger] old(scc_stack)@[i] != #[trigger] old(scc_stack)@[j],
    ensures
        final(scc_stack)@ == old(scc_stack)@.take(k),
        comp@ == old(scc_stack)@.skip(k).reverse(),
        final(on_stack)@.len() == old(on_stack)@.len(),
        forall|x: int| 0 <= x < old(on_stack)@.len() ==> #[trigger] final(on_stack)@[x] == (old(on_stack)@[x] && !old(scc_stack)@.skip(k).contains(x as usize)),
{
    let ghost scc0 = scc_stack@;
    let ghost on0 = on_stack@;
    let ghost n = on0.len();
    let mut comp: Vec<usize> = Vec::new();
    proof {
        assert(on_stack.len() == n);
        assert(scc0.skip(scc0.len() as int).reverse() =~= comp@);
        assert(scc0.take(scc0.len() as int) =~= scc0);
        assert forall|x: int| 0 <= x < n implies #[trigger] on_stack@[x] == (on0[x] && !scc0.skip(scc0.len() as int).contains(x as usize)) by {}
    }
    loop
        invariant_except_break
            scc_stack@.len() > k,
        invariant
            0 <= k < scc0.len(),
            scc0[k] == v,
            n == on0.len(),
            n <= usize::MAX,
            on_stack@.len() == n,
            forall|i: int| 0 <= i < scc0.len() ==> (#[trigger] scc0[i] as int) < n,
            forall|i: int, j: int| 0 <= i < j < scc0.len() ==> #[trigger] scc0[i] != #[trigger] scc0[j],
            k <= scc_stack@.len() <= scc0.len(),
            scc_stack@ == scc0.take(scc_stack@.len() as int),
            comp@ == scc0.skip(scc_stack@.len() as int).reverse(),
            forall|x: int| 0 <= x < n ==> #[trigger] on_stack@[x] == (on0[x] && !scc0.skip(scc_stack@.len() as int).contains(x as usize)),
        ensures
            scc_stack@.len() == k,
        decreases scc_stack@.len(),
    {
        let ghost m = scc_stack@.len() as int;
        let ghost pre = scc_stack@;
        let w = scc_stack.pop().unwrap();
        proof {
            assert(pre[m - 1] == scc0[m - 1]);
            assert(w == scc0[m - 1]);
            assert(scc_stack@ =~= scc0.take(m - 1));
            assert(scc0.skip(m - 1).reverse() =~= scc0.skip(m).reverse().push(w)) by {
                assert(scc0.skip(m - 1) =~= seq![w] + scc0.skip(m));
            }
        }
        on_stack.set(w, false);
        comp.push(w);
        proof {
            let s1 = scc0.skip(m - 1);
            let s0 = scc0.skip(m);
            assert(s1 =~= seq![w] + s0);
            assert forall|x: int| 0 <= x < n implies #[trigger] on_stack@[x] == (on0[x] && !s1.contains(x as usize)) by {
                if x == w as int {
                    assert(s1[0] == w);
                } else {
                    if s1.contains(x as usize) {
                        let q = choose|q: int| 0 <= q < s1.len() && #[trigger] s1[q] == x as usize;
                        assert(s1[0] == w);
                        assert(q != 0);
                        assert(s0[q - 1] == x as usize);
                    }
                    if s0.contains(x as usize) {
                        let q = choose|q: int| 0 <= q < s0.len() && #[trigger] s0[q] == x as usize;
                        assert(s1[q + 1] == x as usize);
                    }
                }
            }
        }
        if w == v {
            proof {
                if m - 1 != k {
                    assert(scc0[k] != scc0[m - 1]);
                }
            }
            break;
        }
    }
    comp
}

/// Strongly connected components by Tarjan's algorithm: the components
/// partition the vertex indices `0..vertex_count` (each index in exactly
/// one component, none empty); two vertices share a component exactly when
/// each reaches the other along out-edges; and every edge leaving a
/// component leads to a component listed before it (reverse topological
/// order). Neighbours are read slot by slot from the forward blocks.
#[verifier::rlimit(100)]
#[verifier::spinoff_prover]
pub fn tarjan_scc(eb: &GPUEdgeBlockGraph) -> (r: Vec<Vec<usize>>)
    requires
        eb.wf(),
        eb.vertex_count < 0xffff_ffff,
    ensures
        flatten(r@).no_duplicates(),
        forall|i: int| 0 <= i < r@.len() ==> (#[trigger] r@[i])@.len() > 0,
        forall|x: int| 0 <= x < eb.vertex_count ==> #[trigger] flatten(r@).contains(x as usize),
        forall|i: int| 0 <= i < flatten(r@).len() ==> (#[trigger] flatten(r@)[i] as int) < eb.vertex_count,
        forall|c: int, x: int, y: int|
            #![trigger in_result(r@, c, x), in_result(r@, c, y)]
            in_result(r@, c, x) && in_result(r@, c, y) ==> reaches(eb, x, y),
        forall|c1: int, c2: int, x: int, y: int|
            #![trigger in_result(r@, c1, x), in_result(r@, c2, y)]
            in_result(r@, c1, x) && in_result(r@, c2, y) && reaches(eb, x, y) && reaches(eb, y, x) ==> c1 == c2,
        forall|c: int, x: int, w: int|
            #![trigger in_result(r@, c, x), arc(eb, x, w)]
            in_result(r@, c, x) && arc(eb, x, w) ==> exists|c2: int| 0 <= c2 <= c && #[trigger] in_result(r@, c2, w),
{
    let n = eb.vertex_count as usize;
    let mut result: Vec<Vec<usize>> = Vec::new();
    if n == 0 {
        proof {
            assert(flatten(result@) =~= Seq::<usize>::empty());
        }
        return result;
    }
    let blocks_len = eb.blocks.len();
    proof {
        lemma_blocks_len(eb.blocks@);
    }
    let mut index: Vec<u32> = vec![0u32; n];
    let mut lowlink: Vec<u32> = vec![0u32; n];
    let mut on_stack: Vec<bool> = vec![false; n];
    let mut scc_stack: Vec<usize> = Vec::new();
    let mut timer: u32 = 1;
    let mut dfs_stack: Vec<(usize, usize)> = Vec::new();
    proof {
        lemma_count_zero_all(index@);
        assert(flatten(result@) =~= Seq::<usize>::empty());
        reveal(part_from_dfs);
        reveal(part_to_dfs);
        reveal(part_low);
        reveal(part_tree);
        reveal(part_seen_dfs);
        reveal(part_seen_done);
    }
    let mut start: usize = 0;
    while start < n
        invariant
            eb.wf(),
            n == eb.vertex_count,
            n < 0xffff_ffff,
            blocks_len == eb.blocks@.len(),
            eb.blocks@.len() == num_blocks(eb.blocks@) * 34,
            start <= n,
            dfs_stack@.len() == 0,
            search_ok(n as int, index@, lowlink@, on_stack@, scc_stack@, dfs_stack@, result@, timer),
            reach_ok(eb, index@, lowlink@, on_stack@, scc_stack@, dfs_stack@, result@, 0),
            forall|x: int| 0 <= x < start ==> #[trigger] index@[x] != 0,
        decreases n - start,
    {
        if index[start] != 0 {
            start = start + 1;
            continue;
        }
        proof {
            lemma_reach_start(eb, index@, lowlink@, on_stack@, scc_stack@, dfs_stack@, result@, start);
        }
        dfs_stack.push((start, 0));
        while dfs_stack.len() > 0
            invariant
                eb.wf(),
                n == eb.vertex_count,
                n < 0xffff_ffff,
                blocks_len == eb.blocks@.len(),
                eb.blocks@.len() == num_blocks(eb.blocks@) * 34,
                start < n,
                search_ok(n as int, index@, lowlink@, on_stack@, scc_stack@, dfs_stack@, result@, timer),
                reach_ok(
                    eb,
                    index@,
                    lowlink@,
                    on_stack@,
                    scc_stack@,
                    dfs_stack@,
                    result@,
                    if dfs_stack@.len() > 0 { dfs_stack@.last().1 as int } else { 0 },
                ),
                forall|x: int| 0 <= x < start ==> #[trigger] index@[x] != 0,
                index@[start as int] != 0 || (dfs_stack@.len() == 1 && dfs_stack@[0].0 == start),
                forall|i: int| 0 <= i < dfs_stack@.len() && index@[dfs_stack@[i].0 as int] != 0 ==> #[trigger] dfs_stack@[i].1 >= 1,
            decreases dfs_measure(index@, dfs_stack@),
        {
            let top = dfs_stack.len() - 1;
            let (v, saved) = dfs_stack[top];
            let mut pos = saved;
            let ghost m0 = dfs_measure(index@, dfs_stack@);
            if pos == 0 {
                proof {
                    lemma_count_zero_le(index@);
                    assert(index@[v as int] == 0);
                    lemma_count_zero_set(index@, v as int, 1);
                    lemma_visit(n as int, index@, lowlink@, on_stack@, scc_stack@, dfs_stack@, result@, timer);
                    assert(dfs_stack@.last().1 == 0);
                    lemma_reach_visit(eb, index@, lowlink@, on_stack@, scc_stack@, dfs_stack@, result@, timer);
                }
                index.set(v, timer);
                lowlink.set(v, timer);
                timer = timer + 1;
                scc_stack.push(v);
                on_stack.set(v, true);
            }
            let ghost m1 = dfs_measure(index@, dfs_stack@);
            let first_block = eb.vertices[v] as usize;
            let nblocks = eb.block_counts[v] as usize;
            proof {
                if nblocks > 0 {
                    assert(first_block + nblocks <= num_blocks(eb.blocks@));
                }
            }
            let mut advanced = false;
            while pos < nblocks * 32
                invariant_except_break
                    !advanced,
                    top == dfs_stack@.len() - 1,
                    v == dfs_stack@.last().0,
                invariant
                    eb.wf(),
                    n == eb.vertex_count,
                    n < 0xffff_ffff,
                    blocks_len == eb.blocks@.len(),
                    eb.blocks@.len() == num_blocks(eb.blocks@) * 34,
                    nblocks > 0 ==> first_block + nblocks <= num_blocks(eb.blocks@),
                    nblocks * 32 <= usize::MAX,
                    start < n,
                    dfs_stack@.len() > 0,
                    index@[v as int] != 0,
                    !advanced ==> search_ok(n as int, index@, lowlink@, on_stack@, scc_stack@, dfs_stack@, result@, timer),
                    !advanced ==> reach_ok(eb, index@, lowlink@, on_stack@, scc_stack@, dfs_stack@, result@, pos as int),
                    nblocks == eb.block_counts@[v as int],
                    first_block == eb.vertices@[v as int],
                    (v as int) < n,
                    !advanced ==> dfs_measure(index@, dfs_stack@) == m1,
                    m1 <= m0,
                    m1 < m0 || pos >= 1,
                    forall|x: int| 0 <= x < start ==> #[trigger] index@[x] != 0,
                    index@[start as int] != 0,
                    forall|i: int| 0 <= i < dfs_stack@.len() - 1 && index@[dfs_stack@[i].0 as int] != 0 ==> #[trigger] dfs_stack@[i].1 >= 1,
                ensures
                    advanced ==> search_ok(n as int, index@, lowlink@, on_stack@, scc_stack@, dfs_stack@, result@, timer)
                        && reach_ok(eb, index@, lowlink@, on_stack@, scc_stack@, dfs_stack@, result@, 0)
                        && dfs_stack@.last().1 == 0
                        && dfs_measure(index@, dfs_stack@) < m1
                        && forall|i: int| 0 <= i < dfs_stack@.len() && index@[dfs_stack@[i].0 as int] != 0 ==> #[trigger] dfs_stack@[i].1 >= 1,
                    !advanced ==> search_ok(n as int, index@, lowlink@, on_stack@, scc_stack@, dfs_stack@, result@, timer)
                        && reach_ok(eb, index@, lowlink@, on_stack@, scc_stack@, dfs_stack@, result@, pos as int)
                        && pos >= nblocks * 32
                        && dfs_measure(index@, dfs_stack@) == m1 && dfs_stack@.len() == top + 1 && v == dfs_stack@.last().0,
                decreases nblocks * 32 - pos,
            {
                let block_idx = pos / 32;
                let sub_idx = pos % 32;
                proof {
                    lemma_stack_facts(n as int, index@, lowlink@, on_stack@, scc_stack@, dfs_stack@, result@, timer);
                    lemma_reads_adjacency(eb, v as int);
                }
                if block_idx < nblocks {
                    let base = (first_block + block_idx) * 34;
                    let ec = eb.blocks[base + 1] as usize;
                    let lim = if ec < 32 { ec } else { 32 };
                    proof {
                        assert(ec == block_len(eb.blocks@, first_block + block_idx));
                        assert(first_block + block_idx < num_blocks(eb.blocks@));
                        assert(block_len(eb.blocks@, first_block + block_idx) <= 32);
                    }
                    if sub_idx < lim {
                        let w = eb.blocks[base + 2 + sub_idx] as usize;
                        proof {
                            assert(w == block_slot(eb.blocks@, first_block + block_idx, sub_idx as int));
                            assert(reads(eb, v as int, pos as int, w as int));
                            assert(forall|x: int| #[trigger] reads(eb, v as int, pos as int, x) ==> x == w);
                        }
                        if w < n && w != v {
                            if index[w] == 0 {
                                proof {
                                    lemma_tree_edge(n as int, index@, lowlink@, on_stack@, scc_stack@, dfs_stack@, result@, timer, w as int, (pos + 1) as usize);
                                    assert(dfs_stack@.last() == dfs_stack@[top as int]);
                                    lemma_reach_tree(eb, index@, lowlink@, on_stack@, scc_stack@, dfs_stack@, result@, timer, pos, w);
                                }
                                dfs_stack.set(top, (v, pos + 1));
                                dfs_stack.push((w, 0));
                                advanced = true;
                                break;
                            } else if on_stack[w] {
                                proof {
                                    lemma_back_edge(n as int, index@, lowlink@, on_stack@, scc_stack@, dfs_stack@, result@, timer, w as int);
                                    lemma_reach_back(eb, index@, lowlink@, on_stack@, scc_stack@, dfs_stack@, result@, timer, pos, w);
                                }
                                let lv = lowlink[v];
                                let iw = index[w];
                                lowlink.set(v, if lv < iw { lv } else { iw });
                            } else {
                                proof {
                                    lemma_reach_skip(eb, index@, lowlink@, on_stack@, scc_stack@, dfs_stack@, result@, pos);
                                }
                            }
                        } else {
                            proof {
                                lemma_reach_skip(eb, index@, lowlink@, on_stack@, scc_stack@, dfs_stack@, result@, pos);
                            }
                        }
                    } else {
                        proof {
                            assert(forall|x: int| !#[trigger] reads(eb, v as int, pos as int, x));
                            lemma_reach_skip(eb, index@, lowlink@, on_stack@, scc_stack@, dfs_stack@, result@, pos);
                        }
                    }
                } else {
                    proof {
                        assert(forall|x: int| !#[trigger] reads(eb, v as int, pos as int, x));
                        lemma_reach_skip(eb, index@, lowlink@, on_stack@, scc_stack@, dfs_stack@, result@, pos);
                    }
                }
                pos = pos + 1;
            }
            if advanced {
                continue;
            }
            proof {
                lemma_finish(n as int, index@, lowlink@, on_stack@, scc_stack@, dfs_stack@, result@, timer);
                lemma_stack_facts(n as int, index@, lowlink@, on_stack@, scc_stack@, dfs_stack@, result@, timer);
                assert(dfs_stack@.last().0 == v);
            }
            let ghost pre_dfs = dfs_stack@;
            let ghost pre_low = lowlink@;
            let ghost pre_on = on_stack@;
            let ghost pre_scc = scc_stack@;
            let ghost pre_result = result@;
            let ghost pre_search = search_ok(n as int, index@, lowlink@, on_stack@, scc_stack@, dfs_stack@, result@, timer);
            dfs_stack.pop();
            if dfs_stack.len() > 0 {
                let p = dfs_stack[dfs_stack.len() - 1].0;
                let lp = lowlink[p];
                let lv = lowlink[v];
                lowlink.set(p, if lp < lv { lp } else { lv });
            }
            if lowlink[v] == index[v] {
                let ghost scc0 = scc_stack@;
                let ghost on0 = on_stack@;
                let ghost k = choose|k: int| 0 <= k < scc0.len() && scc0[k] == v;
                proof {
                    assert forall|i: int, j: int| 0 <= i < j < scc0.len() implies #[trigger] scc0[i] != #[trigger] scc0[j] by {
                        assert(index@[scc0[i] as int] < index@[scc0[j] as int]);
                    }
                }
                let comp = pop_component(&mut scc_stack, &mut on_stack, v, Ghost(k));
                proof {
                    lemma_component(n as int, index@, pre_low, on0, scc0, pre_dfs, result@, timer, lowlink@, k, comp, on_stack@);
                }
                result.push(comp);
                proof {
                    lemma_reach_root(eb, index@, pre_low, pre_on, pre_scc, pre_dfs, pre_result, timer, pos as int, lowlink@, k, comp, on_stack@);
                }
            } else {
                proof {
                    assert(pre_dfs.len() >= 2) by {
                        if pre_dfs.len() == 1 {
                            assert(pre_dfs[0].0 == v);
                            assert(index@[v as int] <= pre_low[v as int]);
                        }
                    }
                    lemma_reach_leave(eb, index@, pre_low, pre_on, pre_scc, pre_dfs, pre_result, timer, pos as int);
                }
            }
        }
        start = start + 1;
    }
    proof {
        assert forall|x: int| 0 <= x < n implies #[trigger] flatten(result@).contains(x as usize) by {
            assert(index@[x] != 0);
            if on_stack@[x] {
                assert(scc_stack@.contains(x as usize));
            }
        }
        assert forall|c1: int, c2: int, x: int, y: int|
            #![trigger in_result(result@, c1, x), in_result(result@, c2, y)]
            in_result(result@, c1, x) && in_result(result@, c2, y) && reaches(eb, x, y) && reaches(eb, y, x) implies c1
            == c2 by {
            lemma_reach_stays(eb, result@, c1, x, y);
            let a = choose|a: int| 0 <= a <= c1 && #[trigger] in_result(result@, a, y);
            lemma_flatten_unique(result@, a, c2, y);
            lemma_reach_stays(eb, result@, c2, y, x);
            let b = choose|b: int| 0 <= b <= c2 && #[trigger] in_result(result@, b, x);
            lemma_flatten_unique(result@, b, c1, x);
        }
    }
    result
}

} // verus!
