//! Wave-core decomposition: batch peeling of an EdgeBlock graph by degree,
//! lowest degree first, with a bucket per degree.

use vstd::prelude::*;
use crate::gpu_edge_block::GPUEdgeBlockGraph;
use crate::edge_store::{read_adjacency, lemma_adjacency_len, lemma_blocks_len, num_blocks};

verus! {

/// Peeling step for one out-neighbour `nb` of a vertex peeled at level
/// `core_v_degree`: an unpeeled vertex of higher degree loses one degree
/// and is filed (again) under its new degree, if that is at most `max_deg`.
/// Ids `nb >= n` are ignored.
pub fn update_neighbor(
    nb: usize,
    n: usize,
    core_v_degree: u32,
    degree: &mut [u32],
    bins: &mut [Vec<usize>],
    max_deg: usize,
    peeled: &[bool],
)
    requires
        n <= old(degree)@.len(),
        n <= peeled@.len(),
        max_deg < old(bins)@.len(),
    ensures
        ({
            let lowered = nb < n && !peeled@[nb as int] && old(degree)@[nb as int] > core_v_degree;
            &&& lowered ==> final(degree)@ == old(degree)@.update(nb as int, (old(degree)@[nb as int] - 1) as u32)
            &&& !lowered ==> final(degree)@ == old(degree)@
            &&& final(bins)@.len() == old(bins)@.len()
            &&& forall|d: int| 0 <= d < old(bins)@.len() ==> #[trigger] final(bins)@[d]@ == if lowered && d == old(degree)@[nb as int] - 1 && d <= max_deg {
                old(bins)@[d]@.push(nb)
            } else {
                old(bins)@[d]@
            }
        }),
{
    if nb >= n || peeled[nb] {
        return;
    }
    let old_d = degree[nb] as usize;
    if old_d as u32 <= core_v_degree {
        return;
    }
    degree[nb] = degree[nb] - 1;
    let new_d = old_d - 1;
    if new_d <= max_deg {
        let mut bin: Vec<usize> = Vec::new();
        std::mem::swap(&mut bin, &mut bins[new_d]);
        bin.push(nb);
        bins[new_d] = bin;
    }
}

/// Sum of the entries.
pub open spec fn sum_u32(s: Seq<u32>) -> nat
    decreases s.len(),
{
    if s.len() == 0 {
        0
    } else {
        sum_u32(s.drop_last()) + s.last() as nat
    }
}

/// Total number of entries of the bins.
pub open spec fn bins_total(b: Seq<Vec<usize>>) -> nat
    decreases b.len(),
{
    if b.len() == 0 {
        0
    } else {
        bins_total(b.drop_last()) + b.last()@.len()
    }
}

/// Number of `true` entries.
pub open spec fn count_true(s: Seq<bool>) -> nat
    decreases s.len(),
{
    if s.len() == 0 {
        0
    } else {
        count_true(s.drop_last()) + if s.last() { 1nat } else { 0nat }
    }
}

proof fn lemma_sum_update(s: Seq<u32>, i: int, x: u32)
    requires
        0 <= i < s.len(),
    ensures
        sum_u32(s.update(i, x)) + s[i] == sum_u32(s) + x,
    decreases s.len(),
{
    if i < s.len() - 1 {
        assert(s.update(i, x).drop_last() =~= s.drop_last().update(i, x));
        lemma_sum_update(s.drop_last(), i, x);
    } else {
        assert(s.update(i, x).drop_last() =~= s.drop_last());
    }
}

proof fn lemma_bins_pointwise(b1: Seq<Vec<usize>>, b2: Seq<Vec<usize>>, k: int, extra: nat)
    requires
        b1.len() == b2.len(),
        0 <= k < b1.len(),
        forall|d: int| 0 <= d < b1.len() && d != k ==> #[trigger] b2[d]@.len() == b1[d]@.len(),
        b2[k]@.len() == b1[k]@.len() + extra,
    ensures
        bins_total(b2) == bins_total(b1) + extra,
    decreases b1.len(),
{
    if k < b1.len() - 1 {
        lemma_bins_pointwise(b1.drop_last(), b2.drop_last(), k, extra);
    } else {
        lemma_bins_equal(b1.drop_last(), b2.drop_last());
    }
}

proof fn lemma_bins_equal(b1: Seq<Vec<usize>>, b2: Seq<Vec<usize>>)
    requires
        b1.len() == b2.len(),
        forall|d: int| 0 <= d < b1.len() ==> #[trigger] b2[d]@.len() == b1[d]@.len(),
    ensures
        bins_total(b2) == bins_total(b1),
    decreases b1.len(),
{
    if b1.len() > 0 {
        lemma_bins_equal(b1.drop_last(), b2.drop_last());
    }
}

proof fn lemma_count_true_update(s: Seq<bool>, i: int)
    requires
        0 <= i < s.len(),
        !s[i],
    ensures
        count_true(s.update(i, true)) == count_true(s) + 1,
        count_true(s) < s.len(),
    decreases s.len(),
{
    lemma_count_true_le(s.drop_last());
    if i < s.len() - 1 {
        assert(s.update(i, true).drop_last() =~= s.drop_last().update(i, true));
        lemma_count_true_update(s.drop_last(), i);
    } else {
        assert(s.update(i, true).drop_last() =~= s.drop_last());
    }
}

proof fn lemma_count_true_le(s: Seq<bool>)
    ensures
        count_true(s) <= s.len(),
    decreases s.len(),
{
    if s.len() > 0 {
        lemma_count_true_le(s.drop_last());
    }
}

proof fn lemma_count_true_full(s: Seq<bool>)
    requires
        count_true(s) >= s.len(),
    ensures
        forall|i: int| 0 <= i < s.len() ==> #[trigger] s[i],
    decreases s.len(),
{
    if s.len() > 0 {
        lemma_count_true_le(s.drop_last());
        lemma_count_true_full(s.drop_last());
        assert forall|i: int| 0 <= i < s.len() implies #[trigger] s[i] by {
            if i < s.len() - 1 {
                assert(s.drop_last()[i] == s[i]);
            }
        }
    }
}

proof fn lemma_count_true_none(s: Seq<bool>)
    requires
        forall|i: int| 0 <= i < s.len() ==> !#[trigger] s[i],
    ensures
        count_true(s) == 0,
    decreases s.len(),
{
    if s.len() > 0 {
        lemma_count_true_none(s.drop_last());
    }
}

/// Smallest out-degree (as `u32`) among the first `k` vertices
/// (`u32::MAX` for none).
pub open spec fn min_degree_upto(g: &GPUEdgeBlockGraph, k: int) -> u32
    decreases k,
{
    if k <= 0 {
        0xffff_ffff
    } else {
        let m = min_degree_upto(g, k - 1);
        let d = g.out_adj(k - 1).len() as u32;
        if d < m {
            d
        } else {
            m
        }
    }
}

proof fn lemma_min_degree(g: &GPUEdgeBlockGraph, k: int)
    requires
        k >= 0,
    ensures
        forall|v: int| 0 <= v < k ==> #[trigger] g.out_adj(v).len() as u32 >= min_degree_upto(g, k),
    decreases k,
{
    if k > 0 {
        lemma_min_degree(g, k - 1);
    }
}

/// Largest out-degree (as `u32`) among the first `k` vertices.
pub open spec fn max_degree_upto(g: &GPUEdgeBlockGraph, k: int) -> u32
    decreases k,
{
    if k <= 0 {
        0
    } else {
        let m = max_degree_upto(g, k - 1);
        let d = g.out_adj(k - 1).len() as u32;
        if d > m {
            d
        } else {
            m
        }
    }
}

proof fn lemma_max_degree(g: &GPUEdgeBlockGraph, k: int)
    requires
        k >= 0,
    ensures
        forall|v: int| 0 <= v < k ==> #[trigger] g.out_adj(v).len() as u32 <= max_degree_upto(g, k),
        k > 0 ==> exists|v: int| 0 <= v < k && max_degree_upto(g, k) == #[trigger] g.out_adj(v).len() as u32,
    decreases k,
{
    if k > 0 {
        lemma_max_degree(g, k - 1);
        let d = g.out_adj(k - 1).len() as u32;
        if d > max_degree_upto(g, k - 1) || k == 1 {
            assert(max_degree_upto(g, k) == g.out_adj(k - 1).len() as u32);
        } else {
            let w = choose|w: int| 0 <= w < k - 1 && max_degree_upto(g, k - 1) == #[trigger] g.out_adj(w).len() as u32;
            assert(0 <= w < k && max_degree_upto(g, k) == g.out_adj(w).len() as u32);
        }
    }
}

/// Wave-core level of every vertex index: bins by (out-)degree are emptied
/// lowest first, a whole bin at a time; a vertex gets the level of the bin
/// it is taken from, and each of its out-neighbours of higher degree loses
/// one degree and moves to the bin below. Each level is at most the
/// vertex's out-degree (as `u32`) and at least the smallest out-degree:
/// levels are taken lowest first, and a bin below the current level never
/// fills again.
#[verifier::rlimit(60)]
pub fn wave_core_blocks(eb: &GPUEdgeBlockGraph) -> (core: Vec<u32>)
    requires
        eb.wf(),
    ensures
        core@.len() == eb.vertex_count,
        forall|v: int| 0 <= v < core@.len() ==> #[trigger] core@[v] <= eb.out_adj(v).len() as u32,
        forall|v: int| 0 <= v < core@.len() ==> #[trigger] core@[v] >= min_degree_upto(eb, eb.vertex_count as int),
        forall|v: int| 0 <= v < core@.len() ==> #[trigger] core@[v] <= max_degree_upto(eb, eb.vertex_count as int),
{
    let n = eb.vertex_count as usize;
    let mut degree = eb.compute_out_degrees();
    let ghost init = degree@;
    let ghost lo: int = min_degree_upto(eb, eb.vertex_count as int) as int;
    proof {
        lemma_min_degree(eb, eb.vertex_count as int);
    }
    if n == 0 {
        return Vec::new();
    }
    let mut max_deg: usize = 0;
    let mut v: usize = 0;
    while v < n
        invariant
            n == eb.vertex_count,
            degree@ == init,
            init.len() == n,
            forall|w: int| 0 <= w < n ==> #[trigger] init[w] == eb.out_adj(w).len() as u32,
            v <= n,
            max_deg == max_degree_upto(eb, v as int),
        decreases n - v,
    {
        if degree[v] as usize > max_deg {
            max_deg = degree[v] as usize;
        }
        v = v + 1;
    }
    let blocks_len = eb.blocks.len();
    proof {
        lemma_max_degree(eb, n as int);
        let w = choose|w: int| 0 <= w < n && max_degree_upto(eb, n as int) == #[trigger] eb.out_adj(w).len() as u32;
        lemma_adjacency_len(eb.vertices@, eb.block_counts@, eb.blocks@, n as int, w);
        lemma_blocks_len(eb.blocks@);
        assert(max_deg < usize::MAX);
    }
    let nbins: usize = if max_deg < 1 { 2 } else { max_deg + 1 };
    let mut bins: Vec<Vec<usize>> = Vec::new();
    while bins.len() < nbins
        invariant
            bins@.len() <= nbins,
            forall|b: int| 0 <= b < bins@.len() ==> #[trigger] bins@[b]@.len() == 0,
        decreases nbins - bins@.len(),
    {
        bins.push(Vec::new());
    }
    proof {
        assert forall|w: int| 0 <= w < n implies (#[trigger] init[w] as int) >= lo by {
            assert(init[w] == eb.out_adj(w).len() as u32);
        }
    }
    let mut v: usize = 0;
    while v < n
        invariant
            n == eb.vertex_count,
            degree@ == init,
            init.len() == n,
            forall|w: int| 0 <= w < n ==> (#[trigger] init[w] as int) <= max_deg,
            max_deg < nbins,
            bins@.len() == nbins,
            v <= n,
            forall|b: int, j: int| 0 <= b < nbins && 0 <= j < bins@[b]@.len() ==> (#[trigger] bins@[b]@[j] as int) < n
                && b <= init[bins@[b]@[j] as int] && b <= max_deg,
            forall|w: int| 0 <= w < v ==> #[trigger] bins@[init[w] as int]@.contains(w as usize),
            forall|w: int| 0 <= w < n ==> (#[trigger] init[w] as int) >= lo,
            forall|b: int| 0 <= b < nbins && b < lo ==> #[trigger] bins@[b]@.len() == 0,
        decreases n - v,
    {
        let d = degree[v] as usize;
        let ghost b0 = bins@;
        let mut bin: Vec<usize> = Vec::new();
        std::mem::swap(&mut bin, &mut bins[d]);
        bin.push(v);
        bins.set(d, bin);
        proof {
            assert(bins@[d as int]@ == b0[d as int]@.push(v));
            assert forall|w: int| 0 <= w < v + 1 implies #[trigger] bins@[init[w] as int]@.contains(w as usize) by {
                if w == v {
                    assert(bins@[d as int]@.last() == v);
                } else if init[w] as int == d {
                    assert(b0[init[w] as int]@.contains(w as usize));
                    let j = choose|j: int| 0 <= j < b0[d as int]@.len() && b0[d as int]@[j] == w as usize;
                    assert(bins@[d as int]@[j] == w as usize);
                } else {
                    assert(b0[init[w] as int]@.contains(w as usize));
                }
            }
        }
        v = v + 1;
    }
    let mut core: Vec<u32> = vec![0u32; n];
    let mut peeled: Vec<bool> = vec![false; n];
    let mut peeled_count: usize = 0;
    proof {
        lemma_count_true_none(peeled@);
        assert forall|w: int| 0 <= w < n && !#[trigger] peeled@[w] implies exists|b: int| 0 <= b < nbins && bins@[b]@.contains(w as usize) by {
            assert(bins@[init[w] as int]@.contains(w as usize));
        }
    }
    while peeled_count < n
        invariant
            eb.wf(),
            n == eb.vertex_count,
            init.len() == n,
            forall|w: int| 0 <= w < n ==> #[trigger] init[w] == eb.out_adj(w).len() as u32,
            forall|w: int| 0 <= w < n ==> (#[trigger] init[w] as int) <= max_deg,
            max_deg == max_degree_upto(eb, n as int),
            max_deg < nbins,
            bins@.len() == nbins,
            degree@.len() == n,
            core@.len() == n,
            peeled@.len() == n,
            peeled_count == count_true(peeled@),
            peeled_count >= n ==> forall|w: int| 0 <= w < n ==> #[trigger] peeled@[w],
            forall|w: int| 0 <= w < n ==> #[trigger] degree@[w] <= init[w],
            forall|b: int, j: int| 0 <= b < nbins && 0 <= j < bins@[b]@.len() ==> (#[trigger] bins@[b]@[j] as int) < n
                && b <= init[bins@[b]@[j] as int] && b <= max_deg,
            forall|w: int| 0 <= w < n && #[trigger] peeled@[w] ==> core@[w] <= init[w] && (core@[w] as int) <= max_deg,
            forall|w: int| 0 <= w < n && !#[trigger] peeled@[w] ==> exists|b: int| 0 <= b < nbins && bins@[b]@.contains(w as usize),
            forall|b: int| 0 <= b < nbins && b < lo ==> #[trigger] bins@[b]@.len() == 0,
            forall|w: int| 0 <= w < n && #[trigger] peeled@[w] ==> core@[w] as int >= lo,
        ensures
            forall|w: int| 0 <= w < n ==> #[trigger] peeled@[w],
        decreases sum_u32(degree@) + bins_total(bins@),
    {
        let ghost m_before = sum_u32(degree@) + bins_total(bins@);
        let mut cb: usize = 0;
        let mut found = false;
        while cb <= max_deg
            invariant_except_break
                !found,
            invariant
                max_deg < nbins,
                bins@.len() == nbins,
                cb <= max_deg + 1,
                forall|b: int| 0 <= b < cb ==> #[trigger] bins@[b]@.len() == 0,
            ensures
                found ==> cb <= max_deg && bins@[cb as int]@.len() > 0,
                !found ==> forall|b: int| 0 <= b <= max_deg ==> #[trigger] bins@[b]@.len() == 0,
            decreases max_deg + 1 - cb,
        {
            if bins[cb].len() > 0 {
                found = true;
                break;
            }
            cb = cb + 1;
        }
        if !found {
            proof {
                assert forall|w: int| 0 <= w < n implies #[trigger] peeled@[w] by {
                    if !peeled@[w] {
                        let b = choose|b: int| 0 <= b < nbins && bins@[b]@.contains(w as usize);
                        let j = choose|j: int| 0 <= j < bins@[b]@.len() && bins@[b]@[j] == w as usize;
                        assert(b <= max_deg);
                        assert(bins@[b]@.len() == 0);
                    }
                }
            }
            break;
        }
        proof {
            assert(cb as int >= lo) by {
                if (cb as int) < lo {
                    assert(bins@[cb as int]@.len() == 0);
                }
            }
        }
        let mut batch: Vec<usize> = Vec::new();
        let ghost bins_full = bins@;
        std::mem::swap(&mut batch, &mut bins[cb]);
        proof {
            lemma_bins_pointwise(bins@, bins_full, cb as int, batch@.len());
            assert forall|w: int| 0 <= w < n && !#[trigger] peeled@[w] implies (exists|b: int| 0 <= b < nbins && bins@[b]@.contains(w as usize))
                || batch@.contains(w as usize) by {
                let b = choose|b: int| 0 <= b < nbins && bins_full[b]@.contains(w as usize);
                if b != cb {
                    assert(bins@[b] == bins_full[b]);
                }
            }
            assert(batch@.skip(0) =~= batch@);
        }
        let mut k: usize = 0;
        while k < batch.len()
            invariant
                n == eb.vertex_count,
                eb.wf(),
                init.len() == n,
                forall|w: int| 0 <= w < n ==> #[trigger] init[w] == eb.out_adj(w).len() as u32,
                forall|w: int| 0 <= w < n ==> (#[trigger] init[w] as int) <= max_deg,
                cb <= max_deg,
                max_deg < nbins,
                bins@.len() == nbins,
                degree@.len() == n,
                core@.len() == n,
                peeled@.len() == n,
                peeled_count == count_true(peeled@),
                k <= batch@.len(),
                batch@.len() > 0,
                sum_u32(degree@) + bins_total(bins@) + batch@.len() == m_before,
                forall|j: int| 0 <= j < batch@.len() ==> (#[trigger] batch@[j] as int) < n && cb <= init[batch@[j] as int],
                forall|w: int| 0 <= w < n ==> #[trigger] degree@[w] <= init[w],
                forall|b: int, j: int| 0 <= b < nbins && 0 <= j < bins@[b]@.len() ==> (#[trigger] bins@[b]@[j] as int) < n
                    && b <= init[bins@[b]@[j] as int] && b <= max_deg,
                forall|w: int| 0 <= w < n && #[trigger] peeled@[w] ==> core@[w] <= init[w] && (core@[w] as int) <= max_deg,
                forall|w: int| 0 <= w < n && !#[trigger] peeled@[w] ==> (exists|b: int| 0 <= b < nbins && bins@[b]@.contains(w as usize))
                    || batch@.skip(k as int).contains(w as usize),
                cb as int >= lo,
                max_deg <= 0xffff_ffff,
                forall|b: int| 0 <= b < nbins && b < lo ==> #[trigger] bins@[b]@.len() == 0,
                forall|w: int| 0 <= w < n && #[trigger] peeled@[w] ==> core@[w] as int >= lo,
            decreases batch@.len() - k,
        {
            let v = batch[k];
            if !peeled[v] {
                core.set(v, cb as u32);
                proof {
                    lemma_count_true_update(peeled@, v as int);
                }
                peeled.set(v, true);
                peeled_count = peeled_count + 1;
                proof {
                    assert forall|w: int| 0 <= w < n && !#[trigger] peeled@[w] implies (exists|b: int| 0 <= b < nbins && bins@[b]@.contains(w as usize))
                        || batch@.skip(k + 1).contains(w as usize) by {
                        if batch@.skip(k as int).contains(w as usize) {
                            let j = choose|j: int| 0 <= j < batch@.skip(k as int).len() && batch@.skip(k as int)[j] == w as usize;
                            assert(j != 0);
                            assert(batch@.skip(k + 1)[j - 1] == w as usize);
                        }
                    }
                }
                let nbrs = read_adjacency(&eb.vertices, &eb.block_counts, &eb.blocks, v, Ghost(n as int));
                let mut e: usize = 0;
                while e < nbrs.len()
                    invariant
                        n == eb.vertex_count,
                        forall|w: int| 0 <= w < n ==> (#[trigger] init[w] as int) <= max_deg,
                        init.len() == n,
                        cb <= max_deg,
                        max_deg < nbins,
                        bins@.len() == nbins,
                        degree@.len() == n,
                        peeled@.len() == n,
                        e <= nbrs@.len(),
                        forall|i: int| 0 <= i < nbrs@.len() ==> (#[trigger] nbrs@[i] as int) < n,
                        sum_u32(degree@) + bins_total(bins@) + batch@.len() == m_before,
                        forall|w: int| 0 <= w < n ==> #[trigger] degree@[w] <= init[w],
                        forall|b: int, j: int| 0 <= b < nbins && 0 <= j < bins@[b]@.len() ==> (#[trigger] bins@[b]@[j] as int) < n
                            && b <= init[bins@[b]@[j] as int] && b <= max_deg,
                        forall|w: int| 0 <= w < n && !#[trigger] peeled@[w] ==> (exists|b: int| 0 <= b < nbins && bins@[b]@.contains(w as usize))
                            || batch@.skip(k + 1).contains(w as usize),
                        cb as int >= lo,
                        max_deg <= 0xffff_ffff,
                        forall|b: int| 0 <= b < nbins && b < lo ==> #[trigger] bins@[b]@.len() == 0,
                    decreases nbrs@.len() - e,
                {
                    let nb = nbrs[e] as usize;
                    let ghost d0 = degree@;
                    let ghost b0 = bins@;
                    update_neighbor(nb, n, cb as u32, degree.as_mut_slice(), bins.as_mut_slice(), max_deg, peeled.as_slice());
                    proof {
                        let lowered = !peeled@[nb as int] && d0[nb as int] > cb as u32;
                        assert forall|b: int| 0 <= b < nbins && b < lo implies #[trigger] bins@[b]@.len() == 0 by {
                            assert(b0[b]@.len() == 0);
                            assert(!(lowered && b == d0[nb as int] - 1));
                            assert(bins@[b]@ == b0[b]@);
                        }
                        if lowered {
                            lemma_sum_update(d0, nb as int, (d0[nb as int] - 1) as u32);
                            let nd = d0[nb as int] - 1;
                            assert(nd <= max_deg);
                            lemma_bins_pointwise(b0, bins@, nd as int, 1);
                            assert forall|b: int, j: int| 0 <= b < nbins && 0 <= j < bins@[b]@.len() implies (#[trigger] bins@[b]@[j] as int) < n
                                && b <= init[bins@[b]@[j] as int] && b <= max_deg by {
                                if b == nd && j == b0[b]@.len() {
                                    assert(bins@[b]@[j] == nb);
                                } else {
                                    assert(bins@[b]@[j] == b0[b]@[j]);
                                }
                            }
                            assert forall|w: int| 0 <= w < n && !#[trigger] peeled@[w] implies (exists|b: int| 0 <= b < nbins && bins@[b]@.contains(w as usize))
                                || batch@.skip(k + 1).contains(w as usize) by {
                                if exists|b: int| 0 <= b < nbins && b0[b]@.contains(w as usize) {
                                    let b = choose|b: int| 0 <= b < nbins && b0[b]@.contains(w as usize);
                                    let j = choose|j: int| 0 <= j < b0[b]@.len() && b0[b]@[j] == w as usize;
                                    assert(bins@[b]@[j] == w as usize);
                                }
                            }
                        } else {
                            lemma_bins_equal(b0, bins@);
                            assert forall|b: int| 0 <= b < nbins implies #[trigger] bins@[b] == b0[b] || bins@[b]@ == b0[b]@ by {}
                            assert forall|b: int, j: int| 0 <= b < nbins && 0 <= j < bins@[b]@.len() implies (#[trigger] bins@[b]@[j] as int) < n
                                && b <= init[bins@[b]@[j] as int] && b <= max_deg by {
                                assert(bins@[b]@ == b0[b]@);
                            }
                            assert forall|w: int| 0 <= w < n && !#[trigger] peeled@[w] implies (exists|b: int| 0 <= b < nbins && bins@[b]@.contains(w as usize))
                                || batch@.skip(k + 1).contains(w as usize) by {
                                if exists|b: int| 0 <= b < nbins && b0[b]@.contains(w as usize) {
                                    let b = choose|b: int| 0 <= b < nbins && b0[b]@.contains(w as usize);
                                    assert(bins@[b]@ == b0[b]@);
                                }
                            }
                        }
                    }
                    e = e + 1;
                }
            }
            proof {
                assert forall|w: int| 0 <= w < n && !#[trigger] peeled@[w] implies (exists|b: int| 0 <= b < nbins && bins@[b]@.contains(w as usize))
                    || batch@.skip(k + 1).contains(w as usize) by {
                    if batch@.skip(k as int).contains(w as usize) && !batch@.skip(k + 1).contains(w as usize) {
                        let j = choose|j: int| 0 <= j < batch@.skip(k as int).len() && batch@.skip(k as int)[j] == w as usize;
                        if j > 0 {
                            assert(batch@.skip(k + 1)[j - 1] == w as usize);
                        }
                    }
                }
            }
            k = k + 1;
        }
        proof {
            assert forall|w: int| 0 <= w < n && !#[trigger] peeled@[w] implies exists|b: int| 0 <= b < nbins && bins@[b]@.contains(w as usize) by {
                assert(batch@.skip(k as int).len() == 0);
            }
            if peeled_count >= n {
                lemma_count_true_le(peeled@);
                lemma_count_true_full(peeled@);
            }
        }
    }
    proof {
        assert forall|w: int| 0 <= w < n implies #[trigger] core@[w] <= eb.out_adj(w).len() as u32 by {
            assert(peeled@[w]);
        }
        assert forall|w: int| 0 <= w < n implies #[trigger] core@[w] >= min_degree_upto(eb, eb.vertex_count as int) by {
            assert(peeled@[w]);
        }
    }
    core
}

} // verus!
