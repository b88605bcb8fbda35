//! Incremental connected components on top of a union-find forest with
//! path compression and union by rank.

use vstd::prelude::*;
use vstd::arithmetic::power2::{pow2, lemma_pow2_unfold, lemma_pow2_strictly_increases, lemma2_to64};

verus! {

// ---------------------------------------------------------------------------
// Mathematical model
// ---------------------------------------------------------------------------

/// Abstract state of a union-find structure: the representative of every
/// element, and the rank of every element.
pub struct UnionFindView {
    pub roots: Seq<int>,
    pub ranks: Seq<nat>,
}

/// The model is coherent: every representative is an element that
/// represents itself.
pub open spec fn view_ok(v: UnionFindView) -> bool {
    &&& v.ranks.len() == v.roots.len()
    &&& forall|i: int|
        0 <= i < v.roots.len() ==> {
            &&& 0 <= #[trigger] v.roots[i] < v.roots.len()
            &&& v.roots[v.roots[i]] == v.roots[i]
        }
}

/// Every element whose representative is `from` gets representative `to`.
pub open spec fn redirect(roots: Seq<int>, from: int, to: int) -> Seq<int> {
    roots.map_values(|r: int| if r == from { to } else { r })
}

/// The effect of `union(x, y)`: the set of lower rank is hung below the
/// other; on equal ranks the set of `y` goes below the set of `x`, whose
/// representative gains one rank.
pub open spec fn union_step(v: UnionFindView, x: int, y: int) -> UnionFindView {
    let rx = v.roots[x];
    let ry = v.roots[y];
    if rx == ry {
        v
    } else if v.ranks[rx] < v.ranks[ry] {
        UnionFindView { roots: redirect(v.roots, rx, ry), ranks: v.ranks }
    } else if v.ranks[rx] > v.ranks[ry] {
        UnionFindView { roots: redirect(v.roots, ry, rx), ranks: v.ranks }
    } else {
        UnionFindView { roots: redirect(v.roots, ry, rx), ranks: v.ranks.update(rx, v.ranks[rx] + 1) }
    }
}

/// Number of representatives among the first `k` elements.
pub open spec fn count_roots(roots: Seq<int>, k: int) -> nat
    decreases k,
{
    if k <= 0 {
        0
    } else {
        count_roots(roots, k - 1) + if roots[k - 1] == k - 1 { 1nat } else { 0nat }
    }
}

/// Number of disjoint sets.
pub open spec fn component_count(v: UnionFindView) -> nat {
    count_roots(v.roots, v.roots.len() as int)
}

/// Feeding a list of undirected edges to the structure, in order. An edge
/// takes part only when both endpoints are elements (below the element
/// count); others are skipped. Also returns how many edges joined two
/// different sets.
pub open spec fn apply_edges(v: UnionFindView, edges: Seq<(u64, u64)>) -> (UnionFindView, nat)
    decreases edges.len(),
{
    if edges.len() == 0 {
        (v, 0)
    } else {
        let (v1, m1) = apply_edges(v, edges.drop_last());
        let e = edges.last();
        let u = e.0 as int;
        let w = e.1 as int;
        let n = v1.roots.len() as int;
        if u < n && w < n {
            let merged = v1.roots[u] != v1.roots[w];
            (union_step(v1, u, w), m1 + if merged { 1nat } else { 0nat })
        } else {
            (v1, m1)
        }
    }
}

/// The elements before `k` that represent themselves.
pub open spec fn self_roots(roots: Seq<int>, k: int) -> Set<int> {
    Set::new(|x: int| 0 <= x < k && roots[x] == x)
}

proof fn lemma_count_self_roots(roots: Seq<int>, k: int)
    requires
        k >= 0,
    ensures
        self_roots(roots, k).finite(),
        self_roots(roots, k).len() == count_roots(roots, k),
    decreases k,
{
    if k == 0 {
        assert(self_roots(roots, k) =~= Set::<int>::empty());
    } else {
        lemma_count_self_roots(roots, k - 1);
        if roots[k - 1] == k - 1 {
            assert(self_roots(roots, k) =~= self_roots(roots, k - 1).insert(k - 1));
        } else {
            assert(self_roots(roots, k) =~= self_roots(roots, k - 1));
        }
    }
}

/// The number of sets is the number of distinct representatives.
pub proof fn lemma_count_distinct_roots(v: UnionFindView)
    requires
        view_ok(v),
    ensures
        v.roots.to_set().finite(),
        component_count(v) == v.roots.to_set().len(),
{
    let n = v.roots.len() as int;
    lemma_count_self_roots(v.roots, n);
    assert forall|x: int| #[trigger] v.roots.to_set().contains(x) <==> self_roots(v.roots, n).contains(x) by {
        if v.roots.to_set().contains(x) {
            let i = choose|i: int| 0 <= i < n && v.roots[i] == x;
            assert(0 <= v.roots[i] < n && v.roots[v.roots[i]] == v.roots[i]);
        }
        if self_roots(v.roots, n).contains(x) {
            assert(v.roots[x] == x);
            assert(v.roots.contains(x));
        }
    }
    assert(v.roots.to_set() =~= self_roots(v.roots, n));
}

/// Feeding two lists of edges one after the other is feeding their
/// concatenation: the same structure, and the merges add up.
pub proof fn lemma_apply_concat(v: UnionFindView, a: Seq<(u64, u64)>, b: Seq<(u64, u64)>)
    ensures
        apply_edges(v, a + b).0 == apply_edges(apply_edges(v, a).0, b).0,
        apply_edges(v, a + b).1 == apply_edges(v, a).1 + apply_edges(apply_edges(v, a).0, b).1,
    decreases b.len(),
{
    if b.len() == 0 {
        assert(a + b =~= a);
    } else {
        assert((a + b).drop_last() =~= a + b.drop_last());
        assert((a + b).last() == b.last());
        lemma_apply_concat(v, a, b.drop_last());
    }
}

// ---------------------------------------------------------------------------
// Forest invariants
// ---------------------------------------------------------------------------

/// Parents in range, ranks bounded, ranks strictly increasing towards the root.
pub open spec fn forest_ok(parent: Seq<u32>, rank: Seq<u32>) -> bool {
    &&& parent.len() == rank.len()
    &&& forall|i: int| #![trigger parent[i]] 0 <= i < parent.len() ==> (parent[i] as int) < parent.len()
    &&& forall|i: int| #![trigger rank[i]] 0 <= i < rank.len() ==> rank[i] <= 32
    &&& forall|i: int|
        #![trigger parent[i]]
        0 <= i < parent.len() && parent[i] != i ==> rank[i] < rank[parent[i] as int]
}

/// Representative of `x`, found by following parent links.
pub open spec fn root_of(parent: Seq<u32>, rank: Seq<u32>, x: int) -> int
    decreases 33 - rank[x],
    when forest_ok(parent, rank) && 0 <= x < parent.len()
{
    if parent[x] == x {
        x
    } else {
        root_of(parent, rank, parent[x] as int)
    }
}

/// Contribution `2^rank` of a root; nothing for other elements.
spec fn root_term(parent: Seq<u32>, rank: Seq<u32>, i: int) -> nat {
    if parent[i] == i {
        pow2(rank[i] as nat)
    } else {
        0
    }
}

/// Sum of the root contributions over the first `k` elements. It never
/// exceeds the element count, which bounds every rank.
spec fn root_weight(parent: Seq<u32>, rank: Seq<u32>, k: int) -> nat
    decreases k,
{
    if k <= 0 {
        0
    } else {
        root_weight(parent, rank, k - 1) + root_term(parent, rank, k - 1)
    }
}

proof fn lemma_root_props(parent: Seq<u32>, rank: Seq<u32>, x: int)
    requires
        forest_ok(parent, rank),
        0 <= x < parent.len(),
    ensures
        0 <= root_of(parent, rank, x) < parent.len(),
        parent[root_of(parent, rank, x)] == root_of(parent, rank, x),
        rank[root_of(parent, rank, x)] >= rank[x],
        parent[x] != x ==> rank[root_of(parent, rank, x)] > rank[x],
        parent[x] != x ==> root_of(parent, rank, x) != x,
        parent[x] != x ==> root_of(parent, rank, x) == root_of(parent, rank, parent[x] as int),
    decreases 33 - rank[x],
{
    if parent[x] != x {
        lemma_root_props(parent, rank, parent[x] as int);
    }
}

proof fn lemma_weight_point_update(
    p1: Seq<u32>,
    r1: Seq<u32>,
    p2: Seq<u32>,
    r2: Seq<u32>,
    j: int,
    k: int,
)
    requires
        p1.len() == r1.len() == p2.len() == r2.len(),
        0 <= j < p1.len(),
        0 <= k <= p1.len(),
        forall|i: int| 0 <= i < p1.len() && i != j ==> p1[i] == p2[i] && r1[i] == r2[i],
    ensures
        j < k ==> root_weight(p2, r2, k) + root_term(p1, r1, j) == root_weight(p1, r1, k)
            + root_term(p2, r2, j),
        j >= k ==> root_weight(p2, r2, k) == root_weight(p1, r1, k),
    decreases k,
{
    if k > 0 {
        lemma_weight_point_update(p1, r1, p2, r2, j, k - 1);
    }
}

proof fn lemma_weight_two_terms(parent: Seq<u32>, rank: Seq<u32>, a: int, b: int, k: int)
    requires
        parent.len() == rank.len(),
        0 <= a < k <= parent.len(),
        0 <= b < k,
        a != b,
    ensures
        root_term(parent, rank, a) + root_term(parent, rank, b) <= root_weight(parent, rank, k),
    decreases k,
{
    if a == k - 1 {
        lemma_weight_one_term(parent, rank, b, k - 1);
    } else if b == k - 1 {
        lemma_weight_one_term(parent, rank, a, k - 1);
    } else {
        lemma_weight_two_terms(parent, rank, a, b, k - 1);
    }
}

proof fn lemma_weight_one_term(parent: Seq<u32>, rank: Seq<u32>, a: int, k: int)
    requires
        parent.len() == rank.len(),
        0 <= a < k <= parent.len(),
    ensures
        root_term(parent, rank, a) <= root_weight(parent, rank, k),
    decreases k,
{
    if a < k - 1 {
        lemma_weight_one_term(parent, rank, a, k - 1);
    }
}

/// Well-formed forest whose root weights stay within the element count.
spec fn uf_ok(parent: Seq<u32>, rank: Seq<u32>) -> bool {
    &&& forest_ok(parent, rank)
    &&& parent.len() <= 0x1_0000_0000
    &&& root_weight(parent, rank, parent.len() as int) <= parent.len()
}

/// The view computed from a forest.
pub open spec fn forest_view(parent: Seq<u32>, rank: Seq<u32>) -> UnionFindView {
    UnionFindView {
        roots: Seq::new(parent.len(), |i: int| root_of(parent, rank, i)),
        ranks: Seq::new(rank.len(), |i: int| rank[i] as nat),
    }
}

proof fn lemma_forest_view_ok(parent: Seq<u32>, rank: Seq<u32>)
    requires
        forest_ok(parent, rank),
    ensures
        view_ok(forest_view(parent, rank)),
        forall|i: int|
            0 <= i < parent.len() ==> (#[trigger] forest_view(parent, rank).roots[i] == i
                <==> parent[i] == i),
{
    let v = forest_view(parent, rank);
    assert forall|i: int| 0 <= i < v.roots.len() implies {
        &&& 0 <= #[trigger] v.roots[i] < v.roots.len()
        &&& v.roots[v.roots[i]] == v.roots[i]
    } by {
        lemma_root_props(parent, rank, i);
    }
    assert forall|i: int| 0 <= i < parent.len() implies (#[trigger] v.roots[i] == i <==> parent[i]
        == i) by {
        lemma_root_props(parent, rank, i);
    }
}

/// Path compression: pointing a non-root element straight at its root keeps
/// every representative, every root and the root weight.
proof fn lemma_compress(parent: Seq<u32>, rank: Seq<u32>, x: int, r: u32)
    requires
        forest_ok(parent, rank),
        0 <= x < parent.len(),
        parent[x] != x,
        r as int == root_of(parent, rank, x),
    ensures
        forest_ok(parent.update(x, r), rank),
        forall|i: int|
            0 <= i < parent.len() ==> #[trigger] root_of(parent.update(x, r), rank, i) == root_of(
                parent,
                rank,
                i,
            ),
        root_weight(parent.update(x, r), rank, parent.len() as int) == root_weight(
            parent,
            rank,
            parent.len() as int,
        ),
{
    let p2 = parent.update(x, r);
    lemma_root_props(parent, rank, x);
    assert forall|i: int| 0 <= i < p2.len() implies (#[trigger] p2[i] as int) < p2.len() by {}
    assert forall|i: int| 0 <= i < p2.len() && #[trigger] p2[i] != i implies rank[i] < rank[p2[i] as int] by {}
    assert forall|i: int| 0 <= i < parent.len() implies #[trigger] root_of(p2, rank, i) == root_of(
        parent,
        rank,
        i,
    ) by {
        lemma_compress_root(parent, rank, x, r, i);
    }
    lemma_weight_point_update(parent, rank, p2, rank, x, parent.len() as int);
}

proof fn lemma_compress_root(parent: Seq<u32>, rank: Seq<u32>, x: int, r: u32, i: int)
    requires
        forest_ok(parent, rank),
        forest_ok(parent.update(x, r), rank),
        0 <= x < parent.len(),
        0 <= i < parent.len(),
        parent[x] != x,
        r as int == root_of(parent, rank, x),
    ensures
        root_of(parent.update(x, r), rank, i) == root_of(parent, rank, i),
    decreases 33 - rank[i],
{
    let p2 = parent.update(x, r);
    lemma_root_props(parent, rank, x);
    lemma_root_props(parent, rank, i);
    if i == x {
        assert(p2[r as int] == r);
        assert(root_of(p2, rank, r as int) == r);
    } else if parent[i] != i {
        lemma_compress_root(parent, rank, x, r, parent[i] as int);
    }
}

/// Linking root `a` below root `b` (raising the rank of `b` by `bump`).
proof fn lemma_link(parent: Seq<u32>, rank: Seq<u32>, r2: Seq<u32>, a: int, bu: u32, bump: bool)
    requires
        bump ==> r2 == rank.update(bu as int, (rank[bu as int] + 1) as u32),
        !bump ==> r2 == rank,
        uf_ok(parent, rank),
        0 <= a < parent.len(),
        (bu as int) < parent.len(),
        a != bu,
        parent[a] == a,
        parent[bu as int] == bu,
        bump ==> rank[a] == rank[bu as int],
        !bump ==> rank[a] < rank[bu as int],
    ensures
        ({
            let b = bu as int;
            let p2 = parent.update(a, bu);
            &&& uf_ok(p2, r2)
            &&& forall|i: int|
                0 <= i < parent.len() ==> #[trigger] root_of(p2, r2, i) == if root_of(
                    parent,
                    rank,
                    i,
                ) == a {
                    b
                } else {
                    root_of(parent, rank, i)
                }
        }),
{
    let b = bu as int;
    let n = parent.len() as int;
    let p2 = parent.update(a, bu);
    if bump {
        lemma_weight_two_terms(parent, rank, a, b, n);
        assert(rank[b] + 1 <= 32) by {
            lemma_pow2_unfold((rank[b] + 1) as nat);
            lemma2_to64();
            if rank[b] + 1 > 32 {
                lemma_pow2_strictly_increases(32, (rank[b] + 1) as nat);
            }
        }
    }
    assert forall|i: int| 0 <= i < p2.len() implies (#[trigger] p2[i] as int) < p2.len() by {}
    assert forall|i: int| 0 <= i < r2.len() implies #[trigger] r2[i] <= 32 by {}
    assert forall|i: int| 0 <= i < p2.len() && #[trigger] p2[i] != i implies r2[i] < r2[p2[i] as int] by {
        if i != a {
            assert(parent[i] == p2[i]);
            assert(rank[i] < rank[parent[i] as int]);
        }
    }
    assert(forest_ok(p2, r2));
    // weight: first the parent change at a, then the rank change at b
    lemma_weight_point_update(parent, rank, p2, rank, a, n);
    if bump {
        lemma_weight_point_update(p2, rank, p2, r2, b, n);
        lemma_pow2_unfold((rank[b] + 1) as nat);
    } else {
        lemma_weight_one_term(parent, rank, a, n);
    }
    assert forall|i: int| 0 <= i < parent.len() implies #[trigger] root_of(p2, r2, i) == if root_of(
        parent,
        rank,
        i,
    ) == a {
        b
    } else {
        root_of(parent, rank, i)
    } by {
        lemma_link_root(parent, rank, p2, r2, a, b, i);
    }
}

proof fn lemma_link_root(
    parent: Seq<u32>,
    rank: Seq<u32>,
    p2: Seq<u32>,
    r2: Seq<u32>,
    a: int,
    b: int,
    i: int,
)
    requires
        forest_ok(parent, rank),
        forest_ok(p2, r2),
        p2 == parent.update(a, b as u32),
        0 <= a < parent.len(),
        0 <= b < parent.len(),
        a != b,
        parent[a] == a,
        parent[b] == b,
        0 <= i < parent.len(),
    ensures
        root_of(p2, r2, i) == if root_of(parent, rank, i) == a {
            b
        } else {
            root_of(parent, rank, i)
        },
    decreases 33 - rank[i],
{
    lemma_root_props(parent, rank, i);
    if i == a {
        assert(p2[b] == b);
        assert(root_of(p2, r2, b) == b);
    } else if parent[i] != i {
        lemma_link_root(parent, rank, p2, r2, a, b, parent[i] as int);
    }
}

proof fn lemma_redirect_count(roots: Seq<int>, a: int, b: int, k: int)
    requires
        view_ok(UnionFindView { roots, ranks: Seq::new(roots.len(), |i: int| 0nat) }),
        0 <= a < roots.len(),
        0 <= b < roots.len(),
        a != b,
        roots[a] == a,
        roots[b] == b,
        0 <= k <= roots.len(),
    ensures
        count_roots(redirect(roots, a, b), k) + (if a < k { 1nat } else { 0nat }) == count_roots(
            roots,
            k,
        ),
    decreases k,
{
    if k > 0 {
        lemma_redirect_count(roots, a, b, k - 1);
        let i = k - 1;
        let r2 = redirect(roots, a, b);
        assert(0 <= roots[i] < roots.len());
        assert(roots[roots[i]] == roots[i]);
    }
}

/// Merging two different sets lowers the number of sets by exactly one;
/// merging a set with itself changes nothing.
pub proof fn lemma_union_step_count(v: UnionFindView, x: int, y: int)
    requires
        view_ok(v),
        0 <= x < v.roots.len(),
        0 <= y < v.roots.len(),
    ensures
        view_ok(union_step(v, x, y)),
        union_step(v, x, y).roots.len() == v.roots.len(),
        component_count(union_step(v, x, y)) + (if v.roots[x] != v.roots[y] {
            1nat
        } else {
            0nat
        }) == component_count(v),
        union_step(v, x, y).roots[x] == union_step(v, x, y).roots[y],
{
    let rx = v.roots[x];
    let ry = v.roots[y];
    let n = v.roots.len() as int;
    let w = union_step(v, x, y);
    if rx != ry {
        let (a, b) = if v.ranks[rx] < v.ranks[ry] {
            (rx, ry)
        } else {
            (ry, rx)
        };
        assert(view_ok(UnionFindView { roots: v.roots, ranks: Seq::new(v.roots.len(), |i: int| 0nat) }));
        lemma_redirect_count(v.roots, a, b, n);
        assert(w.roots == redirect(v.roots, a, b));
        assert forall|i: int| 0 <= i < w.roots.len() implies {
            &&& 0 <= #[trigger] w.roots[i] < w.roots.len()
            &&& w.roots[w.roots[i]] == w.roots[i]
        } by {
            assert(0 <= v.roots[i] < n);
            assert(v.roots[v.roots[i]] == v.roots[i]);
        }
    }
}

/// Feeding edges never changes the element count, keeps the model coherent,
/// and every joining edge lowers the number of sets by one.
pub proof fn lemma_apply_edges(v: UnionFindView, edges: Seq<(u64, u64)>)
    requires
        view_ok(v),
    ensures
        view_ok(apply_edges(v, edges).0),
        apply_edges(v, edges).0.roots.len() == v.roots.len(),
        component_count(apply_edges(v, edges).0) + apply_edges(v, edges).1 == component_count(v),
    decreases edges.len(),
{
    if edges.len() > 0 {
        lemma_apply_edges(v, edges.drop_last());
        let (v1, m1) = apply_edges(v, edges.drop_last());
        let e = edges.last();
        let u = e.0 as int;
        let w = e.1 as int;
        let n = v1.roots.len() as int;
        if u < n && w < n {
            lemma_union_step_count(v1, u, w);
        }
    }
}

// ---------------------------------------------------------------------------
// Union-find
// ---------------------------------------------------------------------------

/// Union-find (disjoint sets) over the elements `0..n`, with path compression
/// and union by rank.
pub struct UnionFind {
    parent: Vec<u32>,
    rank: Vec<u32>,
}

impl View for UnionFind {
    type V = UnionFindView;

    closed spec fn view(&self) -> UnionFindView {
        forest_view(self.parent@, self.rank@)
    }
}

impl UnionFind {
    /// The forest is well formed.
    pub closed spec fn wf(&self) -> bool {
        uf_ok(self.parent@, self.rank@)
    }

    pub proof fn lemma_wf_view(&self)
        requires
            self.wf(),
        ensures
            view_ok(self@),
            self@.roots.len() <= 0x1_0000_0000,
    {
        lemma_forest_view_ok(self.parent@, self.rank@);
    }

    /// Every element in a set of its own, with rank 0.
    pub fn new(vertex_count: usize) -> (r: Self)
        requires
            vertex_count <= 0x1_0000_0000,
        ensures
            r.wf(),
            r@.roots.len() == vertex_count,
            r@.ranks.len() == vertex_count,
            view_ok(r@),
            forall|i: int| 0 <= i < vertex_count ==> #[trigger] r@.roots[i] == i && r@.ranks[i] == 0,
    {
        let mut parent: Vec<u32> = Vec::with_capacity(vertex_count);
        let mut rank: Vec<u32> = Vec::new();
        let mut i: usize = 0;
        while i < vertex_count
            invariant
                i <= vertex_count <= 0x1_0000_0000,
                parent@.len() == i,
                rank@.len() == i,
                forall|j: int| 0 <= j < i ==> #[trigger] parent@[j] == j,
                forall|j: int| 0 <= j < i ==> #[trigger] rank@[j] == 0,
                root_weight(parent@, rank@, i as int) == i,
            decreases vertex_count - i,
        {
            let ghost p0 = parent@;
            let ghost r0 = rank@;
            parent.push(i as u32);
            rank.push(0);
            proof {
                lemma_weight_prefix(p0, r0, parent@, rank@, i as int);
                vstd::arithmetic::power2::lemma2_to64();
            }
            i = i + 1;
        }
        let r = UnionFind { parent, rank };
        proof {
            assert(forest_ok(r.parent@, r.rank@));
            assert forall|j: int| 0 <= j < vertex_count implies #[trigger] r@.roots[j] == j
                && r@.ranks[j] == 0 by {}
        }
        r
    }

    /// Representative of `x`; compresses the path from `x` to its root.
    pub fn find(&mut self, x: u32) -> (r: u32)
        requires
            old(self).wf(),
            (x as int) < old(self)@.roots.len(),
        ensures
            final(self).wf(),
            final(self)@ == old(self)@,
            r as int == old(self)@.roots[x as int],
        decreases 33 - old(self)@.ranks[x as int],
    {
        proof {
            lemma_root_props(self.parent@, self.rank@, x as int);
        }
        let p = self.parent[x as usize];
        if p != x {
            let r = self.find(p);
            proof {
                lemma_root_props(self.parent@, self.rank@, x as int);
                assert(self@.roots[x as int] == old(self)@.roots[x as int]);
                assert(self@.roots[p as int] == old(self)@.roots[p as int]);
                lemma_forest_view_ok(self.parent@, self.rank@);
                assert(self.parent@[x as int] != x);
                lemma_compress(self.parent@, self.rank@, x as int, r);
            }
            let ghost before = self.parent@;
            self.parent.set(x as usize, r);
            proof {
                assert(self.parent@ == before.update(x as int, r));
                assert(self@.roots =~= old(self)@.roots);
                assert(self@.ranks =~= old(self)@.ranks);
            }
        }
        self.parent[x as usize]
    }

    /// Joins the sets of `x` and `y`; tells whether they were different.
    pub fn union(&mut self, x: u32, y: u32) -> (merged: bool)
        requires
            old(self).wf(),
            (x as int) < old(self)@.roots.len(),
            (y as int) < old(self)@.roots.len(),
        ensures
            final(self).wf(),
            final(self)@ == union_step(old(self)@, x as int, y as int),
            merged == (old(self)@.roots[x as int] != old(self)@.roots[y as int]),
            final(self)@.roots[x as int] == final(self)@.roots[y as int],
            component_count(final(self)@) + (if merged { 1nat } else { 0nat }) == component_count(old(self)@),
    {
        proof {
            self.lemma_wf_view();
            lemma_union_step_count(self@, x as int, y as int);
        }
        let root_x = self.find(x);
        let root_y = self.find(y);
        if root_x == root_y {
            return false;
        }
        let ghost v = self@;
        let ghost p0 = self.parent@;
        let ghost r0 = self.rank@;
        proof {
            lemma_forest_view_ok(p0, r0);
            lemma_root_props(p0, r0, x as int);
            lemma_root_props(p0, r0, y as int);
        }
        let rank_x = self.rank[root_x as usize];
        let rank_y = self.rank[root_y as usize];
        if rank_x < rank_y {
            proof {
                lemma_link(p0, r0, r0, root_x as int, root_y, false);
            }
            self.parent.set(root_x as usize, root_y);
            proof {
                assert(self@.roots =~= redirect(v.roots, root_x as int, root_y as int));
                assert(self@.ranks =~= v.ranks);
            }
        } else if rank_x > rank_y {
            proof {
                lemma_link(p0, r0, r0, root_y as int, root_x, false);
            }
            self.parent.set(root_y as usize, root_x);
            proof {
                assert(self@.roots =~= redirect(v.roots, root_y as int, root_x as int));
                assert(self@.ranks =~= v.ranks);
            }
        } else {
            proof {
                lemma_link(p0, r0, r0.update(root_x as int, (r0[root_x as int] + 1) as u32), root_y as int, root_x, true);
            }
            self.parent.set(root_y as usize, root_x);
            self.rank.set(root_x as usize, rank_x + 1);
            proof {
                assert(self@.roots =~= redirect(v.roots, root_y as int, root_x as int));
                assert(self@.ranks =~= v.ranks.update(root_x as int, v.ranks[root_x as int] + 1));
            }
        }
        true
    }

    /// An independent copy of the structure.
    pub fn copy(&self) -> (r: Self)
        requires
            self.wf(),
        ensures
            r.wf(),
            r@ == self@,
    {
        let parent = self.parent.clone();
        let rank = self.rank.clone();
        let r = UnionFind { parent, rank };
        proof {
            assert(r.parent@ =~= self.parent@);
            assert(r.rank@ =~= self.rank@);
        }
        r
    }

    /// Number of disjoint sets (compresses every path on the way).
    pub fn count_components(&mut self) -> (c: usize)
        requires
            old(self).wf(),
        ensures
            final(self).wf(),
            final(self)@ == old(self)@,
            c == component_count(old(self)@),
    {
        let n = self.parent.len();
        let mut count: usize = 0;
        let mut v: usize = 0;
        while v < n
            invariant
                self.wf(),
                self@ == old(self)@,
                n == self@.roots.len(),
                n <= 0x1_0000_0000,
                v <= n,
                count <= v,
                count == count_roots(self@.roots, v as int),
            decreases n - v,
        {
            let r = self.find(v as u32);
            if r == v as u32 {
                count = count + 1;
            }
            v = v + 1;
        }
        count
    }

    /// Element count.
    pub fn len(&self) -> (n: usize)
        requires
            self.wf(),
        ensures
            n == self@.roots.len(),
    {
        self.parent.len()
    }
}

proof fn lemma_weight_prefix(p0: Seq<u32>, r0: Seq<u32>, p1: Seq<u32>, r1: Seq<u32>, k: int)
    requires
        p0.len() == r0.len() == k,
        p1 == p0.push(k as u32),
        r1 == r0.push(0),
        k < 0x1_0000_0000,
    ensures
        root_weight(p1, r1, k + 1) == root_weight(p0, r0, k) + 1,
{
    lemma_weight_same_prefix(p0, r0, p1, r1, k);
    vstd::arithmetic::power2::lemma2_to64();
}

proof fn lemma_weight_same_prefix(p0: Seq<u32>, r0: Seq<u32>, p1: Seq<u32>, r1: Seq<u32>, k: int)
    requires
        0 <= k <= p0.len(),
        k <= p1.len(),
        p0.len() == r0.len(),
        p1.len() == r1.len(),
        forall|i: int| 0 <= i < k ==> p0[i] == p1[i] && r0[i] == r1[i],
    ensures
        root_weight(p1, r1, k) == root_weight(p0, r0, k),
    decreases k,
{
    if k > 0 {
        lemma_weight_same_prefix(p0, r0, p1, r1, k - 1);
    }
}

// ---------------------------------------------------------------------------
// Incremental connected components
// ---------------------------------------------------------------------------

/// Connected components of an undirected graph, kept up to date as edges
/// arrive.
pub struct IncrementalCC {
    uf: UnionFind,
}

impl View for IncrementalCC {
    type V = UnionFindView;

    closed spec fn view(&self) -> UnionFindView {
        self.uf@
    }
}

impl IncrementalCC {
    pub closed spec fn wf(&self) -> bool {
        self.uf.wf()
    }

    /// Every vertex `0..vertex_count` in a component of its own.
    pub fn new(vertex_count: usize) -> (r: Self)
        requires
            vertex_count <= 0x1_0000_0000,
        ensures
            r.wf(),
            r@.roots.len() == vertex_count,
            r@.ranks.len() == vertex_count,
            view_ok(r@),
            forall|i: int| 0 <= i < vertex_count ==> #[trigger] r@.roots[i] == i && r@.ranks[i] == 0,
            component_count(r@) == vertex_count,
    {
        let uf = UnionFind::new(vertex_count);
        let r = IncrementalCC { uf };
        proof {
            lemma_count_identity(r@.roots, vertex_count as int);
        }
        r
    }

    /// Takes every edge into account (edges with an endpoint out of range
    /// are skipped).
    pub fn compute_full(&mut self, edges: &[(u64, u64)])
        requires
            old(self).wf(),
        ensures
            final(self).wf(),
            final(self)@ == apply_edges(old(self)@, edges@).0,
    {
        let _ = self.update_incremental(edges);
    }

    /// Takes the new edges into account; returns how many of them joined two
    /// different components.
    pub fn update_incremental(&mut self, new_edges: &[(u64, u64)]) -> (merged_count: usize)
        requires
            old(self).wf(),
        ensures
            final(self).wf(),
            final(self)@ == apply_edges(old(self)@, new_edges@).0,
            merged_count == apply_edges(old(self)@, new_edges@).1,
            component_count(final(self)@) + merged_count == component_count(old(self)@),
    {
        let mut merged_count: usize = 0;
        let n = self.uf.len();
        let mut k: usize = 0;
        proof {
            self.uf.lemma_wf_view();
        }
        while k < new_edges.len()
            invariant
                self.wf(),
                view_ok(old(self)@),
                n == self@.roots.len(),
                n <= 0x1_0000_0000,
                k <= new_edges@.len(),
                (self@, merged_count as nat) == apply_edges(old(self)@, new_edges@.take(k as int)),
                merged_count <= k,
            decreases new_edges@.len() - k,
        {
            let (u, v) = new_edges[k];
            let in_range = u < n as u64 && v < n as u64;
            proof {
                assert(new_edges@.take(k as int + 1).drop_last() =~= new_edges@.take(k as int));
                self.uf.lemma_wf_view();
                lemma_apply_edges(old(self)@, new_edges@.take(k as int));
            }
            if in_range {
                if self.uf.union(u as u32, v as u32) {
                    merged_count = merged_count + 1;
                }
            }
            k = k + 1;
        }
        proof {
            assert(new_edges@.take(k as int) =~= new_edges@);
            lemma_forest_view_ok(self.uf.parent@, self.uf.rank@);
            lemma_apply_edges(old(self)@, new_edges@);
        }
        merged_count
    }

    /// Current number of components.
    pub fn count_components(&mut self) -> (c: usize)
        requires
            old(self).wf(),
        ensures
            final(self).wf(),
            final(self)@ == old(self)@,
            c == component_count(old(self)@),
    {
        self.uf.count_components()
    }
}

proof fn lemma_count_identity(roots: Seq<int>, k: int)
    requires
        0 <= k <= roots.len(),
        forall|i: int| 0 <= i < roots.len() ==> #[trigger] roots[i] == i,
    ensures
        count_roots(roots, k) == k,
    decreases k,
{
    if k > 0 {
        lemma_count_identity(roots, k - 1);
    }
}

} // verus!
