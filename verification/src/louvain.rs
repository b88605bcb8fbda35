//! Community bookkeeping for Louvain clustering: renumbering community
//! labels to `0..k` in order of first appearance.

use vstd::prelude::*;

verus! {

/// New labels for the communities met among the first `k` entries of `s`
/// (each community numbered in order of first appearance), and how many
/// there are.
pub open spec fn renumbering(s: Seq<usize>, k: int) -> (Map<usize, usize>, nat)
    decreases k,
{
    if k <= 0 {
        (Map::empty(), 0)
    } else {
        let (m, c) = renumbering(s, k - 1);
        if m.contains_key(s[k - 1]) {
            (m, c)
        } else {
            (m.insert(s[k - 1], c as usize), c + 1)
        }
    }
}

/// Some community has label `j`.
pub open spec fn label_used(m: Map<usize, usize>, j: int) -> bool {
    exists|x: usize| m.contains_key(x) && m[x] == j
}

/// The labels in the renumbering are distinct, below the count, each
/// given to a community that occurs among the first `k` entries, and the
/// count is at most `k`.
pub proof fn lemma_renumbering(s: Seq<usize>, k: int)
    requires
        0 <= k <= s.len(),
        s.len() <= usize::MAX,
    ensures
        ({
            let (m, c) = renumbering(s, k);
            &&& c <= k
            &&& forall|x: usize| #[trigger] m.contains_key(x) ==> (m[x] as int) < c
            &&& forall|x: usize, y: usize| #[trigger] m.contains_key(x) && #[trigger] m.contains_key(y) && m[x] == m[y] ==> x == y
            &&& forall|x: usize| #[trigger] m.contains_key(x) <==> exists|i: int| 0 <= i < k && s[i] == x
            &&& forall|j: int| 0 <= j < c ==> #[trigger] label_used(m, j)
        }),
    decreases k,
{
    if k > 0 {
        lemma_renumbering(s, k - 1);
        let (m0, c0) = renumbering(s, k - 1);
        let (m, c) = renumbering(s, k);
        assert forall|x: usize| #[trigger] m.contains_key(x) <==> exists|i: int| 0 <= i < k && s[i] == x by {
            if m.contains_key(x) && x != s[k - 1] {
                assert(m0.contains_key(x));
                let i = choose|i: int| 0 <= i < k - 1 && s[i] == x;
                assert(0 <= i < k && s[i] == x);
            }
            if exists|i: int| 0 <= i < k && s[i] == x {
                let i = choose|i: int| 0 <= i < k && s[i] == x;
                if i < k - 1 {
                    assert(m0.contains_key(x));
                }
            }
        }
        if m0.contains_key(s[k - 1]) {
            assert(m == m0 && c == c0);
        } else {
            assert(m == m0.insert(s[k - 1], c0 as usize) && c == c0 + 1);
            assert(c0 as usize == c0);
            assert forall|x: usize, y: usize| #[trigger] m.contains_key(x) && #[trigger] m.contains_key(y) && m[x] == m[y] implies x == y by {
                if x != s[k - 1] && y != s[k - 1] {
                    assert(m0.contains_key(x) && m0.contains_key(y));
                } else if x != s[k - 1] {
                    assert(m0.contains_key(x));
                } else if y != s[k - 1] {
                    assert(m0.contains_key(y));
                }
            }
            assert forall|j: int| 0 <= j < c implies #[trigger] label_used(m, j) by {
                if j < c0 {
                    assert(label_used(m0, j));
                    let x = choose|x: usize| m0.contains_key(x) && m0[x] == j;
                    assert(x != s[k - 1]);
                    assert(m.contains_key(x) && m[x] == j);
                } else {
                    assert(m.contains_key(s[k - 1]) && m[s[k - 1]] == j);
                }
            }
        }
    }
}

/// Relabels the communities `comm[v]` to `0..k` in order of first
/// appearance and returns `k`, the number of distinct communities.
pub fn renumber(comm: &mut [usize]) -> (k: usize)
    requires
        forall|v: int| 0 <= v < old(comm)@.len() ==> (#[trigger] old(comm)@[v] as int) < old(comm)@.len(),
    ensures
        final(comm)@.len() == old(comm)@.len(),
        k == renumbering(old(comm)@, old(comm)@.len() as int).1,
        forall|v: int| 0 <= v < final(comm)@.len() ==> #[trigger] final(comm)@[v]
            == renumbering(old(comm)@, old(comm)@.len() as int).0[old(comm)@[v]],
{
    let ghost s = comm@;
    let n = comm.len();
    let mut renum: Vec<usize> = vec![usize::MAX; n];
    let mut nc: usize = 0;
    let mut v: usize = 0;
    while v < n
        invariant
            n == s.len(),
            comm@.len() == n,
            forall|w: int| 0 <= w < n ==> (#[trigger] s[w] as int) < n,
            v <= n,
            renum@.len() == n,
            nc == renumbering(s, v as int).1,
            nc <= v,
            forall|c: int| 0 <= c < n ==> #[trigger] renum@[c] == if renumbering(s, v as int).0.contains_key(c as usize) {
                renumbering(s, v as int).0[c as usize]
            } else {
                usize::MAX
            },
            forall|w: int| 0 <= w < v ==> renumbering(s, v as int).0.contains_key(s[w]) && #[trigger] comm@[w] == renumbering(s, v as int).0[s[w]],
            forall|w: int| v <= w < n ==> #[trigger] comm@[w] == s[w],
        decreases n - v,
    {
        proof {
            lemma_renumbering(s, v as int);
        }
        let c = comm[v];
        if renum[c] == usize::MAX {
            proof {
                let (m, _) = renumbering(s, v as int);
                if m.contains_key(c) {
                    assert((m[c] as int) < nc);
                }
            }
            renum.set(c, nc);
            nc = nc + 1;
        }
        comm[v] = renum[c];
        v = v + 1;
    }
    nc
}

/// Renumbering keeps the partition: two vertices get the same new label
/// exactly when they had the same community, and every new label is below
/// the number of communities.
pub proof fn lemma_renumber_partition(s: Seq<usize>, a: int, b: int)
    requires
        s.len() <= usize::MAX,
        0 <= a < s.len(),
        0 <= b < s.len(),
    ensures
        ({
            let (m, c) = renumbering(s, s.len() as int);
            &&& (m[s[a]] == m[s[b]] <==> s[a] == s[b])
            &&& (m[s[a]] as int) < c
        }),
{
    lemma_renumbering(s, s.len() as int);
    let (m, c) = renumbering(s, s.len() as int);
    assert(m.contains_key(s[a]));
    assert(m.contains_key(s[b]));
}

} // verus!
