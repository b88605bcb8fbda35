//! Flat EdgeBlock storage: the layout shared by the forward (out-edge) and
//! reverse (in-edge) halves of a [`crate::gpu_edge_block::GPUEdgeBlockGraph`].
//!
//! A store is three arrays. `blocks` is a flat `u32` array cut into blocks of
//! 34 words: `[owner, edge_count, slot_0 .. slot_31]`. For every vertex `v`,
//! `first[v]` is the index of its first block and `count[v]` how many blocks
//! are read for it, starting there.

use vstd::prelude::*;

verus! {

/// Words per block: owner, edge count and 32 slots.
pub open spec fn block_words() -> int {
    34
}

/// Number of whole blocks in a flat array.
pub open spec fn num_blocks(blocks: Seq<u32>) -> int {
    (blocks.len() / 34) as int
}

/// Owner word of block `b`.
pub open spec fn block_owner(blocks: Seq<u32>, b: int) -> int {
    blocks[b * 34] as int
}

/// Edge-count word of block `b`.
pub open spec fn block_len(blocks: Seq<u32>, b: int) -> int {
    blocks[b * 34 + 1] as int
}

/// Slot `j` of block `b`.
pub open spec fn block_slot(blocks: Seq<u32>, b: int, j: int) -> u32 {
    blocks[b * 34 + 2 + j]
}

/// The neighbours stored in block `b`: its first `edge_count` slots.
pub open spec fn block_entries(blocks: Seq<u32>, b: int) -> Seq<u32> {
    blocks.subrange(b * 34 + 2, b * 34 + 2 + block_len(blocks, b))
}

/// Neighbours stored in the `count` blocks starting at block `first`, in order.
pub open spec fn run_entries(blocks: Seq<u32>, first: int, count: int) -> Seq<u32>
    decreases count,
{
    if count <= 0 {
        Seq::empty()
    } else {
        run_entries(blocks, first, count - 1) + block_entries(blocks, first + count - 1)
    }
}

/// The neighbours read for vertex `v`.
pub open spec fn adjacency(first: Seq<u32>, count: Seq<u32>, blocks: Seq<u32>, v: int) -> Seq<u32> {
    if count[v] == 0 {
        Seq::empty()
    } else {
        run_entries(blocks, first[v] as int, count[v] as int)
    }
}

/// Layout invariant of a store for `n` vertices: whole blocks, edge counts
/// within capacity, every vertex's blocks inside the array, every stored
/// neighbour a vertex index, and block numbers that fit a `u32`.
pub open spec fn store_ok(first: Seq<u32>, count: Seq<u32>, blocks: Seq<u32>, n: int) -> bool {
    &&& first.len() == n
    &&& count.len() == n
    &&& blocks.len() % 34 == 0
    &&& num_blocks(blocks) < 0xffff_ffff
    &&& forall|b: int| 0 <= b < num_blocks(blocks) ==> #[trigger] block_len(blocks, b) <= 32
    &&& forall|b: int, j: int|
        0 <= b < num_blocks(blocks) && 0 <= j < block_len(blocks, b) ==> (#[trigger] block_slot(
            blocks,
            b,
            j,
        ) as int) < n
    &&& forall|v: int|
        0 <= v < n && #[trigger] count[v] > 0 ==> first[v] + count[v] <= num_blocks(blocks)
}

/// Every block read for a vertex is owned by that vertex. Then the blocks
/// read for different vertices are disjoint.
pub open spec fn runs_owned(first: Seq<u32>, count: Seq<u32>, blocks: Seq<u32>, n: int) -> bool {
    forall|v: int, b: int|
        0 <= v < n && first[v] <= b < first[v] + count[v] ==> #[trigger] block_owner(blocks, b)
            == v && #[trigger] count[v] > 0
}

/// A fresh block owned by `owner` holding the single neighbour `neighbor`.
pub open spec fn fresh_block(owner: u32, neighbor: u32) -> Seq<u32> {
    seq![owner, 1u32, neighbor] + Seq::new(31, |i: int| 0u32)
}

/// The words of the `count` blocks starting at block `first`.
pub open spec fn run_words(blocks: Seq<u32>, first: int, count: int) -> Seq<u32> {
    blocks.subrange(first * 34, (first + count) * 34)
}

/// Appending to `v` moves its blocks: its last block is full and does not
/// end the array.
pub open spec fn moves(first: Seq<u32>, count: Seq<u32>, blocks: Seq<u32>, v: int) -> bool {
    count[v] > 0 && block_len(blocks, first[v] + count[v] - 1) >= 32 && first[v] + count[v] != num_blocks(blocks)
}

/// Block numbers stay below `u32::MAX` after appending to `v`: one more
/// block, and, when the blocks of `v` move, a copy of them.
pub open spec fn room_to_append(first: Seq<u32>, count: Seq<u32>, blocks: Seq<u32>, v: int) -> bool {
    &&& num_blocks(blocks) + 1 < 0xffff_ffff
    &&& moves(first, count, blocks, v) ==> num_blocks(blocks) + count[v] + 1 < 0xffff_ffff
}

/// Appending neighbour `nb` to vertex `v`: its first block when it has
/// none; else into the block it reads last when that block has room; else a
/// fresh block right after its blocks: at the end of the array when they
/// end it, or else after a copy of them moved to the end (the old blocks
/// are left unread).
pub open spec fn append_spec(first: Seq<u32>, count: Seq<u32>, blocks: Seq<u32>, v: int, nb: u32) -> (
    Seq<u32>,
    Seq<u32>,
    Seq<u32>,
) {
    if count[v] == 0 {
        (
            first.update(v, num_blocks(blocks) as u32),
            count.update(v, 1),
            blocks + fresh_block(v as u32, nb),
        )
    } else {
        let last = first[v] + count[v] - 1;
        let ec = block_len(blocks, last);
        if ec < 32 {
            (
                first,
                count,
                blocks.update(last * 34 + 2 + ec, nb).update(last * 34 + 1, (ec + 1) as u32),
            )
        } else if first[v] + count[v] == num_blocks(blocks) {
            (first, count.update(v, (count[v] + 1) as u32), blocks + fresh_block(v as u32, nb))
        } else {
            (
                first.update(v, num_blocks(blocks) as u32),
                count.update(v, (count[v] + 1) as u32),
                blocks + run_words(blocks, first[v] as int, count[v] as int) + fresh_block(v as u32, nb),
            )
        }
    }
}

/// A whole number of blocks.
pub proof fn lemma_blocks_len(blocks: Seq<u32>)
    requires
        blocks.len() % 34 == 0,
    ensures
        blocks.len() == num_blocks(blocks) * 34,
{
    vstd::arithmetic::div_mod::lemma_fundamental_div_mod(blocks.len() as int, 34);
}

proof fn lemma_run_frame(b1: Seq<u32>, b2: Seq<u32>, first: int, count: int)
    requires
        forall|b: int| first <= b < first + count ==> #[trigger] block_entries(b1, b) == block_entries(b2, b),
    ensures
        run_entries(b1, first, count) == run_entries(b2, first, count),
    decreases count,
{
    if count > 0 {
        lemma_run_frame(b1, b2, first, count - 1);
    }
}

proof fn lemma_run_len(blocks: Seq<u32>, first: int, count: int)
    requires
        blocks.len() % 34 == 0,
        forall|b: int| 0 <= b < num_blocks(blocks) ==> #[trigger] block_len(blocks, b) <= 32,
        0 <= first,
        count >= 0,
        first + count <= num_blocks(blocks),
    ensures
        run_entries(blocks, first, count).len() <= 32 * count,
    decreases count,
{
    if count > 0 {
        lemma_run_len(blocks, first, count - 1);
        assert(block_len(blocks, first + count - 1) <= 32);
    }
}

/// A vertex has at most 32 neighbours per block of the store.
pub proof fn lemma_adjacency_len(first: Seq<u32>, count: Seq<u32>, blocks: Seq<u32>, n: int, v: int)
    requires
        store_ok(first, count, blocks, n),
        0 <= v < n,
    ensures
        adjacency(first, count, blocks, v).len() <= 32 * num_blocks(blocks),
{
    if count[v] > 0 {
        lemma_run_len(blocks, first[v] as int, count[v] as int);
    }
}

/// The neighbours of the run, element by element, are slots of its blocks.
proof fn lemma_run_in_range(blocks: Seq<u32>, first: int, count: int, n: int)
    requires
        blocks.len() % 34 == 0,
        forall|b: int| 0 <= b < num_blocks(blocks) ==> #[trigger] block_len(blocks, b) <= 32,
        forall|b: int, j: int|
            0 <= b < num_blocks(blocks) && 0 <= j < block_len(blocks, b) ==> (#[trigger] block_slot(
                blocks,
                b,
                j,
            ) as int) < n,
        0 <= first,
        count >= 0,
        first + count <= num_blocks(blocks),
    ensures
        forall|i: int|
            0 <= i < run_entries(blocks, first, count).len() ==> (#[trigger] run_entries(
                blocks,
                first,
                count,
            )[i] as int) < n,
    decreases count,
{
    if count > 0 {
        lemma_run_in_range(blocks, first, count - 1, n);
        let b = first + count - 1;
        let prev = run_entries(blocks, first, count - 1);
        let e = block_entries(blocks, b);
        assert forall|i: int| 0 <= i < run_entries(blocks, first, count).len() implies (
        #[trigger] run_entries(blocks, first, count)[i] as int) < n by {
            if i >= prev.len() {
                let j = i - prev.len();
                assert(e[j] == block_slot(blocks, b, j));
            }
        }
    }
}

/// Appending to a store keeps its layout invariant and grows the target's
/// neighbours by exactly `nb`; under owned runs, runs stay owned and every
/// other vertex keeps its neighbours.
pub proof fn lemma_append(first: Seq<u32>, count: Seq<u32>, blocks: Seq<u32>, n: int, v: int, nb: u32)
    requires
        store_ok(first, count, blocks, n),
        0 <= v < n,
        n <= 0xffff_ffff,
        (nb as int) < n,
        room_to_append(first, count, blocks, v),
    ensures
        ({
            let (f2, c2, b2) = append_spec(first, count, blocks, v, nb);
            &&& store_ok(f2, c2, b2, n)
            &&& adjacency(f2, c2, b2, v) == adjacency(first, count, blocks, v).push(nb)
            &&& runs_owned(first, count, blocks, n) ==> runs_owned(f2, c2, b2, n)
            &&& runs_owned(first, count, blocks, n) ==> forall|w: int|
                0 <= w < n && w != v ==> #[trigger] adjacency(f2, c2, b2, w) == adjacency(
                    first,
                    count,
                    blocks,
                    w,
                )
        }),
{
    let (f2, c2, b2) = append_spec(first, count, blocks, v, nb);
    let nb0 = num_blocks(blocks);
    if count[v] > 0 && block_len(blocks, first[v] + count[v] - 1) >= 32 && first[v] + count[v] != nb0 {
        lemma_append_moved(first, count, blocks, n, v, nb);
    } else if count[v] == 0 || block_len(blocks, first[v] + count[v] - 1) >= 32 {
        // a fresh block is pushed at the end
        let fb = fresh_block(v as u32, nb);
        assert(b2 == blocks + fb);
        assert(b2.len() == blocks.len() + 34);
        assert(num_blocks(b2) == nb0 + 1);
        assert forall|b: int| 0 <= b < nb0 implies #[trigger] block_entries(b2, b) == block_entries(blocks, b)
            && block_len(b2, b) == block_len(blocks, b) && block_owner(b2, b) == block_owner(blocks, b) by {
            assert(block_len(blocks, b) <= 32);
            assert(block_entries(b2, b) =~= block_entries(blocks, b));
        }
        assert(block_len(b2, nb0) == 1);
        assert(block_owner(b2, nb0) == v);
        assert(block_entries(b2, nb0) =~= seq![nb]);
        assert forall|b: int, j: int|
            0 <= b < num_blocks(b2) && 0 <= j < block_len(b2, b) implies (#[trigger] block_slot(b2, b, j) as int) < n by {
            if b < nb0 {
                assert(block_len(blocks, b) <= 32);
                assert(block_entries(b2, b) == block_entries(blocks, b));
                assert(block_len(b2, b) == block_len(blocks, b));
                assert(block_slot(b2, b, j) == block_slot(blocks, b, j));
            } else {
                assert(b == nb0);
                assert(j == 0);
            }
        }
        assert forall|b: int| 0 <= b < num_blocks(b2) implies #[trigger] block_len(b2, b) <= 32 by {
            if b < nb0 {
                assert(block_len(blocks, b) <= 32);
            }
        }
        assert forall|w: int| 0 <= w < n && #[trigger] c2[w] > 0 implies f2[w] + c2[w] <= num_blocks(b2) by {
            if w != v {
                assert(count[w] > 0);
            }
        }
        assert(store_ok(f2, c2, b2, n));
        // frame for every vertex other than v
        assert forall|w: int| 0 <= w < n && w != v implies #[trigger] adjacency(f2, c2, b2, w) == adjacency(first, count, blocks, w) by {
            if count[w] > 0 {
                lemma_run_frame(b2, blocks, first[w] as int, count[w] as int);
            }
        }
        if count[v] == 0 {
            assert(run_entries(b2, nb0, 0) =~= Seq::<u32>::empty());
            assert(adjacency(f2, c2, b2, v) =~= seq![nb]);
            assert(adjacency(first, count, blocks, v) =~= Seq::<u32>::empty());
        } else {
            assert(first[v] + count[v] == nb0);
            lemma_run_frame(b2, blocks, first[v] as int, count[v] as int);
            assert(adjacency(f2, c2, b2, v) =~= adjacency(first, count, blocks, v).push(nb));
        }
        if runs_owned(first, count, blocks, n) {
            assert forall|w: int, b: int| 0 <= w < n && f2[w] <= b < f2[w] + c2[w] implies #[trigger] block_owner(b2, b) == w && #[trigger] c2[w] > 0 by {
                if w == v {
                    if b < nb0 {
                        assert(block_owner(blocks, b) == v);
                    }
                } else {
                    assert(block_owner(blocks, b) == w);
                }
            }
        }
    } else {
        // the last block read for v has room
        let last = first[v] + count[v] - 1;
        let ec = block_len(blocks, last);
        assert(0 <= last < nb0);
        assert(ec < 32);
        assert(b2 == blocks.update(last * 34 + 2 + ec, nb).update(last * 34 + 1, (ec + 1) as u32));
        assert(b2.len() == blocks.len());
        assert forall|b: int| 0 <= b < nb0 && b != last implies #[trigger] block_entries(b2, b) == block_entries(blocks, b)
            && block_len(b2, b) == block_len(blocks, b) && block_owner(b2, b) == block_owner(blocks, b) by {
            assert(block_len(blocks, b) <= 32);
            assert(block_entries(b2, b) =~= block_entries(blocks, b));
        }
        assert(block_len(b2, last) == ec + 1);
        assert(block_owner(b2, last) == block_owner(blocks, last));
        assert(block_entries(b2, last) =~= block_entries(blocks, last).push(nb));
        assert forall|b: int, j: int|
            0 <= b < num_blocks(b2) && 0 <= j < block_len(b2, b) implies (#[trigger] block_slot(b2, b, j) as int) < n by {
            if b != last {
                assert(block_len(blocks, b) <= 32);
                assert(block_entries(b2, b) == block_entries(blocks, b));
                assert(block_len(b2, b) == block_len(blocks, b));
                assert(block_slot(b2, b, j) == block_slot(blocks, b, j));
            } else if j < ec {
                assert(block_slot(b2, b, j) == block_slot(blocks, b, j));
            }
        }
        assert forall|b: int| 0 <= b < num_blocks(b2) implies #[trigger] block_len(b2, b) <= 32 by {
            if b != last {
                assert(block_len(blocks, b) <= 32);
            }
        }
        assert(store_ok(f2, c2, b2, n));
        lemma_run_frame(b2, blocks, first[v] as int, count[v] - 1);
        assert(adjacency(f2, c2, b2, v) =~= adjacency(first, count, blocks, v).push(nb));
        if runs_owned(first, count, blocks, n) {
            assert forall|w: int| 0 <= w < n && w != v implies #[trigger] adjacency(f2, c2, b2, w) == adjacency(first, count, blocks, w) by {
                if count[w] > 0 {
                    assert forall|b: int| first[w] <= b < first[w] + count[w] implies #[trigger] block_entries(b2, b) == block_entries(blocks, b) by {
                        assert(block_owner(blocks, b) == w);
                        assert(block_owner(blocks, last) == v);
                    }
                    lemma_run_frame(b2, blocks, first[w] as int, count[w] as int);
                }
            }
            assert forall|w: int, b: int| 0 <= w < n && f2[w] <= b < f2[w] + c2[w] implies #[trigger] block_owner(b2, b) == w && #[trigger] c2[w] > 0 by {
                assert(block_owner(blocks, b) == w);
            }
        }
    }
}

/// Runs read alike when their blocks are copies of each other.
proof fn lemma_run_shift(b1: Seq<u32>, b2: Seq<u32>, f1: int, f2: int, count: int)
    requires
        forall|t: int| 0 <= t < count ==> #[trigger] block_entries(b2, f2 + t) == block_entries(b1, f1 + t),
    ensures
        run_entries(b2, f2, count) == run_entries(b1, f1, count),
    decreases count,
{
    if count > 0 {
        lemma_run_shift(b1, b2, f1, f2, count - 1);
        assert(block_entries(b2, f2 + (count - 1)) == block_entries(b1, f1 + (count - 1)));
    }
}

/// Appending to a vertex whose last block is full and does not end the
/// array: its blocks are copied to the end and a fresh block follows.
proof fn lemma_append_moved(first: Seq<u32>, count: Seq<u32>, blocks: Seq<u32>, n: int, v: int, nb: u32)
    requires
        store_ok(first, count, blocks, n),
        0 <= v < n,
        n <= 0xffff_ffff,
        (nb as int) < n,
        room_to_append(first, count, blocks, v),
        count[v] > 0,
        block_len(blocks, first[v] + count[v] - 1) >= 32,
        first[v] + count[v] != num_blocks(blocks),
    ensures
        ({
            let (f2, c2, b2) = append_spec(first, count, blocks, v, nb);
            &&& store_ok(f2, c2, b2, n)
            &&& adjacency(f2, c2, b2, v) == adjacency(first, count, blocks, v).push(nb)
            &&& runs_owned(first, count, blocks, n) ==> runs_owned(f2, c2, b2, n)
            &&& forall|w: int| 0 <= w < n && w != v ==> #[trigger] adjacency(f2, c2, b2, w) == adjacency(first, count, blocks, w)
        }),
{
    let (f2, c2, b2) = append_spec(first, count, blocks, v, nb);
    let nb0 = num_blocks(blocks);
    let f = first[v] as int;
    let c = count[v] as int;
    lemma_blocks_len(blocks);
    let rw = run_words(blocks, f, c);
    let fb = fresh_block(v as u32, nb);
    assert(f + c <= nb0);
    assert(rw.len() == c * 34);
    assert(b2 == blocks + rw + fb);
    assert(b2.len() == (nb0 + c + 1) * 34);
    assert(b2.len() % 34 == 0);
    assert(num_blocks(b2) == nb0 + c + 1);
    // old blocks are kept
    assert forall|b: int| 0 <= b < nb0 implies #[trigger] block_entries(b2, b) == block_entries(blocks, b)
        && block_len(b2, b) == block_len(blocks, b) && block_owner(b2, b) == block_owner(blocks, b) by {
        assert(block_len(blocks, b) <= 32);
        assert(block_entries(b2, b) =~= block_entries(blocks, b));
    }
    // the copies
    assert forall|t: int| 0 <= t < c implies #[trigger] block_entries(b2, nb0 + t) == block_entries(blocks, f + t)
        && block_len(b2, nb0 + t) == block_len(blocks, f + t) && block_owner(b2, nb0 + t) == block_owner(blocks, f + t) by {
        assert(block_len(blocks, f + t) <= 32);
        assert forall|k: int| 0 <= k < 34 implies #[trigger] b2[(nb0 + t) * 34 + k] == blocks[(f + t) * 34 + k] by {
            assert(b2[(nb0 + t) * 34 + k] == rw[t * 34 + k]);
        }
        assert(b2[(nb0 + t) * 34] == blocks[(f + t) * 34]);
        assert(b2[(nb0 + t) * 34 + 1] == blocks[(f + t) * 34 + 1]);
        assert(block_entries(b2, nb0 + t) =~= block_entries(blocks, f + t));
    }
    // the fresh block
    assert(b2[(nb0 + c) * 34] == v as u32);
    assert(b2[(nb0 + c) * 34 + 1] == 1u32);
    assert(b2[(nb0 + c) * 34 + 2] == nb);
    assert(block_len(b2, nb0 + c) == 1);
    assert(block_owner(b2, nb0 + c) == v);
    assert(block_entries(b2, nb0 + c) =~= seq![nb]);
    assert forall|b: int, j: int|
        0 <= b < num_blocks(b2) && 0 <= j < block_len(b2, b) implies (#[trigger] block_slot(b2, b, j) as int) < n by {
        if b < nb0 {
            assert(block_entries(b2, b) == block_entries(blocks, b));
            assert(block_slot(b2, b, j) == block_entries(b2, b)[j]);
            assert(block_slot(blocks, b, j) == block_entries(blocks, b)[j]);
        } else if b < nb0 + c {
            let t = b - nb0;
            assert(block_entries(b2, nb0 + t) == block_entries(blocks, f + t));
            assert(block_slot(b2, b, j) == block_entries(b2, b)[j]);
            assert(block_slot(blocks, f + t, j) == block_entries(blocks, f + t)[j]);
        } else {
            assert(b == nb0 + c);
            assert(j == 0);
        }
    }
    assert forall|b: int| 0 <= b < num_blocks(b2) implies #[trigger] block_len(b2, b) <= 32 by {
        if b < nb0 {
            assert(block_len(blocks, b) <= 32);
        } else if b < nb0 + c {
            let t = b - nb0;
            assert(block_len(b2, nb0 + t) == block_len(blocks, f + t));
        }
    }
    assert forall|w: int| 0 <= w < n && #[trigger] c2[w] > 0 implies f2[w] + c2[w] <= num_blocks(b2) by {
        if w != v {
            assert(count[w] > 0);
        }
    }
    assert(store_ok(f2, c2, b2, n));
    // what v reads
    lemma_run_shift(blocks, b2, f, nb0, c);
    assert(run_entries(b2, nb0, c + 1) =~= run_entries(b2, nb0, c) + seq![nb]);
    assert(adjacency(f2, c2, b2, v) =~= adjacency(first, count, blocks, v).push(nb));
    // every other vertex
    assert forall|w: int| 0 <= w < n && w != v implies #[trigger] adjacency(f2, c2, b2, w) == adjacency(first, count, blocks, w) by {
        if count[w] > 0 {
            lemma_run_frame(b2, blocks, first[w] as int, count[w] as int);
        }
    }
    if runs_owned(first, count, blocks, n) {
        assert forall|w: int, b: int| 0 <= w < n && f2[w] <= b < f2[w] + c2[w] implies #[trigger] block_owner(b2, b) == w && #[trigger] c2[w] > 0 by {
            if w == v {
                if b < nb0 + c {
                    let t = b - nb0;
                    assert(block_owner(b2, nb0 + t) == block_owner(blocks, f + t));
                    assert(block_owner(blocks, f + t) == v);
                }
            } else {
                assert(block_owner(blocks, b) == w);
            }
        }
    }
}

/// `s` extended with zeros up to length `m`.
pub open spec fn pad(s: Seq<u32>, m: int) -> Seq<u32> {
    s + Seq::new((m - s.len()) as nat, |i: int| 0u32)
}

/// Every stored neighbour of `v` is a vertex index below `n`.
pub proof fn lemma_adjacency_in_range(first: Seq<u32>, count: Seq<u32>, blocks: Seq<u32>, n: int, v: int)
    requires
        store_ok(first, count, blocks, n),
        0 <= v < n,
    ensures
        forall|i: int|
            0 <= i < adjacency(first, count, blocks, v).len() ==> (#[trigger] adjacency(
                first,
                count,
                blocks,
                v,
            )[i] as int) < n,
{
    if count[v] > 0 {
        lemma_run_in_range(blocks, first[v] as int, count[v] as int, n);
    }
}

/// Adding vertices without blocks keeps the layout and what is read for the
/// existing vertices; the new vertices read nothing.
pub proof fn lemma_pad(first: Seq<u32>, count: Seq<u32>, blocks: Seq<u32>, n: int, m: int)
    requires
        store_ok(first, count, blocks, n),
        n <= m,
    ensures
        store_ok(pad(first, m), pad(count, m), blocks, m),
        runs_owned(first, count, blocks, n) ==> runs_owned(pad(first, m), pad(count, m), blocks, m),
        forall|w: int| 0 <= w < n ==> #[trigger] adjacency(pad(first, m), pad(count, m), blocks, w) == adjacency(first, count, blocks, w),
        forall|w: int| n <= w < m ==> #[trigger] adjacency(pad(first, m), pad(count, m), blocks, w) == Seq::<u32>::empty(),
{
    let f2 = pad(first, m);
    let c2 = pad(count, m);
    assert forall|w: int| 0 <= w < m implies #[trigger] c2[w] == (if w < n { count[w] } else { 0u32 }) && f2[w] == (if w < n { first[w] } else { 0u32 }) by {}
    assert forall|w: int| 0 <= w < m && #[trigger] c2[w] > 0 implies f2[w] + c2[w] <= num_blocks(blocks) by {
        assert(c2[w] == (if w < n { count[w] } else { 0u32 }));
        if w < n {
            assert(count[w] > 0);
        }
    }
    if runs_owned(first, count, blocks, n) {
        assert forall|w: int, b: int| 0 <= w < m && f2[w] <= b < f2[w] + c2[w] implies #[trigger] block_owner(blocks, b) == w && #[trigger] c2[w] > 0 by {
            assert(c2[w] == (if w < n { count[w] } else { 0u32 }));
            assert(f2[w] == (if w < n { first[w] } else { 0u32 }));
            if w < n {
                assert(count[w] > 0);
            }
        }
    }
    assert forall|w: int| 0 <= w < n implies #[trigger] adjacency(f2, c2, blocks, w) == adjacency(first, count, blocks, w) by {
        assert(c2[w] == count[w]);
        assert(f2[w] == first[w]);
    }
    assert forall|w: int| n <= w < m implies #[trigger] adjacency(f2, c2, blocks, w) == Seq::<u32>::empty() by {
        assert(c2[w] == 0);
    }
}

/// Appends neighbour `nb` to vertex `v` of the store (see [`append_spec`]).
/// Returns whether an extra block had to be added to a vertex that already
/// had blocks.
pub fn append_to_store(
    first: &mut Vec<u32>,
    count: &mut Vec<u32>,
    blocks: &mut Vec<u32>,
    v: usize,
    nb: u32,
    n: Ghost<int>,
) -> (extra_block: bool)
    requires
        store_ok(old(first)@, old(count)@, old(blocks)@, n@),
        v < n@,
        n@ <= 0xffff_ffff,
        (nb as int) < n@,
        room_to_append(old(first)@, old(count)@, old(blocks)@, v as int),
    ensures
        (final(first)@, final(count)@, final(blocks)@) == append_spec(
            old(first)@,
            old(count)@,
            old(blocks)@,
            v as int,
            nb,
        ),
        store_ok(final(first)@, final(count)@, final(blocks)@, n@),
        extra_block == (old(count)@[v as int] > 0 && block_len(
            old(blocks)@,
            old(first)@[v as int] + old(count)@[v as int] - 1,
        ) >= 32),
{
    proof {
        lemma_append(first@, count@, blocks@, n@, v as int, nb);
        lemma_blocks_len(blocks@);
    }
    let c = count[v];
    let total_len = blocks.len();
    if c == 0 {
        let new_block_idx = (blocks.len() / 34) as u32;
        first.set(v, new_block_idx);
        push_fresh_block(blocks, v as u32, nb);
        count.set(v, 1);
        false
    } else {
        let first_block = first[v] as usize;
        let last_block = first_block + c as usize - 1;
        assert(last_block * 34 + 34 <= total_len);
        let block_start = last_block * 34;
        let edge_count = blocks[block_start + 1] as usize;
        if edge_count < 32 {
            blocks.set(block_start + 2 + edge_count, nb);
            blocks.set(block_start + 1, (edge_count + 1) as u32);
            false
        } else if first_block + c as usize == total_len / 34 {
            push_fresh_block(blocks, v as u32, nb);
            count.set(v, c + 1);
            true
        } else {
            let ghost b0 = blocks@;
            let start_w = first_block * 34;
            let end_w = (first_block + c as usize) * 34;
            let mut w = start_w;
            while w < end_w
                invariant
                    start_w <= w <= end_w <= total_len,
                    total_len == b0.len(),
                    blocks@ == b0 + b0.subrange(start_w as int, w as int),
                decreases end_w - w,
            {
                let x = blocks[w];
                blocks.push(x);
                w = w + 1;
                proof {
                    assert(blocks@ =~= b0 + b0.subrange(start_w as int, w as int));
                }
            }
            push_fresh_block(blocks, v as u32, nb);
            first.set(v, (total_len / 34) as u32);
            count.set(v, c + 1);
            true
        }
    }
}

fn push_fresh_block(blocks: &mut Vec<u32>, owner: u32, nb: u32)
    ensures
        final(blocks)@ == old(blocks)@ + fresh_block(owner, nb),
{
    blocks.push(owner);
    blocks.push(1);
    blocks.push(nb);
    let mut k: usize = 1;
    while k < 32
        invariant
            1 <= k <= 32,
            blocks@ == old(blocks)@ + seq![owner, 1u32, nb] + Seq::new((k - 1) as nat, |i: int| 0u32),
        decreases 32 - k,
    {
        blocks.push(0);
        k = k + 1;
        proof {
            assert(blocks@ =~= old(blocks)@ + seq![owner, 1u32, nb] + Seq::new((k - 1) as nat, |i: int| 0u32));
        }
    }
    proof {
        assert(blocks@ =~= old(blocks)@ + fresh_block(owner, nb));
    }
}

/// Reads the neighbours of vertex `v`, in storage order.
pub fn read_adjacency(first: &Vec<u32>, count: &Vec<u32>, blocks: &Vec<u32>, v: usize, n: Ghost<int>) -> (r: Vec<u32>)
    requires
        store_ok(first@, count@, blocks@, n@),
        v < n@,
    ensures
        r@ == adjacency(first@, count@, blocks@, v as int),
        forall|i: int| 0 <= i < r@.len() ==> (#[trigger] r@[i] as int) < n@,
{
    let mut result: Vec<u32> = Vec::new();
    let total_len = blocks.len();
    let c = count[v] as usize;
    if c == 0 {
        return result;
    }
    let first_block = first[v] as usize;
    proof {
        lemma_run_in_range(blocks@, first_block as int, c as int, n@);
        lemma_run_len(blocks@, first_block as int, c as int);
        lemma_blocks_len(blocks@);
    }
    let mut b: usize = 0;
    while b < c
        invariant
            store_ok(first@, count@, blocks@, n@),
            v < n@,
            total_len == blocks@.len(),
            blocks@.len() == num_blocks(blocks@) * 34,
            c == count@[v as int],
            first_block == first@[v as int],
            first_block + c <= num_blocks(blocks@),
            b <= c,
            result@ == run_entries(blocks@, first_block as int, b as int),
        decreases c - b,
    {
        let block_start = (first_block + b) * 34;
        let edge_count = blocks[block_start + 1] as usize;
        proof {
            assert(block_len(blocks@, (first_block + b) as int) <= 32);
        }
        let ghost before = result@;
        let mut e: usize = 0;
        while e < edge_count
            invariant
                store_ok(first@, count@, blocks@, n@),
                blocks@.len() == num_blocks(blocks@) * 34,
                total_len == blocks@.len(),
                first_block + c <= num_blocks(blocks@),
                b < c,
                block_start == (first_block + b) * 34,
                edge_count == block_len(blocks@, (first_block + b) as int),
                edge_count <= 32,
                e <= edge_count,
                result@ == before + block_entries(blocks@, (first_block + b) as int).take(e as int),
            decreases edge_count - e,
        {
            result.push(blocks[block_start + 2 + e]);
            e = e + 1;
            proof {
                assert(result@ =~= before + block_entries(blocks@, (first_block + b) as int).take(e as int));
            }
        }
        b = b + 1;
        proof {
            assert(block_entries(blocks@, (first_block + b - 1) as int).take(edge_count as int) =~= block_entries(blocks@, (first_block + b - 1) as int));
        }
    }
    result
}

/// Number of neighbours stored for `v`: the sum of the edge counts of the
/// blocks read for it.
pub fn adjacency_len(first: &Vec<u32>, count: &Vec<u32>, blocks: &Vec<u32>, v: usize, n: Ghost<int>) -> (r: usize)
    requires
        store_ok(first@, count@, blocks@, n@),
        v < n@,
    ensures
        r == adjacency(first@, count@, blocks@, v as int).len(),
{
    let c = count[v] as usize;
    if c == 0 {
        return 0;
    }
    let first_block = first[v] as usize;
    proof {
        lemma_run_len(blocks@, first_block as int, c as int);
        lemma_blocks_len(blocks@);
    }
    let total_len = blocks.len();
    let mut total: usize = 0;
    let mut b: usize = 0;
    while b < c
        invariant
            store_ok(first@, count@, blocks@, n@),
            v < n@,
            total_len == blocks@.len(),
            blocks@.len() == num_blocks(blocks@) * 34,
            c == count@[v as int],
            first_block == first@[v as int],
            first_block + c <= num_blocks(blocks@),
            b <= c,
            total == run_entries(blocks@, first_block as int, b as int).len(),
            total <= 32 * b,
        decreases c - b,
    {
        let block_start = (first_block + b) * 34;
        proof {
            assert(block_len(blocks@, (first_block + b) as int) <= 32);
            lemma_run_len(blocks@, first_block as int, b as int);
        }
        total = total + blocks[block_start + 1] as usize;
        b = b + 1;
    }
    total
}

} // verus!

verus! {

/// A CSR adjacency for `n` vertices: vertex `v` has the targets
/// `targets[offsets[v] .. offsets[v + 1]]`. Offsets do not decrease, stay
/// within the targets, and every listed target is a vertex below `n`.
pub open spec fn csr_ok(offsets: Seq<u32>, targets: Seq<u32>, n: int) -> bool {
    &&& 0 <= n
    &&& offsets.len() >= n + 1
    &&& forall|v: int| 0 <= v < n ==> #[trigger] offsets[v] <= offsets[v + 1]
    &&& offsets[n] <= targets.len()
    &&& forall|i: int| offsets[0] <= i < offsets[n] ==> (#[trigger] targets[i] as int) < n
}

/// Targets of vertex `v` in a CSR adjacency.
pub open spec fn csr_slice(offsets: Seq<u32>, targets: Seq<u32>, v: int) -> Seq<u32> {
    targets.subrange(offsets[v] as int, offsets[v + 1] as int)
}

pub proof fn lemma_offsets_monotone(offsets: Seq<u32>, targets: Seq<u32>, n: int, a: int, b: int)
    requires
        csr_ok(offsets, targets, n),
        0 <= a <= b <= n,
    ensures
        offsets[a] <= offsets[b],
    decreases b - a,
{
    if a < b {
        lemma_offsets_monotone(offsets, targets, n, a, b - 1);
        assert(offsets[b - 1] <= offsets[b]);
    }
}

/// Block counts of a vertex filled in order.
proof fn lemma_ceil32(k: int)
    requires
        k >= 0,
    ensures
        k == 0 ==> (k + 31) / 32 == 0 && (k + 32) / 32 == 1,
        k > 0 && k % 32 != 0 ==> (k + 32) / 32 == (k + 31) / 32 && (k - 1) % 32 + 2 == k % 32 + 1 && (k - 1) % 32 + 1 < 32,
        k > 0 && k % 32 == 0 ==> (k + 32) / 32 == (k + 31) / 32 + 1 && (k - 1) % 32 + 1 == 32,
{
}

/// Filling a vertex's blocks in order: after `k + 1` neighbours it has
/// `ceil((k + 1) / 32)` blocks, the last holding `k % 32 + 1` of them.
#[verifier::spinoff_prover]
proof fn lemma_block_fill(
    f0: Seq<u32>,
    c0: Seq<u32>,
    b0: Seq<u32>,
    f1: Seq<u32>,
    c1: Seq<u32>,
    b1: Seq<u32>,
    v: int,
    nb: u32,
    k: int,
)
    requires
        b0.len() % 34 == 0,
        num_blocks(b0) + 1 < 0xffff_ffff,
        0 <= v < c0.len(),
        f0.len() == c0.len(),
        k >= 0,
        (f1, c1, b1) == append_spec(f0, c0, b0, v, nb),
        c0[v] > 0 ==> f0[v] + c0[v] == num_blocks(b0),
        c0[v] == (k + 31) / 32,
        k > 0 ==> block_len(b0, f0[v] + c0[v] - 1) == (k - 1) % 32 + 1,
    ensures
        c1[v] == (k + 1 + 31) / 32,
        block_len(b1, f1[v] + c1[v] - 1) == k % 32 + 1,
{
    lemma_blocks_len(b0);
    lemma_ceil32(k);
    let nb0 = num_blocks(b0);
    if c0[v] == 0 {
        assert(b1 == b0 + fresh_block(v as u32, nb));
        assert(f1[v] == nb0);
        assert(c1[v] == 1);
        assert(b1[nb0 * 34 + 1] == 1u32);
        assert(block_len(b1, nb0) == 1);
    } else if block_len(b0, f0[v] + c0[v] - 1) < 32 {
        let last = f0[v] + c0[v] - 1;
        assert(f1 == f0 && c1 == c0);
        assert(b1[last * 34 + 1] == ((k - 1) % 32 + 2) as u32);
        assert(block_len(b1, last) == (k - 1) % 32 + 2);
    } else {
        assert(b1 == b0 + fresh_block(v as u32, nb));
        assert(f1 == f0);
        assert(c1[v] == c0[v] + 1);
        assert(f1[v] + c1[v] - 1 == nb0);
        assert(b1[nb0 * 34 + 1] == 1u32);
        assert(block_len(b1, nb0) == 1);
    }
}

/// Builds a store for `n` vertices from a CSR adjacency, vertex after
/// vertex, filling each vertex's blocks in order (32 neighbours per block,
/// unused slots zero).
#[verifier::rlimit(60)]
pub fn store_from_csr(offsets: &[u32], targets: &[u32], n: usize) -> (r: (Vec<u32>, Vec<u32>, Vec<u32>))
    requires
        csr_ok(offsets@, targets@, n as int),
        n <= 0xffff_ffff,
        offsets@[n as int] - offsets@[0] < 0xffff_fffd,
    ensures
        store_ok(r.0@, r.1@, r.2@, n as int),
        runs_owned(r.0@, r.1@, r.2@, n as int),
        forall|v: int| 0 <= v < n ==> #[trigger] adjacency(r.0@, r.1@, r.2@, v) == csr_slice(offsets@, targets@, v),
        forall|v: int| 0 <= v < n ==> #[trigger] r.1@[v] == (csr_slice(offsets@, targets@, v).len() + 31) / 32,
        num_blocks(r.2@) <= offsets@[n as int] - offsets@[0],
{
    let mut first: Vec<u32> = vec![0u32; n];
    let mut count: Vec<u32> = vec![0u32; n];
    let mut blocks: Vec<u32> = Vec::new();
    let ghost o = offsets@;
    let ghost t = targets@;
    proof {
        assert forall|b: int, j: int| 0 <= b < num_blocks(blocks@) && 0 <= j < block_len(blocks@, b) implies (#[trigger] block_slot(blocks@, b, j) as int) < n by {}
    }
    let mut v: usize = 0;
    while v < n
        invariant
            csr_ok(o, t, n as int),
            o == offsets@,
            t == targets@,
            n <= 0xffff_ffff,
            o[n as int] - o[0] < 0xffff_fffd,
            v <= n,
            store_ok(first@, count@, blocks@, n as int),
            runs_owned(first@, count@, blocks@, n as int),
            forall|w: int| 0 <= w < v ==> #[trigger] adjacency(first@, count@, blocks@, w) == csr_slice(o, t, w),
            forall|w: int| 0 <= w < v ==> #[trigger] count@[w] == (csr_slice(o, t, w).len() + 31) / 32,
            forall|w: int| v <= w < n ==> #[trigger] count@[w] == 0,
            num_blocks(blocks@) <= o[v as int] - o[0],
        decreases n - v,
    {
        proof {
            lemma_offsets_monotone(o, t, n as int, 0, v as int);
            lemma_offsets_monotone(o, t, n as int, v as int + 1, n as int);
            assert(o[v as int] <= o[v + 1]);
        }
        let start = offsets[v] as usize;
        let end = offsets[v + 1] as usize;
        let mut i: usize = start;
        while i < end
            invariant
                csr_ok(o, t, n as int),
                o == offsets@,
                t == targets@,
                n <= 0xffff_ffff,
                o[n as int] - o[0] < 0xffff_fffd,
                v < n,
                start == o[v as int],
                end == o[v + 1],
                o[0] <= start <= i <= end <= o[n as int],
                store_ok(first@, count@, blocks@, n as int),
                runs_owned(first@, count@, blocks@, n as int),
                forall|w: int| 0 <= w < v ==> #[trigger] adjacency(first@, count@, blocks@, w) == csr_slice(o, t, w),
                forall|w: int| 0 <= w < v ==> #[trigger] count@[w] == (csr_slice(o, t, w).len() + 31) / 32,
                forall|w: int| v < w < n ==> #[trigger] count@[w] == 0,
                adjacency(first@, count@, blocks@, v as int) == t.subrange(start as int, i as int),
                count@[v as int] == (i - start + 31) / 32,
                i > start ==> block_len(blocks@, first@[v as int] + count@[v as int] - 1) == (i - start - 1) % 32 + 1,
                count@[v as int] > 0 ==> first@[v as int] + count@[v as int] == num_blocks(blocks@),
                num_blocks(blocks@) <= i - o[0],
            decreases end - i,
        {
            let ghost f0 = first@;
            let ghost c0 = count@;
            let ghost b0 = blocks@;
            proof {
                lemma_append(f0, c0, b0, n as int, v as int, t[i as int]);
            }
            let _ = append_to_store(&mut first, &mut count, &mut blocks, v, targets[i], Ghost(n as int));
            proof {
                lemma_block_fill(f0, c0, b0, first@, count@, blocks@, v as int, t[i as int], i - start);
                assert(t.subrange(start as int, i + 1) =~= t.subrange(start as int, i as int).push(t[i as int]));
                assert forall|w: int| v < w < n implies #[trigger] count@[w] == 0 by {
                    assert(c0[w] == 0);
                }
            }
            i = i + 1;
        }
        proof {
            assert(csr_slice(o, t, v as int) =~= t.subrange(start as int, end as int));
            assert(csr_slice(o, t, v as int).len() == end - start);
        }
        v = v + 1;
    }
    (first, count, blocks)
}

} // verus!

verus! {

/// Number of occurrences of `x` in `s`.
pub open spec fn occurrences(s: Seq<u32>, x: u32) -> nat
    decreases s.len(),
{
    if s.len() == 0 {
        0
    } else {
        occurrences(s.drop_last(), x) + if s.last() == x { 1nat } else { 0nat }
    }
}

/// In-neighbours of `x` in a CSR adjacency restricted to the vertices
/// `0..k`: each vertex `v` once per edge `v -> x`, by increasing `v`.
pub open spec fn sources_upto(offsets: Seq<u32>, targets: Seq<u32>, k: int, x: u32) -> Seq<u32>
    decreases k,
{
    if k <= 0 {
        Seq::empty()
    } else {
        sources_upto(offsets, targets, k - 1, x) + Seq::new(
            occurrences(csr_slice(offsets, targets, k - 1), x),
            |j: int| (k - 1) as u32,
        )
    }
}

/// In-neighbours of `x` among the edges before position `i`, where `i`
/// lies in the targets of vertex `v`.
spec fn partial_sources(offsets: Seq<u32>, targets: Seq<u32>, v: int, i: int, x: u32) -> Seq<u32> {
    sources_upto(offsets, targets, v, x) + Seq::new(
        occurrences(targets.subrange(offsets[v] as int, i), x),
        |j: int| v as u32,
    )
}

pub proof fn lemma_occurrences_concat(a: Seq<u32>, b: Seq<u32>, x: u32)
    ensures
        occurrences(a + b, x) == occurrences(a, x) + occurrences(b, x),
    decreases b.len(),
{
    if b.len() > 0 {
        lemma_occurrences_concat(a, b.drop_last(), x);
        assert((a + b).drop_last() =~= a + b.drop_last());
    }
}

pub proof fn lemma_occurrences_le(s: Seq<u32>, x: u32)
    ensures
        occurrences(s, x) <= s.len(),
    decreases s.len(),
{
    if s.len() > 0 {
        lemma_occurrences_le(s.drop_last(), x);
    }
}

/// Sum over `x < k` of the occurrences of `x`.
spec fn occurrences_below(s: Seq<u32>, k: int) -> nat
    decreases k,
{
    if k <= 0 {
        0
    } else {
        occurrences_below(s, k - 1) + occurrences(s, (k - 1) as u32)
    }
}

proof fn lemma_occurrences_below_push(s: Seq<u32>, y: u32, k: int)
    requires
        0 <= k <= 0x1_0000_0000,
    ensures
        occurrences_below(s.push(y), k) == occurrences_below(s, k) + if (y as int) < k { 1nat } else { 0nat },
    decreases k,
{
    if k > 0 {
        lemma_occurrences_below_push(s, y, k - 1);
        assert(s.push(y).drop_last() =~= s);
    }
}

/// When every element is below `k`, the occurrences of the values below `k`
/// add up to the length.
proof fn lemma_occurrences_total(s: Seq<u32>, k: int)
    requires
        0 <= k <= 0x1_0000_0000,
        forall|i: int| 0 <= i < s.len() ==> (#[trigger] s[i] as int) < k,
    ensures
        occurrences_below(s, k) == s.len(),
    decreases s.len(),
{
    if s.len() == 0 {
        lemma_occurrences_below_empty(s, k);
    } else {
        let p = s.drop_last();
        assert forall|i: int| 0 <= i < p.len() implies (#[trigger] p[i] as int) < k by {
            assert(p[i] == s[i]);
        }
        lemma_occurrences_total(p, k);
        assert(p.push(s.last()) =~= s);
        lemma_occurrences_below_push(p, s.last(), k);
    }
}

proof fn lemma_occurrences_below_empty(s: Seq<u32>, k: int)
    requires
        s.len() == 0,
    ensures
        occurrences_below(s, k) == 0,
    decreases k,
{
    if k > 0 {
        lemma_occurrences_below_empty(s, k - 1);
    }
}

/// The in-neighbours of `x` among vertices `0..v` are as many as the
/// occurrences of `x` among their targets.
proof fn lemma_sources_len(offsets: Seq<u32>, targets: Seq<u32>, n: int, v: int, x: u32)
    requires
        csr_ok(offsets, targets, n),
        0 <= v <= n,
    ensures
        sources_upto(offsets, targets, v, x).len() == occurrences(
            targets.subrange(offsets[0] as int, offsets[v] as int),
            x,
        ),
    decreases v,
{
    lemma_offsets_monotone(offsets, targets, n, 0, v);
    lemma_offsets_monotone(offsets, targets, n, v, n);
    if v > 0 {
        lemma_sources_len(offsets, targets, n, v - 1, x);
        lemma_offsets_monotone(offsets, targets, n, 0, v - 1);
        assert(offsets[v - 1] <= offsets[(v - 1) + 1]);
        assert(targets.subrange(offsets[0] as int, offsets[v] as int) =~= targets.subrange(
            offsets[0] as int,
            offsets[v - 1] as int,
        ) + csr_slice(offsets, targets, v - 1));
        lemma_occurrences_concat(
            targets.subrange(offsets[0] as int, offsets[v - 1] as int),
            csr_slice(offsets, targets, v - 1),
            x,
        );
    } else {
        assert(targets.subrange(offsets[0] as int, offsets[0] as int) =~= Seq::<u32>::empty());
    }
}

/// Occurrences in `s.push(y)` of each value: one more for `y`.
proof fn lemma_occurrences_push(s: Seq<u32>, y: u32, x: u32)
    ensures
        occurrences(s.push(y), x) == occurrences(s, x) + if y == x { 1nat } else { 0nat },
{
    assert(s.push(y).drop_last() =~= s);
}

/// Counts, for each vertex `x < n`, how often it occurs among
/// `targets[lo..hi]`.
fn count_occurrences(targets: &[u32], lo: usize, hi: usize, n: usize) -> (d: Vec<u32>)
    requires
        lo <= hi <= targets@.len(),
        hi - lo <= 0xffff_ffff,
        n <= 0xffff_ffff,
        forall|i: int| lo <= i < hi ==> (#[trigger] targets@[i] as int) < n,
    ensures
        d@.len() == n,
        forall|x: int| 0 <= x < n ==> #[trigger] d@[x] == occurrences(targets@.subrange(lo as int, hi as int), x as u32),
{
    let ghost t = targets@;
    let mut d: Vec<u32> = vec![0u32; n];
    proof {
        assert forall|x: int| 0 <= x < n implies #[trigger] d@[x] == occurrences(t.subrange(lo as int, lo as int), x as u32) by {
            assert(t.subrange(lo as int, lo as int) =~= Seq::<u32>::empty());
        }
    }
    let mut i: usize = lo;
    while i < hi
        invariant
            t == targets@,
            lo <= i <= hi <= t.len(),
            hi - lo <= 0xffff_ffff,
            n <= 0xffff_ffff,
            forall|k: int| lo <= k < hi ==> (#[trigger] t[k] as int) < n,
            d@.len() == n,
            forall|x: int| 0 <= x < n ==> #[trigger] d@[x] == occurrences(t.subrange(lo as int, i as int), x as u32),
        decreases hi - i,
    {
        let y = targets[i];
        let ghost d0 = d@;
        proof {
            assert(t.subrange(lo as int, i + 1) =~= t.subrange(lo as int, i as int).push(y));
            lemma_occurrences_le(t.subrange(lo as int, i as int), y);
        }
        let c = d[y as usize];
        d.set(y as usize, c + 1);
        proof {
            assert forall|x: int| 0 <= x < n implies #[trigger] d@[x] == occurrences(t.subrange(lo as int, i + 1), x as u32) by {
                lemma_occurrences_push(t.subrange(lo as int, i as int), y, x as u32);
                if x != y as int {
                    assert(d@[x] == d0[x]);
                }
            }
        }
        i = i + 1;
    }
    d
}

/// Running sums of `d`: `r[0] == 0` and `r[a + 1] == r[a] + d[a]`, where
/// `d[x]` counts the occurrences of `x` in `all`, every entry of which is
/// below `d.len()`.
fn running_sums(d: &Vec<u32>, all: Ghost<Seq<u32>>) -> (r: Vec<u32>)
    requires
        d@.len() < usize::MAX,
        d@.len() <= 0xffff_ffff,
        all@.len() <= 0xffff_ffff,
        forall|x: int| 0 <= x < d@.len() ==> #[trigger] d@[x] == occurrences(all@, x as u32),
        forall|i: int| 0 <= i < all@.len() ==> (#[trigger] all@[i] as int) < d@.len(),
    ensures
        r@.len() == d@.len() + 1,
        r@[0] == 0,
        r@[d@.len() as int] == all@.len(),
        forall|a: int| 0 <= a < d@.len() ==> #[trigger] r@[a + 1] == r@[a] + d@[a],
        forall|a: int, b: int| 0 <= a <= b <= d@.len() ==> #[trigger] r@[a] <= #[trigger] r@[b],
{
    let n = d.len();
    let mut r: Vec<u32> = vec![0u32; n + 1];
    proof {
        lemma_occurrences_total(all@, n as int);
    }
    let mut k: usize = 0;
    while k < n
        invariant
            n == d@.len(),
            n <= 0xffff_ffff,
            k <= n,
            r@.len() == n + 1,
            r@[0] == 0,
            forall|x: int| 0 <= x < n ==> #[trigger] d@[x] == occurrences(all@, x as u32),
            r@[k as int] == occurrences_below(all@, k as int),
            forall|a: int| 0 <= a < k ==> #[trigger] r@[a + 1] == r@[a] + d@[a],
            occurrences_below(all@, n as int) == all@.len(),
            all@.len() <= 0xffff_ffff,
        decreases n - k,
    {
        proof {
            lemma_occurrences_below_mono(all@, k as int + 1, n as int);
        }
        let next = r[k] + d[k];
        r.set(k + 1, next);
        k = k + 1;
    }
    proof {
        lemma_prefix_monotone(r@, d@, n as int);
    }
    r
}

/// The reverse CSR: for every vertex `x`, its in-neighbours
/// ([`sources_upto`] over all vertices), laid out by increasing `x`.
#[verifier::rlimit(60)]
pub fn reverse_csr(offsets: &[u32], targets: &[u32], n: usize) -> (r: (Vec<u32>, Vec<u32>))
    requires
        csr_ok(offsets@, targets@, n as int),
        n <= 0xffff_ffff,
        offsets@[n as int] - offsets@[0] <= 0xffff_ffff,
    ensures
        csr_ok(r.0@, r.1@, n as int),
        r.0@.len() == n + 1,
        r.0@[0] == 0,
        r.0@[n as int] == offsets@[n as int] - offsets@[0],
        forall|x: int| 0 <= x < n ==> #[trigger] csr_slice(r.0@, r.1@, x) == sources_upto(offsets@, targets@, n as int, x as u32),
{
    let ghost o = offsets@;
    let ghost t = targets@;
    let ghost e0 = o[0] as int;
    proof {
        lemma_offsets_monotone(o, t, n as int, 0, n as int);
    }
    let olen = offsets.len();
    let lo = offsets[0] as usize;
    let hi = offsets[n] as usize;
    let in_degrees = count_occurrences(targets, lo, hi, n);
    let ghost all = t.subrange(e0, o[n as int] as int);
    proof {
        assert forall|i: int| 0 <= i < all.len() implies (#[trigger] all[i] as int) < n by {
            assert(all[i] == t[e0 + i]);
        }
    }
    let rev_offsets = running_sums(&in_degrees, Ghost(all));
    let total = rev_offsets[n] as usize;
    let mut rev_targets: Vec<u32> = vec![0u32; total];
    let mut cur: Vec<u32> = vec![0u32; n];
    proof {
        assert forall|x: int| 0 <= x < n implies #[trigger] cur@[x] == occurrences(t.subrange(e0, o[0] as int), x as u32) by {
            assert(t.subrange(e0, e0) =~= Seq::<u32>::empty());
        }
    }
    let mut v: usize = 0;
    while v < n
        invariant
            csr_ok(o, t, n as int),
            o == offsets@,
            t == targets@,
            e0 == o[0],
            all == t.subrange(e0, o[n as int] as int),
            n <= 0xffff_ffff,
            n < olen,
            v <= n,
            rev_offsets@.len() == n + 1,
            in_degrees@.len() == n,
            cur@.len() == n,
            rev_targets@.len() == total,
            total == rev_offsets@[n as int],
            forall|x: int| 0 <= x < n ==> #[trigger] in_degrees@[x] == occurrences(all, x as u32),
            forall|a: int| 0 <= a < n ==> #[trigger] rev_offsets@[a + 1] == rev_offsets@[a] + in_degrees@[a],
            forall|a: int, b: int| 0 <= a <= b <= n ==> #[trigger] rev_offsets@[a] <= #[trigger] rev_offsets@[b],
            forall|x: int| 0 <= x < n ==> #[trigger] cur@[x] == occurrences(t.subrange(e0, o[v as int] as int), x as u32),
            forall|x: int, j: int| 0 <= x < n && 0 <= j < cur@[x] ==> #[trigger] rev_targets@[rev_offsets@[x] + j] == #[trigger] sources_upto(o, t, v as int, x as u32)[j],
            forall|p: int| 0 <= p < rev_targets@.len() ==> (#[trigger] rev_targets@[p] as int) < n,
        decreases n - v,
    {
        proof {
            lemma_offsets_monotone(o, t, n as int, 0, v as int);
            lemma_offsets_monotone(o, t, n as int, v as int + 1, n as int);
            assert(o[v as int] <= o[v + 1]);
        }
        let start = offsets[v] as usize;
        let end = offsets[v + 1] as usize;
        let mut i: usize = start;
        proof {
            assert forall|x: int, j: int| 0 <= x < n && 0 <= j < cur@[x] implies #[trigger] rev_targets@[rev_offsets@[x] + j] == #[trigger] partial_sources(o, t, v as int, i as int, x as u32)[j] by {
                assert(t.subrange(start as int, start as int) =~= Seq::<u32>::empty());
                assert(partial_sources(o, t, v as int, i as int, x as u32) =~= sources_upto(o, t, v as int, x as u32));
            }
        }
        while i < end
            invariant
                csr_ok(o, t, n as int),
                o == offsets@,
                t == targets@,
                e0 == o[0],
                all == t.subrange(e0, o[n as int] as int),
                n <= 0xffff_ffff,
                v < n,
                e0 <= start <= i <= end <= o[n as int],
                start == o[v as int],
                end == o[v + 1],
                rev_offsets@.len() == n + 1,
                in_degrees@.len() == n,
                cur@.len() == n,
                rev_targets@.len() == total,
                total == rev_offsets@[n as int],
                forall|x: int| 0 <= x < n ==> #[trigger] in_degrees@[x] == occurrences(all, x as u32),
                forall|a: int| 0 <= a < n ==> #[trigger] rev_offsets@[a + 1] == rev_offsets@[a] + in_degrees@[a],
                forall|a: int, b: int| 0 <= a <= b <= n ==> #[trigger] rev_offsets@[a] <= #[trigger] rev_offsets@[b],
                forall|x: int| 0 <= x < n ==> #[trigger] cur@[x] == occurrences(t.subrange(e0, i as int), x as u32),
                forall|x: int, j: int| 0 <= x < n && 0 <= j < cur@[x] ==> #[trigger] rev_targets@[rev_offsets@[x] + j] == #[trigger] partial_sources(o, t, v as int, i as int, x as u32)[j],
                forall|p: int| 0 <= p < rev_targets@.len() ==> (#[trigger] rev_targets@[p] as int) < n,
            decreases end - i,
        {
            let y = targets[i];
            let ghost cur0 = cur@;
            let ghost rt0 = rev_targets@;
            proof {
                fill_step_bound(o, t, n as int, e0, i as int, y, cur0, in_degrees@);
                assert(rev_offsets@[y as int + 1] <= total);
            }
            let pos = rev_offsets[y as usize] as usize + cur[y as usize] as usize;
            rev_targets.set(pos, v as u32);
            let c = cur[y as usize];
            cur.set(y as usize, c + 1);
            proof {
                lemma_fill_step(o, t, n as int, v as int, i as int, y, rev_offsets@, in_degrees@, cur0, cur@, rt0, rev_targets@);
            }
            i = i + 1;
        }
        proof {
            assert forall|x: int, j: int| 0 <= x < n && 0 <= j < cur@[x] implies #[trigger] rev_targets@[rev_offsets@[x] + j] == #[trigger] sources_upto(o, t, v + 1, x as u32)[j] by {
                assert(partial_sources(o, t, v as int, end as int, x as u32) =~= sources_upto(o, t, v + 1, x as u32));
            }
        }
        v = v + 1;
    }
    proof {
        assert forall|x: int| 0 <= x < n implies #[trigger] csr_slice(rev_offsets@, rev_targets@, x) == sources_upto(o, t, n as int, x as u32) by {
            lemma_fill_done(o, t, n as int, x, rev_offsets@, in_degrees@, cur@, rev_targets@);
        }
        assert forall|a: int| 0 <= a < n implies #[trigger] rev_offsets@[a] <= rev_offsets@[a + 1] by {}
    }
    (rev_offsets, rev_targets)
}

/// One step of the fill: the next edge `v -> y` goes to the next free slot
/// of `y`; every other slot keeps its entry.
#[verifier::rlimit(80)]
proof fn lemma_fill_step(
    o: Seq<u32>,
    t: Seq<u32>,
    n: int,
    v: int,
    i: int,
    y: u32,
    r: Seq<u32>,
    deg: Seq<u32>,
    cur0: Seq<u32>,
    cur1: Seq<u32>,
    rt0: Seq<u32>,
    rt1: Seq<u32>,
)
    requires
        csr_ok(o, t, n),
        n <= 0xffff_ffff,
        0 <= v < n,
        o[v] <= i < o[v + 1],
        y == t[i],
        (y as int) < n,
        r.len() == n + 1,
        deg.len() == n,
        cur0.len() == n,
        forall|a: int| 0 <= a < n ==> #[trigger] r[a + 1] == r[a] + deg[a],
        forall|a: int, b: int| 0 <= a <= b <= n ==> #[trigger] r[a] <= #[trigger] r[b],
        cur0[y as int] < deg[y as int],
        forall|x: int| 0 <= x < n ==> #[trigger] deg[x] == occurrences(t.subrange(o[0] as int, o[n] as int), x as u32),
        forall|x: int| 0 <= x < n ==> #[trigger] cur0[x] == occurrences(t.subrange(o[0] as int, i), x as u32),
        forall|x: int, j: int| 0 <= x < n && 0 <= j < cur0[x] ==> #[trigger] rt0[r[x] + j] == #[trigger] partial_sources(o, t, v, i, x as u32)[j],
        forall|p: int| 0 <= p < rt0.len() ==> (#[trigger] rt0[p] as int) < n,
        rt0.len() == r[n],
        cur1 == cur0.update(y as int, (cur0[y as int] + 1) as u32),
        rt1 == rt0.update(r[y as int] + cur0[y as int], v as u32),
    ensures
        forall|x: int| 0 <= x < n ==> #[trigger] cur1[x] == occurrences(t.subrange(o[0] as int, i + 1), x as u32),
        forall|x: int, j: int| 0 <= x < n && 0 <= j < cur1[x] ==> #[trigger] rt1[r[x] + j] == #[trigger] partial_sources(o, t, v, i + 1, x as u32)[j],
        forall|p: int| 0 <= p < rt1.len() ==> (#[trigger] rt1[p] as int) < n,
{
    let e0 = o[0] as int;
    lemma_offsets_monotone(o, t, n, 0, v);
    lemma_offsets_monotone(o, t, n, v + 1, n);
    assert(t.subrange(e0, i + 1) =~= t.subrange(e0, i).push(y));
    assert(t.subrange(o[v] as int, i + 1) =~= t.subrange(o[v] as int, i).push(y));
    assert(r[y as int + 1] <= r[n]);
    let p = r[y as int] + cur0[y as int];
    assert(0 <= p < rt0.len());
    assert forall|x: int| 0 <= x < n implies #[trigger] cur1[x] == occurrences(t.subrange(e0, i + 1), x as u32) by {
        lemma_occurrences_push(t.subrange(e0, i), y, x as u32);
    }
    assert forall|x: int, j: int| 0 <= x < n && 0 <= j < cur1[x] implies #[trigger] rt1[r[x] + j] == #[trigger] partial_sources(o, t, v, i + 1, x as u32)[j] by {
        let yi = y as int;
        assert(r[x + 1] == r[x] + deg[x]);
        assert(r[yi + 1] == r[yi] + deg[yi]);
        assert(r[x + 1] <= r[n]);
        assert(r[yi + 1] <= r[n]);
        if x < yi {
            assert(r[x + 1] <= r[yi]);
        }
        if yi < x {
            assert(r[yi + 1] <= r[x]);
        }
        assert(t.subrange(e0, o[n] as int) =~= t.subrange(e0, i) + t.subrange(i, o[n] as int));
        lemma_occurrences_concat(t.subrange(e0, i), t.subrange(i, o[n] as int), x as u32);
        assert(cur0[x] <= deg[x]);
        assert forall|jj: int| 0 <= jj < cur0[x] implies #[trigger] rt0[r[x] + jj] == partial_sources(o, t, v, i, x as u32)[jj] by {
            assert(rt0[r[x] + jj] == partial_sources(o, t, v, i, x as u32)[jj]);
        }
        lemma_partial_len(o, t, n, v, i, x as u32);
        assert(o[v] <= o[v + 1] <= o[n] <= t.len());
        lemma_fill_slot(o, t, n, v, i, y, r, deg, cur0, cur1, rt0, rt1, x, j);
    }
}

/// The slot `j` of `x` after one step of the fill.
proof fn lemma_fill_slot(
    o: Seq<u32>,
    t: Seq<u32>,
    n: int,
    v: int,
    i: int,
    y: u32,
    r: Seq<u32>,
    deg: Seq<u32>,
    cur0: Seq<u32>,
    cur1: Seq<u32>,
    rt0: Seq<u32>,
    rt1: Seq<u32>,
    x: int,
    j: int,
)
    requires
        n <= 0xffff_ffff,
        0 <= v < n,
        0 <= o[v] <= i < t.len(),
        y == t[i],
        (y as int) < n,
        r.len() == n + 1,
        deg.len() == n,
        cur0.len() == n,
        0 <= x < n,
        0 <= j < cur1[x],
        partial_sources(o, t, v, i, x as u32).len() == cur0[x],
        r[x + 1] == r[x] + deg[x],
        r[y as int + 1] == r[y as int] + deg[y as int],
        r[x + 1] <= r[n],
        r[y as int + 1] <= r[n],
        x < y ==> r[x + 1] <= r[y as int],
        y < x ==> r[y as int + 1] <= r[x],
        cur0[y as int] < deg[y as int],
        cur0[x] <= deg[x],
        cur0[x] == occurrences(t.subrange(o[0] as int, i), x as u32),
        forall|jj: int| 0 <= jj < cur0[x] ==> #[trigger] rt0[r[x] + jj] == partial_sources(o, t, v, i, x as u32)[jj],
        rt0.len() == r[n],
        cur1 == cur0.update(y as int, (cur0[y as int] + 1) as u32),
        rt1 == rt0.update(r[y as int] + cur0[y as int], v as u32),
    ensures
        rt1[r[x] + j] == partial_sources(o, t, v, i + 1, x as u32)[j],
{
    assert(t.subrange(o[v] as int, i + 1) =~= t.subrange(o[v] as int, i).push(y));
    let p = r[y as int] + cur0[y as int];
    let ps0 = partial_sources(o, t, v, i, x as u32);
    let ps1 = partial_sources(o, t, v, i + 1, x as u32);
    lemma_occurrences_push(t.subrange(o[v] as int, i), y, x as u32);
    if x == y as int {
        assert(ps1 =~= ps0.push(v as u32));
        if j < cur0[x] {
            assert(r[x] + j < p);
            assert(rt1[r[x] + j] == rt0[r[x] + j]);
        }
    } else {
        assert(x as u32 != y);
        assert(ps1 =~= ps0);
        assert(r[x] + j < r[x + 1]);
        assert(r[x] + j != p);
        assert(r[x] + j < rt0.len());
        assert(rt1[r[x] + j] == rt0[r[x] + j]);
    }
}

/// Once every vertex has been read, the slots of `x` hold exactly its
/// in-neighbours.
#[verifier::spinoff_prover]
proof fn lemma_fill_done(o: Seq<u32>, t: Seq<u32>, n: int, x: int, r: Seq<u32>, deg: Seq<u32>, cur: Seq<u32>, rt: Seq<u32>)
    requires
        csr_ok(o, t, n),
        n <= 0xffff_ffff,
        0 <= x < n,
        r.len() == n + 1,
        deg.len() == n,
        cur.len() == n,
        forall|a: int| 0 <= a < n ==> #[trigger] r[a + 1] == r[a] + deg[a],
        forall|a: int, b: int| 0 <= a <= b <= n ==> #[trigger] r[a] <= #[trigger] r[b],
        rt.len() == r[n],
        forall|y: int| 0 <= y < n ==> #[trigger] deg[y] == occurrences(t.subrange(o[0] as int, o[n] as int), y as u32),
        forall|y: int| 0 <= y < n ==> #[trigger] cur[y] == occurrences(t.subrange(o[0] as int, o[n] as int), y as u32),
        forall|y: int, j: int| 0 <= y < n && 0 <= j < cur[y] ==> #[trigger] rt[r[y] + j] == #[trigger] sources_upto(o, t, n, y as u32)[j],
    ensures
        csr_slice(r, rt, x) == sources_upto(o, t, n, x as u32),
{
    lemma_sources_len(o, t, n, n, x as u32);
    assert(r[x + 1] <= r[n]);
    assert(cur[x] == deg[x]);
    assert forall|j: int| 0 <= j < deg[x] implies #[trigger] csr_slice(r, rt, x)[j] == sources_upto(o, t, n, x as u32)[j] by {
        assert(rt[r[x] + j] == sources_upto(o, t, n, x as u32)[j]);
    }
    assert(csr_slice(r, rt, x) =~= sources_upto(o, t, n, x as u32));
}

/// While filling, the slot for the next in-neighbour of `y` lies below the
/// in-degree of `y`.
proof fn fill_step_bound(o: Seq<u32>, t: Seq<u32>, n: int, e0: int, i: int, y: u32, cur: Seq<u32>, deg: Seq<u32>)
    requires
        csr_ok(o, t, n),
        e0 == o[0],
        e0 <= i < o[n],
        y == t[i],
        cur.len() == n,
        deg.len() == n,
        forall|x: int| 0 <= x < n ==> #[trigger] deg[x] == occurrences(t.subrange(e0, o[n] as int), x as u32),
        forall|x: int| 0 <= x < n ==> #[trigger] cur[x] == occurrences(t.subrange(e0, i), x as u32),
    ensures
        (y as int) < n,
        cur[y as int] < deg[y as int],
{
    let all = t.subrange(e0, o[n] as int);
    assert(t.subrange(e0, i + 1) =~= t.subrange(e0, i).push(y));
    lemma_occurrences_push(t.subrange(e0, i), y, y);
    assert(all =~= t.subrange(e0, i + 1) + t.subrange(i + 1, o[n] as int));
    lemma_occurrences_concat(t.subrange(e0, i + 1), t.subrange(i + 1, o[n] as int), y);
}

/// The in-neighbours of `x` found up to position `i` inside the targets of
/// `v` are as many as the occurrences of `x` before `i`.
#[verifier::spinoff_prover]
proof fn lemma_partial_len(o: Seq<u32>, t: Seq<u32>, n: int, v: int, i: int, x: u32)
    requires
        csr_ok(o, t, n),
        0 <= v < n,
        o[v] <= i <= o[v + 1],
    ensures
        partial_sources(o, t, v, i, x).len() == occurrences(t.subrange(o[0] as int, i), x),
{
    let ps = partial_sources(o, t, v, i, x);
    lemma_offsets_monotone(o, t, n, 0, v);
    lemma_offsets_monotone(o, t, n, v + 1, n);
    lemma_sources_len(o, t, n, v, x);
    assert(ps.len() == sources_upto(o, t, v, x).len() + occurrences(t.subrange(o[v] as int, i), x));
    lemma_offsets_monotone(o, t, n, 0, v);
    assert(t.subrange(o[0] as int, i) =~= t.subrange(o[0] as int, o[v] as int) + t.subrange(o[v] as int, i));
    lemma_occurrences_concat(t.subrange(o[0] as int, o[v] as int), t.subrange(o[v] as int, i), x);
}

proof fn lemma_occurrences_below_mono(s: Seq<u32>, a: int, b: int)
    requires
        0 <= a <= b,
    ensures
        occurrences_below(s, a) <= occurrences_below(s, b),
    decreases b - a,
{
    if a < b {
        lemma_occurrences_below_mono(s, a, b - 1);
    }
}

proof fn lemma_prefix_monotone(r: Seq<u32>, d: Seq<u32>, n: int)
    requires
        r.len() == n + 1,
        d.len() == n,
        forall|a: int| 0 <= a < n ==> #[trigger] r[a + 1] == r[a] + d[a],
    ensures
        forall|a: int, b: int| 0 <= a <= b <= n ==> #[trigger] r[a] <= #[trigger] r[b],
{
    assert forall|a: int, b: int| 0 <= a <= b <= n implies #[trigger] r[a] <= #[trigger] r[b] by {
        lemma_prefix_monotone_pair(r, d, n, a, b);
    }
}

proof fn lemma_prefix_monotone_pair(r: Seq<u32>, d: Seq<u32>, n: int, a: int, b: int)
    requires
        r.len() == n + 1,
        d.len() == n,
        forall|a: int| 0 <= a < n ==> #[trigger] r[a + 1] == r[a] + d[a],
        0 <= a <= b <= n,
    ensures
        r[a] <= r[b],
    decreases b - a,
{
    if a < b {
        lemma_prefix_monotone_pair(r, d, n, a, b - 1);
        assert(r[(b - 1) + 1] == r[b - 1] + d[b - 1]);
    }
}


/// The `far` ends of the first `k` pairs `(near[i], far[i])` whose `near`
/// end is `x`, in pair order.
pub open spec fn far_ends<T>(near: Seq<T>, far: Seq<T>, x: T, k: int) -> Seq<T>
    decreases k,
{
    if k <= 0 {
        Seq::empty()
    } else {
        far_ends(near, far, x, k - 1) + if near[k - 1] == x {
            seq![far[k - 1]]
        } else {
            Seq::empty()
        }
    }
}

/// Vertex numbers `n .. n + e`, one for each of `e` pairs.
spec fn pair_slots(n: int, e: int) -> Seq<u32> {
    Seq::new(e as nat, |i: int| (n + i) as u32)
}

/// The far end that pair vertex `s` stands for (`0` for a vertex that
/// stands for no pair).
spec fn pair_far(far: Seq<u32>, n: int, e: int, s: u32) -> u32 {
    if n <= s < n + e {
        far[s - n]
    } else {
        0
    }
}

/// In a CSR adjacency whose first `n + 1` offsets are zero, the vertices
/// below `n` have no edges.
proof fn lemma_pair_rows_empty(h: Seq<u32>, near: Seq<u32>, n: int, x: u32, j: int)
    requires
        0 <= j <= n,
        h.len() > n,
        forall|v: int| 0 <= v <= n ==> #[trigger] h[v] == 0,
    ensures
        sources_upto(h, near, j, x) == Seq::<u32>::empty(),
    decreases j,
{
    if j > 0 {
        lemma_pair_rows_empty(h, near, n, x, j - 1);
        assert(csr_slice(h, near, j - 1) =~= Seq::<u32>::empty());
        assert(sources_upto(h, near, j, x) =~= Seq::<u32>::empty());
    }
}

/// In the pair graph (vertex `n + i` has the single edge `n + i -> near[i]`),
/// the in-neighbours of `x` are the pair vertices of the pairs with near
/// end `x`.
proof fn lemma_pair_rows(h: Seq<u32>, near: Seq<u32>, n: int, e: int, x: u32, k: int)
    requires
        0 <= k <= e,
        0 <= n,
        n + e <= 0xffff_ffff,
        near.len() >= e,
        h.len() == n + e + 1,
        forall|v: int| 0 <= v <= n + e ==> #[trigger] h[v] == (if v <= n { 0 } else { v - n }),
    ensures
        sources_upto(h, near, n + k, x) == far_ends(near, pair_slots(n, e), x, k),
    decreases k,
{
    let slots = pair_slots(n, e);
    if k == 0 {
        lemma_pair_rows_empty(h, near, n, x, n);
    } else {
        lemma_pair_rows(h, near, n, e, x, k - 1);
        let row = csr_slice(h, near, n + k - 1);
        assert(h[n + k - 1] == k - 1);
        assert(h[n + k] == k);
        assert(row =~= seq![near[k - 1]]);
        assert(row.drop_last() =~= Seq::<u32>::empty());
        assert(occurrences(Seq::<u32>::empty(), x) == 0);
        assert(occurrences(row, x) == if near[k - 1] == x { 1nat } else { 0nat });
        let tail = Seq::new(occurrences(row, x), |j: int| (n + k - 1) as u32);
        if near[k - 1] == x {
            assert(tail =~= seq![slots[k - 1]]);
        } else {
            assert(tail =~= Seq::<u32>::empty());
        }
        assert(sources_upto(h, near, n + k, x) =~= far_ends(near, slots, x, k));
    }
}

/// Reading the pair vertices back as far ends.
proof fn lemma_pair_far(near: Seq<u32>, far: Seq<u32>, n: int, e: int, x: u32, k: int)
    requires
        0 <= k <= e,
        0 <= n,
        n + e <= 0xffff_ffff,
        near.len() >= e,
        far.len() >= e,
    ensures
        forall|j: int| 0 <= j < far_ends(near, pair_slots(n, e), x, k).len() ==>
            n <= #[trigger] far_ends(near, pair_slots(n, e), x, k)[j] < n + k,
        far_ends(near, pair_slots(n, e), x, k).map_values(|s: u32| pair_far(far, n, e, s)) == far_ends(near, far, x, k),
    decreases k,
{
    let slots = pair_slots(n, e);
    if k > 0 {
        lemma_pair_far(near, far, n, e, x, k - 1);
        let prev = far_ends(near, slots, x, k - 1);
        let cur = far_ends(near, slots, x, k);
        assert forall|j: int| 0 <= j < cur.len() implies n <= #[trigger] cur[j] < n + k by {
            if j < prev.len() {
                assert(cur[j] == prev[j]);
            } else {
                assert(cur[j] == slots[k - 1]);
            }
        }
        assert(cur.map_values(|s: u32| pair_far(far, n, e, s)) =~= far_ends(near, far, x, k)) by {
            let lhs = cur.map_values(|s: u32| pair_far(far, n, e, s));
            let rhs = far_ends(near, far, x, k);
            let p2 = prev.map_values(|s: u32| pair_far(far, n, e, s));
            assert forall|j: int| 0 <= j < lhs.len() implies lhs[j] == rhs[j] by {
                if j < prev.len() {
                    assert(lhs[j] == p2[j]);
                } else {
                    assert(cur[j] == slots[k - 1]);
                }
            }
        }
    }
}

/// CSR adjacency of the pairs `(near[i], far[i])` over `n` vertices: row
/// `x` lists the far ends of the pairs whose near end is `x`, in pair
/// order.
pub fn csr_from_pairs(near: &Vec<u32>, far: &Vec<u32>, n: usize) -> (r: (Vec<u32>, Vec<u32>))
    requires
        near@.len() == far@.len(),
        n + near@.len() < 0xffff_ffff,
        forall|i: int| 0 <= i < near@.len() ==> (#[trigger] near@[i] as int) < n && (far@[i] as int) < n,
    ensures
        csr_ok(r.0@, r.1@, n as int),
        r.0@[0] == 0,
        r.0@[n as int] <= near@.len(),
        forall|x: int| 0 <= x < n ==> #[trigger] csr_slice(r.0@, r.1@, x) == far_ends(
            near@,
            far@,
            x as u32,
            near@.len() as int,
        ),
{
    let e = near.len();
    let m = n + e;
    let mut h: Vec<u32> = Vec::new();
    let mut v: usize = 0;
    while v <= n
        invariant
            v <= n + 1,
            n + e < 0xffff_ffff,
            h@.len() == v,
            forall|j: int| 0 <= j < v ==> #[trigger] h@[j] == 0,
        decreases n + 1 - v,
    {
        h.push(0);
        v = v + 1;
    }
    let mut k: usize = 0;
    while k < e
        invariant
            k <= e,
            e == near@.len(),
            n + e <= 0xffff_ffff,
            h@.len() == n + 1 + k,
            forall|j: int| 0 <= j < n + 1 + k ==> #[trigger] h@[j] == (if j <= n { 0 } else { j - n }),
        decreases e - k,
    {
        h.push((k + 1) as u32);
        k = k + 1;
    }
    let ghost hs = h@;
    proof {
        assert forall|i: int| hs[0] <= i < hs[m as int] implies (#[trigger] near@[i] as int) < m by {}
        assert(csr_ok(hs, near@, m as int));
    }
    let (ro, rt) = reverse_csr(h.as_slice(), near.as_slice(), m);
    let ghost fe = far@;
    let mut t: Vec<u32> = Vec::new();
    let mut j: usize = 0;
    while j < rt.len()
        invariant
            j <= rt@.len(),
            t@.len() == j,
            fe == far@,
            e == far@.len(),
            forall|i: int| 0 <= i < j ==> #[trigger] t@[i] == pair_far(fe, n as int, e as int, rt@[i]),
        decreases rt@.len() - j,
    {
        let s = rt[j];
        let f = if s as usize >= n && (s as usize) - n < e {
            far[s as usize - n]
        } else {
            0
        };
        t.push(f);
        j = j + 1;
    }
    proof {
        lemma_offsets_monotone(ro@, rt@, m as int, n as int, m as int);
        assert forall|i: int| ro@[0] <= i < ro@[n as int] implies (#[trigger] t@[i] as int) < n by {
            assert(t@[i] == pair_far(fe, n as int, e as int, rt@[i]));
            let s = rt@[i];
            if n <= s < n + e {
                assert((near@[s - n] as int) < n);
            } else {
                assert(n != 0);
            }
        }
        assert forall|x: int| 0 <= x < n implies #[trigger] csr_slice(ro@, t@, x) == far_ends(
            near@,
            far@,
            x as u32,
            e as int,
        ) by {
            lemma_pair_rows(hs, near@, n as int, e as int, x as u32, e as int);
            lemma_pair_far(near@, far@, n as int, e as int, x as u32, e as int);
            lemma_offsets_monotone(ro@, rt@, m as int, x, x + 1);
            lemma_offsets_monotone(ro@, rt@, m as int, x + 1, m as int);
            let src = csr_slice(ro@, rt@, x);
            let mapped = src.map_values(|s: u32| pair_far(fe, n as int, e as int, s));
            assert forall|i: int| 0 <= i < mapped.len() implies #[trigger] csr_slice(ro@, t@, x)[i] == mapped[i] by {
                assert(t@[ro@[x] + i] == pair_far(fe, n as int, e as int, rt@[ro@[x] + i]));
            }
            assert(csr_slice(ro@, t@, x) =~= mapped);
        }
    }
    (ro, t)
}

} // verus!
