//! Properties of the heap that span its operations.
use vstd::prelude::*;

use super::heap::{carve_blocks, merge_hi, merge_lo, merged_block, release_blocks, HeapInner};
use super::layout::{block_end, block_ok, layout_ok, lemma_ordered, lemma_replace, BlockView};

verus! {

/// No two neighbouring blocks are both free.
pub open spec fn coalesced(blocks: Seq<BlockView>) -> bool {
    forall|i: int| 0 <= i < blocks.len() - 1 ==> !#[trigger] free_pair(blocks, i)
}

/// Blocks `i` and `i + 1` are both free.
pub open spec fn free_pair(blocks: Seq<BlockView>, i: int) -> bool {
    !blocks[i].occupied && !blocks[i + 1].occupied
}

/// Handing out a free block keeps neighbouring free blocks apart: a split leaves its
/// free remainder next to the block that followed the free block, which was occupied.
pub proof fn law_alloc_coalesced(blocks: Seq<BlockView>, i: int, need: int)
    requires
        coalesced(blocks),
        1 <= i < blocks.len(),
        !blocks[i].occupied,
    ensures
        coalesced(carve_blocks(blocks, i, need)),
{
    let nb = carve_blocks(blocks, i, need);
    if blocks[i].cap >= need + 16 {
        assert forall|j: int| 0 <= j < nb.len() - 1 implies !#[trigger] free_pair(nb, j) by {
            if j < i - 1 {
                assert(nb[j] == blocks[j]);
                assert(nb[j + 1] == blocks[j + 1]);
                assert(!free_pair(blocks, j));
            } else if j == i - 1 {
                assert(nb[j] == blocks[j]);
            } else if j == i {
            } else if j == i + 1 {
                assert(nb[j + 1] == blocks[i + 1]);
                assert(!free_pair(blocks, i));
            } else {
                assert(nb[j] == blocks[j - 1]);
                assert(nb[j + 1] == blocks[j]);
                assert(!free_pair(blocks, j - 1));
            }
        }
    } else {
        assert forall|j: int| 0 <= j < nb.len() - 1 implies !#[trigger] free_pair(nb, j) by {
            assert(nb[j] == blocks[j] || j == i);
            if j + 1 != i && j != i {
                assert(nb[j + 1] == blocks[j + 1]);
                assert(!free_pair(blocks, j));
            }
        }
    }
}

/// Releasing a block coalesces it with its free neighbours, so no two neighbouring
/// blocks are free afterwards either.
pub proof fn law_release_coalesced(blocks: Seq<BlockView>, i: int)
    requires
        coalesced(blocks),
        1 <= i < blocks.len(),
        blocks[0].occupied,
        blocks[i].occupied,
    ensures
        coalesced(release_blocks(blocks, i)),
{
    let lo = merge_lo(blocks, i);
    let hi = merge_hi(blocks, i);
    let nb = release_blocks(blocks, i);
    let d = hi - lo;
    assert forall|j: int| 0 <= j < nb.len() - 1 implies !#[trigger] free_pair(nb, j) by {
        if j < lo - 1 {
            assert(nb[j] == blocks[j]);
            assert(nb[j + 1] == blocks[j + 1]);
            assert(!free_pair(blocks, j));
        } else if j == lo - 1 {
            assert(nb[j] == blocks[j]);
            if lo < i {
                assert(!free_pair(blocks, i - 2));
            }
        } else if j == lo {
            assert(nb[j + 1] == blocks[hi + 1]);
            if hi > i {
                assert(!free_pair(blocks, i + 1));
            }
        } else {
            assert(nb[j] == blocks[j + d]);
            assert(nb[j + 1] == blocks[j + d + 1]);
            assert(!free_pair(blocks, j + d));
        }
    }
}

/// Appending an occupied block keeps neighbouring free blocks apart.
pub proof fn law_extend_coalesced(blocks: Seq<BlockView>, b: BlockView)
    requires
        coalesced(blocks),
        b.occupied,
    ensures
        coalesced(blocks.push(b)),
{
    let nb = blocks.push(b);
    assert forall|j: int| 0 <= j < nb.len() - 1 implies !#[trigger] free_pair(nb, j) by {
        assert(nb[j] == blocks[j]);
        if j + 1 < blocks.len() {
            assert(nb[j + 1] == blocks[j + 1]);
            assert(!free_pair(blocks, j));
        }
    }
}

/// The heap holds an occupied block with header at `start` and capacity `cap`.
pub open spec fn holds(blocks: Seq<BlockView>, start: int, cap: int) -> bool {
    exists|j: int| 1 <= j < blocks.len() && #[trigger] blocks[j] == (BlockView { start, cap, occupied: true })
}

/// Two live allocations never overlap, and each lies inside the heap: the payload of
/// an allocation at `a` with capacity `ca` is `[a, a + ca)`.
pub proof fn law_allocations_disjoint<A>(h: HeapInner<A>, a: int, ca: int, b: int, cb: int)
    requires
        h.wf(),
        holds(h.blocks(), a - 8, ca),
        holds(h.blocks(), b - 8, cb),
        a != b,
    ensures
        a + ca <= b || b + cb <= a,
        h.start() < a && a + ca <= h.end(),
{
    h.lemma_layout();
    let blocks = h.blocks();
    let ja = choose|j: int| 1 <= j < blocks.len() && #[trigger] blocks[j] == (BlockView { start: a - 8, cap: ca, occupied: true });
    let jb = choose|j: int| 1 <= j < blocks.len() && #[trigger] blocks[j] == (BlockView { start: b - 8, cap: cb, occupied: true });
    assert(block_ok(blocks[ja], h.start(), h.end()));
    if ja < jb {
        lemma_ordered(blocks, h.start(), h.end(), ja, jb);
    } else if jb < ja {
        lemma_ordered(blocks, h.start(), h.end(), jb, ja);
    }
}

/// Handing out a free block leaves every live allocation where it was, with the
/// same capacity.
pub proof fn law_alloc_keeps_allocations(blocks: Seq<BlockView>, i: int, need: int, start: int, cap: int)
    requires
        1 <= i < blocks.len(),
        !blocks[i].occupied,
        holds(blocks, start, cap),
    ensures
        holds(carve_blocks(blocks, i, need), start, cap),
{
    let j = choose|j: int| 1 <= j < blocks.len() && #[trigger] blocks[j] == (BlockView { start, cap, occupied: true });
    let nb = carve_blocks(blocks, i, need);
    assert(j != i);
    if blocks[i].cap >= need + 16 {
        if j < i {
            assert(nb[j] == blocks[j]);
        } else {
            assert(nb[j + 1] == blocks[j]);
        }
    } else {
        assert(nb[j] == blocks[j]);
    }
}

/// Releasing one allocation leaves every other live allocation where it was, with
/// the same capacity.
pub proof fn law_release_keeps_allocations(blocks: Seq<BlockView>, i: int, start: int, cap: int)
    requires
        1 <= i < blocks.len(),
        blocks[0].occupied,
        blocks[i].occupied,
        start != blocks[i].start,
        holds(blocks, start, cap),
    ensures
        holds(release_blocks(blocks, i), start, cap),
{
    let j = choose|j: int| 1 <= j < blocks.len() && #[trigger] blocks[j] == (BlockView { start, cap, occupied: true });
    let lo = merge_lo(blocks, i);
    let hi = merge_hi(blocks, i);
    let nb = release_blocks(blocks, i);
    assert(j < lo || j > hi);
    if j < lo {
        assert(nb[j] == blocks[j]);
    } else {
        assert(nb[j - (hi - lo)] == blocks[j]);
    }
}

/// After an allocation is released, its address is no longer handed out.
pub proof fn law_release_frees(blocks: Seq<BlockView>, token: int, end: int, i: int)
    requires
        layout_ok(blocks, token, end),
        1 <= i < blocks.len(),
        blocks[i].occupied,
    ensures
        forall|cap: int| !holds(release_blocks(blocks, i), blocks[i].start, cap),
{
    let lo = merge_lo(blocks, i);
    let hi = merge_hi(blocks, i);
    let nb = release_blocks(blocks, i);
    let mid = seq![merged_block(blocks, i)];
    assert(blocks[0].occupied);
    assert(block_ok(blocks[lo], token, end));
    assert(block_ok(blocks[hi], token, end));
    assert(block_ok(blocks[i], token, end));
    if lo < i {
        lemma_ordered(blocks, token, end, lo, i);
    }
    if i < hi {
        lemma_ordered(blocks, token, end, i, hi);
    }
    assert forall|cap: int| !holds(nb, blocks[i].start, cap) by {
        if holds(nb, blocks[i].start, cap) {
            let j = choose|j: int| 1 <= j < nb.len() && #[trigger] nb[j] == (BlockView { start: blocks[i].start, cap, occupied: true });
            if j < lo {
                assert(nb[j] == blocks[j]);
                lemma_ordered(blocks, token, end, j, i);
                assert(block_ok(blocks[j], token, end));
            } else if j == lo {
                assert(nb[j] == merged_block(blocks, i));
            } else {
                let j0 = j + (hi - lo);
                assert(nb[j] == blocks[j0]);
                lemma_ordered(blocks, token, end, i, j0);
            }
        }
    }
}

/// Releasing a block right after it was handed out restores the blocks as they were:
/// the block is free again with its former capacity (a split-off remainder merges back
/// into it), so the free blocks are again the same.
pub proof fn law_release_undoes_alloc(blocks: Seq<BlockView>, i: int, need: int)
    requires
        coalesced(blocks),
        1 <= i < blocks.len(),
        blocks[0].occupied,
        !blocks[i].occupied,
        need <= blocks[i].cap,
    ensures
        release_blocks(carve_blocks(blocks, i, need), i) =~= blocks,
{
    let b = blocks[i];
    let c = carve_blocks(blocks, i, need);
    assert(blocks[i - 1].occupied) by {
        assert(!free_pair(blocks, i - 1));
    }
    if b.cap >= need + 16 {
        assert(c[i - 1] == blocks[i - 1]);
        assert(c[i] == BlockView { start: b.start, cap: need, occupied: true });
        assert(c[i + 1] == BlockView { start: b.start + need + 8, cap: b.cap - need - 8, occupied: false });
        assert(merge_lo(c, i) == i);
        assert(merge_hi(c, i) == i + 1);
        assert(merged_block(c, i) == b);
        assert(c.skip(i + 2) =~= blocks.skip(i + 1));
        assert(c.take(i) =~= blocks.take(i));
        assert(blocks =~= blocks.take(i) + seq![b] + blocks.skip(i + 1));
    } else {
        assert(c[i - 1] == blocks[i - 1]);
        assert(merge_lo(c, i) == i);
        if i + 1 < blocks.len() {
            assert(!free_pair(blocks, i));
            assert(c[i + 1] == blocks[i + 1]);
        }
        assert(merge_hi(c, i) == i);
        assert(merged_block(c, i) == b);
        assert(c.skip(i + 1) =~= blocks.skip(i + 1));
        assert(c.take(i) =~= blocks.take(i));
        assert(blocks =~= blocks.take(i) + seq![b] + blocks.skip(i + 1));
    }
}

} // verus!
