//! Abstract view of the heap: the blocks in address order, which tile the heap.
use vstd::prelude::*;

use super::meta::MAX_CAPACITY;

verus! {

/// One block of the heap: the address of its header word, its capacity in bytes and
/// whether it is handed out. Its footer word sits at `start + cap`, and the block
/// ends (the next block starts) at `start + cap + 8`.
pub struct BlockView {
    pub start: int,
    pub cap: int,
    pub occupied: bool,
}

pub open spec fn block_tail(b: BlockView) -> int {
    b.start + b.cap
}

pub open spec fn block_end(b: BlockView) -> int {
    b.start + b.cap + 8
}

/// A block lies word-aligned inside `[token, end)` and has a representable capacity.
pub open spec fn block_ok(b: BlockView, token: int, end: int) -> bool {
    &&& 8 <= b.cap <= MAX_CAPACITY
    &&& b.cap % 8 == 0
    &&& token <= b.start
    &&& block_end(b) <= end
    &&& (b.start - token) % 8 == 0
}

/// The blocks tile `[token, end)` in address order; the first one is the sentinel
/// (root) block of capacity 8, which is always occupied.
pub open spec fn layout_ok(blocks: Seq<BlockView>, token: int, end: int) -> bool {
    &&& blocks.len() >= 1
    &&& blocks[0] == (BlockView { start: token, cap: 8, occupied: true })
    &&& forall|i: int| 0 <= i < blocks.len() ==> #[trigger] block_ok(blocks[i], token, end)
    &&& forall|i: int|
        0 <= i < blocks.len() - 1 ==> blocks[i + 1].start == #[trigger] block_end(blocks[i])
    &&& block_end(blocks.last()) == end
}

/// The position of the block that starts at `x`.
pub open spec fn index_of_start(blocks: Seq<BlockView>, x: int) -> int {
    choose|i: int| 0 <= i < blocks.len() && blocks[i].start == x
}

/// `x` is the start of a free (non-root) block.
pub open spec fn is_free_start(blocks: Seq<BlockView>, x: int) -> bool {
    exists|i: int| 1 <= i < blocks.len() && #[trigger] blocks[i].start == x && !blocks[i].occupied
}

/// Blocks further right lie entirely after blocks further left.
pub proof fn lemma_ordered(blocks: Seq<BlockView>, token: int, end: int, i: int, j: int)
    requires
        layout_ok(blocks, token, end),
        0 <= i < j < blocks.len(),
    ensures
        block_end(blocks[i]) <= blocks[j].start,
    decreases j - i,
{
    assert(block_ok(blocks[j - 1], token, end));
    if j > i + 1 {
        lemma_ordered(blocks, token, end, i, j - 1);
    }
}

/// Two blocks with the same start are the same block.
pub proof fn lemma_start_unique(blocks: Seq<BlockView>, token: int, end: int, i: int, j: int)
    requires
        layout_ok(blocks, token, end),
        0 <= i < blocks.len(),
        0 <= j < blocks.len(),
        blocks[i].start == blocks[j].start,
    ensures
        i == j,
{
    assert(block_ok(blocks[i], token, end));
    assert(block_ok(blocks[j], token, end));
    if i < j {
        lemma_ordered(blocks, token, end, i, j);
    } else if j < i {
        lemma_ordered(blocks, token, end, j, i);
    }
}

/// Replacing the blocks `lo..=hi` (not the root) by a chain of blocks that covers the
/// same address range keeps the tiling.
pub proof fn lemma_replace(
    blocks: Seq<BlockView>,
    token: int,
    end: int,
    lo: int,
    hi: int,
    mid: Seq<BlockView>,
)
    requires
        layout_ok(blocks, token, end),
        1 <= lo <= hi < blocks.len(),
        mid.len() >= 1,
        mid[0].start == blocks[lo].start,
        block_end(mid.last()) == block_end(blocks[hi]),
        forall|m: int| 0 <= m < mid.len() ==> #[trigger] block_ok(mid[m], token, end),
        forall|m: int| #![trigger mid[m]] 0 <= m < mid.len() - 1 ==> mid[m + 1].start == block_end(mid[m]),
    ensures
        layout_ok(blocks.take(lo) + mid + blocks.skip(hi + 1), token, end),
        (blocks.take(lo) + mid + blocks.skip(hi + 1)).len() == blocks.len() - (hi - lo + 1) + mid.len(),
{
    let nb = blocks.take(lo) + mid + blocks.skip(hi + 1);
    let ml = mid.len() as int;
    assert(nb.len() == lo + ml + blocks.len() - hi - 1);
    assert forall|i: int| 0 <= i < nb.len() implies #[trigger] block_ok(nb[i], token, end) by {
        if i < lo {
            assert(nb[i] == blocks[i]);
        } else if i < lo + ml {
            assert(nb[i] == mid[i - lo]);
        } else {
            assert(nb[i] == blocks[i - lo - ml + hi + 1]);
        }
    }
    assert forall|i: int| #![trigger nb[i]] 0 <= i < nb.len() - 1 implies nb[i + 1].start == block_end(nb[i]) by {
        if i < lo - 1 {
            assert(nb[i] == blocks[i]);
            assert(nb[i + 1] == blocks[i + 1]);
        } else if i == lo - 1 {
            assert(nb[i] == blocks[i]);
            assert(nb[i + 1] == mid[0]);
        } else if i < lo + ml - 1 {
            assert(nb[i] == mid[i - lo]);
            assert(nb[i + 1] == mid[i - lo + 1]);
        } else if i == lo + ml - 1 {
            assert(nb[i] == mid[ml - 1]);
            assert(nb[i + 1] == blocks[hi + 1]);
        } else {
            assert(nb[i] == blocks[i - lo - ml + hi + 1]);
            assert(nb[i + 1] == blocks[i - lo - ml + hi + 2]);
        }
    }
    assert(nb[0] == blocks[0]);
    if hi + 1 < blocks.len() {
        assert(nb.last() == blocks.last());
    } else {
        assert(nb.last() == mid.last());
        assert(block_end(blocks[hi]) == end);
    }
}

/// Appending a block right after the end extends the tiling to the new end.
pub proof fn lemma_extend(blocks: Seq<BlockView>, token: int, end: int, b: BlockView, new_end: int)
    requires
        layout_ok(blocks, token, end),
        b.start == end,
        block_end(b) == new_end,
        block_ok(b, token, new_end),
    ensures
        layout_ok(blocks.push(b), token, new_end),
{
    let nb = blocks.push(b);
    assert forall|i: int| 0 <= i < nb.len() implies #[trigger] block_ok(nb[i], token, new_end) by {
        if i < blocks.len() {
            assert(nb[i] == blocks[i]);
            assert(block_ok(blocks[i], token, end));
        }
    }
    assert forall|i: int| #![trigger nb[i]] 0 <= i < nb.len() - 1 implies nb[i + 1].start == block_end(nb[i]) by {
        assert(nb[i] == blocks[i]);
        if i < blocks.len() - 1 {
            assert(nb[i + 1] == blocks[i + 1]);
        }
    }
}

} // verus!
