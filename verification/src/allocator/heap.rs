//! The heap proper: a word-addressed model of the heap memory holding the
//! boundary tags, and the first-fit allocation and coalescing release on it.
use vstd::prelude::*;

use super::layout::{
    block_end, block_ok, block_tail, index_of_start, is_free_start, layout_ok, lemma_extend, lemma_ordered,
    lemma_replace, lemma_start_unique, BlockView,
};
use super::laws::{coalesced, law_alloc_coalesced, law_extend_coalesced, law_release_coalesced};
use super::meta::{Meta, MAX_CAPACITY, META_SIZE};

verus! {

/// Largest heap that the 31-bit capacities and the 32-bit relative links can address.
pub const MAX_HEAP_SIZE: usize = 0x8000_0000;

/// Index of the word that holds address `addr`.
pub open spec fn slot(token: int, addr: int) -> int {
    (addr - token) / 8
}

/// `addr` is a word-aligned address inside a heap of `len` words that starts at `token`.
pub open spec fn valid_addr(token: int, len: int, addr: int) -> bool {
    &&& token <= addr < token + 8 * len
    &&& (addr - token) % 8 == 0
}

pub open spec fn meta_at(token: int, mem: Seq<Meta>, addr: int) -> Meta {
    mem[slot(token, addr)]
}

/// Footer address of the block whose header is at `x`, read from the header.
pub open spec fn node_tail(token: int, mem: Seq<Meta>, x: int) -> int {
    x + meta_at(token, mem, x).capacity()
}

pub open spec fn next_idx(j: int, n: int) -> int {
    if j + 1 == n {
        0
    } else {
        j + 1
    }
}

pub open spec fn prev_idx(j: int, n: int) -> int {
    if j == 0 {
        n - 1
    } else {
        j - 1
    }
}

/// The circular free list: the root block followed by the free blocks in list order.
pub open spec fn cycle(token: int, free: Seq<int>) -> Seq<int> {
    seq![token] + free
}

/// Node `j` of the cycle links forward (header) and backward (footer) to its neighbours.
pub open spec fn link_ok_at(token: int, mem: Seq<Meta>, c: Seq<int>, j: int) -> bool {
    &&& meta_at(token, mem, c[j]).rel_ref == c[next_idx(j, c.len() as int)] - token
    &&& meta_at(token, mem, node_tail(token, mem, c[j])).rel_ref == c[prev_idx(j, c.len() as int)] - token
}

pub open spec fn links_ok(token: int, mem: Seq<Meta>, free: Seq<int>) -> bool {
    forall|j: int|
        0 <= j < cycle(token, free).len() ==> #[trigger] link_ok_at(token, mem, cycle(token, free), j)
}

/// Header and footer of a block both record its capacity and status.
pub open spec fn block_meta_ok(token: int, mem: Seq<Meta>, b: BlockView) -> bool {
    &&& meta_at(token, mem, b.start).capacity() == b.cap
    &&& meta_at(token, mem, b.start).occupied() == b.occupied
    &&& meta_at(token, mem, block_tail(b)).capacity() == b.cap
    &&& meta_at(token, mem, block_tail(b)).occupied() == b.occupied
}

pub open spec fn metas_ok(token: int, mem: Seq<Meta>, blocks: Seq<BlockView>) -> bool {
    forall|i: int| 0 <= i < blocks.len() ==> #[trigger] block_meta_ok(token, mem, blocks[i])
}

/// Every entry of the free list is a distinct free block.
pub open spec fn entries_ok(blocks: Seq<BlockView>, free: Seq<int>) -> bool {
    &&& free.no_duplicates()
    &&& forall|k: int| 0 <= k < free.len() ==> #[trigger] is_free_start(blocks, free[k])
}

/// Every free block is on the free list.
pub open spec fn complete(blocks: Seq<BlockView>, free: Seq<int>) -> bool {
    forall|i: int|
        #![trigger blocks[i]]
        1 <= i < blocks.len() && !blocks[i].occupied ==> free.contains(blocks[i].start)
}

/// The memory words, the block layout and the free list agree (except, possibly,
/// for free blocks that are momentarily off the list).
pub open spec fn list_ok(token: int, mem: Seq<Meta>, blocks: Seq<BlockView>, free: Seq<int>) -> bool {
    &&& 8 * mem.len() <= MAX_HEAP_SIZE
    &&& layout_ok(blocks, token, token + 8 * mem.len())
    &&& metas_ok(token, mem, blocks)
    &&& entries_ok(blocks, free)
    &&& links_ok(token, mem, free)
}

/// Distinct word-aligned addresses lie in distinct words.
pub proof fn lemma_slot_distinct(token: int, a: int, b: int)
    requires
        (a - token) % 8 == 0,
        (b - token) % 8 == 0,
        a != b,
    ensures
        slot(token, a) != slot(token, b),
{
}

/// A valid address names a word of the memory.
pub proof fn lemma_slot_in_range(token: int, len: int, a: int)
    requires
        valid_addr(token, len, a),
    ensures
        0 <= slot(token, a) < len,
{
}

/// The `j`-th node of the cycle is a block of the layout: the root for `j == 0`,
/// a free block otherwise; its footer is where its header says.
pub proof fn lemma_node(token: int, mem: Seq<Meta>, blocks: Seq<BlockView>, free: Seq<int>, j: int) -> (i: int)
    requires
        list_ok(token, mem, blocks, free),
        0 <= j < cycle(token, free).len(),
    ensures
        0 <= i < blocks.len(),
        blocks[i].start == cycle(token, free)[j],
        j == 0 ==> i == 0,
        j > 0 ==> i >= 1 && !blocks[i].occupied,
        node_tail(token, mem, cycle(token, free)[j]) == block_tail(blocks[i]),
        block_ok(blocks[i], token, token + 8 * mem.len()),
{
    let c = cycle(token, free);
    if j == 0 {
        assert(block_meta_ok(token, mem, blocks[0]));
        assert(block_ok(blocks[0], token, token + 8 * mem.len()));
        0
    } else {
        assert(c[j] == free[j - 1]);
        assert(is_free_start(blocks, free[j - 1]));
        let i = choose|i: int| 1 <= i < blocks.len() && #[trigger] blocks[i].start == free[j - 1] && !blocks[i].occupied;
        assert(block_meta_ok(token, mem, blocks[i]));
        assert(block_ok(blocks[i], token, token + 8 * mem.len()));
        i
    }
}

/// The header and footer of a cycle node are distinct valid words.
pub proof fn lemma_node_valid(token: int, mem: Seq<Meta>, blocks: Seq<BlockView>, free: Seq<int>, j: int)
    requires
        list_ok(token, mem, blocks, free),
        0 <= j < cycle(token, free).len(),
    ensures
        valid_addr(token, mem.len() as int, cycle(token, free)[j]),
        valid_addr(token, mem.len() as int, node_tail(token, mem, cycle(token, free)[j])),
        cycle(token, free)[j] != node_tail(token, mem, cycle(token, free)[j]),
{
    lemma_node(token, mem, blocks, free, j);
}

/// The header and footer words of distinct nodes are four distinct words, and a
/// node's header and footer are distinct too.
pub proof fn lemma_nodes_distinct(
    token: int,
    mem: Seq<Meta>,
    blocks: Seq<BlockView>,
    free: Seq<int>,
    j1: int,
    j2: int,
)
    requires
        list_ok(token, mem, blocks, free),
        0 <= j1 < cycle(token, free).len(),
        0 <= j2 < cycle(token, free).len(),
        j1 != j2,
    ensures
        ({
            let c = cycle(token, free);
            let h1 = c[j1];
            let t1 = node_tail(token, mem, c[j1]);
            let h2 = c[j2];
            let t2 = node_tail(token, mem, c[j2]);
            &&& h1 != h2 && h1 != t2 && t1 != h2 && t1 != t2 && h1 != t1
            &&& valid_addr(token, mem.len() as int, h1) && valid_addr(token, mem.len() as int, t1)
        }),
{
    let c = cycle(token, free);
    let end = token + 8 * mem.len();
    let i1 = lemma_node(token, mem, blocks, free, j1);
    let i2 = lemma_node(token, mem, blocks, free, j2);
    if i1 == i2 {
        if j1 > 0 && j2 > 0 {
            assert(c[j1] == free[j1 - 1]);
            assert(c[j2] == free[j2 - 1]);
            assert(free.no_duplicates());
        }
        assert(false);
    }
    if i1 < i2 {
        lemma_ordered(blocks, token, end, i1, i2);
    } else {
        lemma_ordered(blocks, token, end, i2, i1);
    }
}

pub open spec fn with_ref(m: Meta, r: int) -> Meta {
    Meta { info: m.info, rel_ref: r as u32 }
}

/// The words after the `k`-th free block is taken off the list: its list
/// predecessor's header and its list successor's footer are relinked.
pub open spec fn unlink_mem(token: int, mem: Seq<Meta>, free: Seq<int>, k: int) -> Seq<Meta> {
    let c = cycle(token, free);
    let prev = c[k];
    let next = c[next_idx(k + 1, c.len() as int)];
    let sp = slot(token, prev);
    let snt = slot(token, node_tail(token, mem, next));
    mem.update(sp, with_ref(mem[sp], next - token)).update(snt, with_ref(mem[snt], prev - token))
}

/// Memory that differs only in links keeps the headers and footers of all blocks.
pub proof fn lemma_metas_frame(token: int, mem0: Seq<Meta>, mem1: Seq<Meta>, blocks: Seq<BlockView>)
    requires
        metas_ok(token, mem0, blocks),
        layout_ok(blocks, token, token + 8 * mem0.len()),
        mem1.len() == mem0.len(),
        forall|s: int| 0 <= s < mem0.len() ==> #[trigger] mem1[s].info == mem0[s].info,
    ensures
        metas_ok(token, mem1, blocks),
{
    let len = mem0.len() as int;
    assert forall|i: int| 0 <= i < blocks.len() implies #[trigger] block_meta_ok(token, mem1, blocks[i]) by {
        assert(block_meta_ok(token, mem0, blocks[i]));
        assert(block_ok(blocks[i], token, token + 8 * len));
        lemma_slot_in_range(token, len, blocks[i].start);
        lemma_slot_in_range(token, len, block_tail(blocks[i]));
    }
}

/// Removing an entry keeps the other entries distinct free blocks.
pub proof fn lemma_entries_remove(blocks: Seq<BlockView>, free: Seq<int>, k: int)
    requires
        entries_ok(blocks, free),
        0 <= k < free.len(),
    ensures
        entries_ok(blocks, free.remove(k)),
{
    let free1 = free.remove(k);
    assert forall|kk: int| 0 <= kk < free1.len() implies #[trigger] is_free_start(blocks, free1[kk]) by {
        if kk < k {
            assert(free1[kk] == free[kk]);
        } else {
            assert(free1[kk] == free[kk + 1]);
        }
    }
    assert forall|a: int, b: int| 0 <= a < free1.len() && 0 <= b < free1.len() && a != b implies free1[a] != free1[b] by {
        let a0 = if a < k { a } else { a + 1 };
        let b0 = if b < k { b } else { b + 1 };
        assert(free1[a] == free[a0]);
        assert(free1[b] == free[b0]);
    }
}

/// After unlinking, node `j1` of the shorter cycle is linked correctly.
pub proof fn lemma_unlink_at(token: int, mem: Seq<Meta>, blocks: Seq<BlockView>, free: Seq<int>, k: int, j1: int)
    requires
        list_ok(token, mem, blocks, free),
        0 <= k < free.len(),
        0 <= j1 < free.len(),
    ensures
        link_ok_at(token, unlink_mem(token, mem, free, k), cycle(token, free.remove(k)), j1),
{
    let len = mem.len() as int;
    let c = cycle(token, free);
    let n = c.len() as int;
    let jn = next_idx(k + 1, n);
    let prev = c[k];
    let next = c[jn];
    let ntail = node_tail(token, mem, next);
    let mem2 = unlink_mem(token, mem, free, k);
    let c1 = cycle(token, free.remove(k));
    assert(c1 =~= c.remove(k + 1));
    let j = if j1 <= k { j1 } else { j1 + 1 };
    assert(c1[j1] == c[j]);
    assert(link_ok_at(token, mem, c, j));
    lemma_nodes_distinct(token, mem, blocks, free, k, k + 1);
    lemma_nodes_distinct(token, mem, blocks, free, jn, k + 1);
    if jn != k {
        lemma_nodes_distinct(token, mem, blocks, free, jn, k);
    }
    lemma_nodes_distinct(token, mem, blocks, free, j, k + 1);
    if j != k {
        lemma_nodes_distinct(token, mem, blocks, free, j, k);
    }
    if j != jn {
        lemma_nodes_distinct(token, mem, blocks, free, j, jn);
    }
    let u = c[j];
    let ut = node_tail(token, mem, u);
    lemma_slot_in_range(token, len, u);
    lemma_slot_in_range(token, len, ut);
    lemma_slot_in_range(token, len, prev);
    lemma_slot_in_range(token, len, ntail);
    lemma_slot_distinct(token, ntail, prev);
    lemma_slot_distinct(token, u, ntail);
    lemma_slot_distinct(token, ut, prev);
    if u != prev {
        lemma_slot_distinct(token, u, prev);
    }
    if ut != ntail {
        lemma_slot_distinct(token, ut, ntail);
    }
    assert(meta_at(token, mem2, u).info == meta_at(token, mem, u).info);
    assert(node_tail(token, mem2, u) == ut);
    let n1 = n - 1;
    // forward link
    if j == k {
        assert(meta_at(token, mem2, u).rel_ref == next - token);
        if k + 1 == n1 {
            assert(next_idx(j1, n1) == 0);
            assert(jn == 0);
        } else {
            assert(next_idx(j1, n1) == k + 1);
            assert(c1[k + 1] == c[k + 2]);
        }
    } else {
        assert(meta_at(token, mem2, u) == meta_at(token, mem, u));
        if j + 1 == n {
            assert(next_idx(j1, n1) == 0);
        } else if j1 + 1 == n1 {
            assert(j == k);
        } else {
            assert(next_idx(j1, n1) == j1 + 1);
            assert(j1 + 1 <= k ==> c1[j1 + 1] == c[j + 1]);
            assert(j1 + 1 > k ==> c1[j1 + 1] == c[j1 + 2]);
        }
    }
    // backward link
    if ut == ntail {
        assert(u == next);
        assert(meta_at(token, mem2, ut).rel_ref == prev - token);
        if j == 0 {
            assert(prev_idx(j1, n1) == n1 - 1);
            assert(k + 1 == n - 1);
        } else {
            assert(j == k + 2);
        }
    } else {
        assert(meta_at(token, mem2, ut) == meta_at(token, mem, ut));
        if j == 0 {
            assert(prev_idx(j1, n1) == n1 - 1);
            assert(jn != 0);
            assert(k + 1 != n - 1);
            assert(c1[n1 - 1] == c[n - 1]);
        } else {
            assert(j != k + 2);
            assert(prev_idx(j1, n1) == j1 - 1);
            if j1 <= k {
                assert(c1[j1 - 1] == c[j - 1]);
            } else {
                assert(c1[j1 - 1] == c[j - 1]);
            }
        }
    }
}

/// Unlinking the `k`-th free block keeps the list consistent without it.
pub proof fn lemma_unlink(token: int, mem: Seq<Meta>, blocks: Seq<BlockView>, free: Seq<int>, k: int)
    requires
        list_ok(token, mem, blocks, free),
        0 <= k < free.len(),
    ensures
        list_ok(token, unlink_mem(token, mem, free, k), blocks, free.remove(k)),
        unlink_mem(token, mem, free, k).len() == mem.len(),
        forall|s: int|
            0 <= s < mem.len() ==> #[trigger] unlink_mem(token, mem, free, k)[s].info == mem[s].info,
{
    let mem2 = unlink_mem(token, mem, free, k);
    let c1 = cycle(token, free.remove(k));
    let c = cycle(token, free);
    let jn = next_idx(k + 1, c.len() as int);
    lemma_nodes_distinct(token, mem, blocks, free, k, k + 1);
    lemma_nodes_distinct(token, mem, blocks, free, jn, k + 1);
    lemma_slot_in_range(token, mem.len() as int, c[k]);
    lemma_slot_in_range(token, mem.len() as int, node_tail(token, mem, c[jn]));
    assert forall|s: int| 0 <= s < mem.len() implies #[trigger] mem2[s].info == mem[s].info by {}
    assert forall|j1: int| 0 <= j1 < c1.len() implies #[trigger] link_ok_at(token, mem2, c1, j1) by {
        lemma_unlink_at(token, mem, blocks, free, k, j1);
    }
    lemma_entries_remove(blocks, free, k);
    lemma_metas_frame(token, mem, mem2, blocks);
}

/// The words after free block `y` is put on the list right after cycle node `p`.
pub open spec fn link_mem(token: int, mem: Seq<Meta>, free: Seq<int>, p: int, y: int) -> Seq<Meta> {
    let c = cycle(token, free);
    let pre = c[p];
    let next = c[next_idx(p, c.len() as int)];
    let sy = slot(token, y);
    let sp = slot(token, pre);
    let syt = slot(token, node_tail(token, mem, y));
    let snt = slot(token, node_tail(token, mem, next));
    mem.update(sy, with_ref(mem[sy], next - token))
        .update(sp, with_ref(mem[sp], y - token))
        .update(syt, with_ref(mem[syt], pre - token))
        .update(snt, with_ref(mem[snt], y - token))
}

/// A free block that is not on the list has header and footer words apart from
/// those of every node of the cycle.
pub proof fn lemma_outsider(token: int, mem: Seq<Meta>, blocks: Seq<BlockView>, free: Seq<int>, y: int, j: int)
    requires
        list_ok(token, mem, blocks, free),
        is_free_start(blocks, y),
        !free.contains(y),
        0 <= j < cycle(token, free).len(),
    ensures
        ({
            let c = cycle(token, free);
            let yt = node_tail(token, mem, y);
            let h = c[j];
            let t = node_tail(token, mem, c[j]);
            &&& y != h && y != t && yt != h && yt != t && y != yt
            &&& valid_addr(token, mem.len() as int, y) && valid_addr(token, mem.len() as int, yt)
        }),
{
    let c = cycle(token, free);
    let end = token + 8 * mem.len();
    let iy = choose|i: int| 1 <= i < blocks.len() && #[trigger] blocks[i].start == y && !blocks[i].occupied;
    assert(block_meta_ok(token, mem, blocks[iy]));
    assert(block_ok(blocks[iy], token, end));
    let ij = lemma_node(token, mem, blocks, free, j);
    if ij == iy {
        if j > 0 {
            assert(c[j] == free[j - 1]);
        }
        assert(false);
    }
    if ij < iy {
        lemma_ordered(blocks, token, end, ij, iy);
    } else {
        lemma_ordered(blocks, token, end, iy, ij);
    }
}

/// After linking `y` in after node `p`, node `j1` of the longer cycle is linked correctly.
pub proof fn lemma_link_at(
    token: int,
    mem: Seq<Meta>,
    blocks: Seq<BlockView>,
    free: Seq<int>,
    p: int,
    y: int,
    j1: int,
)
    requires
        list_ok(token, mem, blocks, free),
        is_free_start(blocks, y),
        !free.contains(y),
        0 <= p <= free.len(),
        0 <= j1 <= free.len() + 1,
    ensures
        link_ok_at(token, link_mem(token, mem, free, p, y), cycle(token, free.insert(p, y)), j1),
{
    let len = mem.len() as int;
    let c = cycle(token, free);
    let n = c.len() as int;
    let jn = next_idx(p, n);
    let pre = c[p];
    let next = c[jn];
    let yt = node_tail(token, mem, y);
    let ntail = node_tail(token, mem, next);
    let mem2 = link_mem(token, mem, free, p, y);
    let c1 = cycle(token, free.insert(p, y));
    assert(c1 =~= c.insert(p + 1, y));
    lemma_outsider(token, mem, blocks, free, y, p);
    lemma_outsider(token, mem, blocks, free, y, jn);
    if jn != p {
        lemma_nodes_distinct(token, mem, blocks, free, p, jn);
        lemma_nodes_distinct(token, mem, blocks, free, jn, p);
    } else {
        assert(n == 1);
        lemma_node(token, mem, blocks, free, p);
        assert(block_ok(blocks[0], token, token + 8 * len));
    }
    lemma_slot_in_range(token, len, y);
    lemma_slot_in_range(token, len, yt);
    lemma_slot_in_range(token, len, pre);
    lemma_slot_in_range(token, len, ntail);
    lemma_slot_distinct(token, y, pre);
    lemma_slot_distinct(token, y, yt);
    lemma_slot_distinct(token, y, ntail);
    lemma_slot_distinct(token, pre, yt);
    lemma_slot_distinct(token, pre, ntail);
    lemma_slot_distinct(token, yt, ntail);
    let n1 = n + 1;
    if j1 == p + 1 {
        assert(c1[j1] == y);
        assert(meta_at(token, mem2, y).rel_ref == next - token);
        assert(meta_at(token, mem2, y).info == meta_at(token, mem, y).info);
        assert(node_tail(token, mem2, y) == yt);
        assert(meta_at(token, mem2, yt).rel_ref == pre - token);
        if p + 1 == n {
            assert(jn == 0);
        } else {
            assert(c1[p + 2] == c[p + 1]);
        }
        assert(c1[p] == c[p]);
    } else {
        let j = if j1 <= p { j1 } else { j1 - 1 };
        assert(c1[j1] == c[j]);
        assert(link_ok_at(token, mem, c, j));
        lemma_outsider(token, mem, blocks, free, y, j);
        if j != p {
            lemma_nodes_distinct(token, mem, blocks, free, j, p);
        }
        if j != jn {
            lemma_nodes_distinct(token, mem, blocks, free, j, jn);
        }
        let u = c[j];
        let ut = node_tail(token, mem, u);
        lemma_slot_in_range(token, len, u);
        lemma_slot_in_range(token, len, ut);
        lemma_slot_distinct(token, u, y);
        lemma_slot_distinct(token, u, yt);
        lemma_slot_distinct(token, ut, y);
        lemma_slot_distinct(token, ut, yt);
        lemma_slot_distinct(token, u, ntail);
        lemma_slot_distinct(token, ut, pre);
        if u != pre {
            lemma_slot_distinct(token, u, pre);
        }
        if ut != ntail {
            lemma_slot_distinct(token, ut, ntail);
        }
        assert(meta_at(token, mem2, u).info == meta_at(token, mem, u).info);
        assert(node_tail(token, mem2, u) == ut);
        // forward link
        if j == p {
            assert(meta_at(token, mem2, u).rel_ref == y - token);
            assert(next_idx(j1, n1) == p + 1);
        } else {
            assert(meta_at(token, mem2, u) == meta_at(token, mem, u));
            if j + 1 == n {
                assert(next_idx(j1, n1) == 0);
            } else {
                assert(next_idx(j1, n1) == j1 + 1);
                assert(c1[j1 + 1] == c[j + 1]);
            }
        }
        // backward link
        if ut == ntail {
            assert(u == next);
            assert(meta_at(token, mem2, ut).rel_ref == y - token);
            if j == 0 {
                assert(p + 1 == n);
                assert(prev_idx(j1, n1) == n1 - 1);
            } else {
                assert(j == p + 1);
                assert(j1 == p + 2);
            }
        } else {
            assert(meta_at(token, mem2, ut) == meta_at(token, mem, ut));
            if j == 0 {
                assert(p + 1 != n);
                assert(prev_idx(j1, n1) == n1 - 1);
                assert(c1[n1 - 1] == c[n - 1]);
            } else {
                assert(j != p + 1);
                assert(prev_idx(j1, n1) == j1 - 1);
                assert(c1[j1 - 1] == c[j - 1]);
            }
        }
    }
}

/// Linking a free block that is off the list in after node `p` keeps the list consistent.
pub proof fn lemma_link(token: int, mem: Seq<Meta>, blocks: Seq<BlockView>, free: Seq<int>, p: int, y: int)
    requires
        list_ok(token, mem, blocks, free),
        is_free_start(blocks, y),
        !free.contains(y),
        0 <= p <= free.len(),
    ensures
        list_ok(token, link_mem(token, mem, free, p, y), blocks, free.insert(p, y)),
        link_mem(token, mem, free, p, y).len() == mem.len(),
        forall|s: int| 0 <= s < mem.len() ==> #[trigger] link_mem(token, mem, free, p, y)[s].info == mem[s].info,
{
    let len = mem.len() as int;
    let c = cycle(token, free);
    let jn = next_idx(p, c.len() as int);
    let mem2 = link_mem(token, mem, free, p, y);
    let free1 = free.insert(p, y);
    let c1 = cycle(token, free1);
    lemma_outsider(token, mem, blocks, free, y, p);
    lemma_outsider(token, mem, blocks, free, y, jn);
    lemma_node_valid(token, mem, blocks, free, p);
    lemma_node_valid(token, mem, blocks, free, jn);
    lemma_slot_in_range(token, len, y);
    lemma_slot_in_range(token, len, node_tail(token, mem, y));
    lemma_slot_in_range(token, len, c[p]);
    lemma_slot_in_range(token, len, node_tail(token, mem, c[jn]));
    assert forall|s: int| 0 <= s < mem.len() implies #[trigger] mem2[s].info == mem[s].info by {}
    assert forall|j1: int| 0 <= j1 < c1.len() implies #[trigger] link_ok_at(token, mem2, c1, j1) by {
        lemma_link_at(token, mem, blocks, free, p, y, j1);
    }
    assert forall|kk: int| 0 <= kk < free1.len() implies #[trigger] is_free_start(blocks, free1[kk]) by {
        if kk < p {
            assert(free1[kk] == free[kk]);
        } else if kk == p {
        } else {
            assert(free1[kk] == free[kk - 1]);
        }
    }
    assert forall|a: int, b: int| 0 <= a < free1.len() && 0 <= b < free1.len() && a != b implies free1[a] != free1[b] by {
        if a != p && b != p {
            let a0 = if a < p { a } else { a - 1 };
            let b0 = if b < p { b } else { b - 1 };
            assert(free1[a] == free[a0]);
            assert(free1[b] == free[b0]);
        } else if a == p {
            let b0 = if b < p { b } else { b - 1 };
            assert(free1[b] == free[b0]);
        } else {
            let a0 = if a < p { a } else { a - 1 };
            assert(free1[a] == free[a0]);
        }
    }
    lemma_metas_frame(token, mem, mem2, blocks);
}

/// `a` lies outside the address range covered by blocks `lo..=hi`.
pub open spec fn outside(blocks: Seq<BlockView>, lo: int, hi: int, a: int) -> bool {
    a < blocks[lo].start || a >= block_end(blocks[hi])
}

/// Conditions under which the words of blocks `lo..=hi` may be rewritten into the chain `mid`.
pub open spec fn rewrite_pre(
    token: int,
    mem: Seq<Meta>,
    mem2: Seq<Meta>,
    blocks: Seq<BlockView>,
    free: Seq<int>,
    lo: int,
    hi: int,
    mid: Seq<BlockView>,
) -> bool {
    &&& list_ok(token, mem, blocks, free)
    &&& 1 <= lo <= hi < blocks.len()
    &&& mid.len() >= 1
    &&& mid[0].start == blocks[lo].start
    &&& block_end(mid.last()) == block_end(blocks[hi])
    &&& forall|m: int| 0 <= m < mid.len() ==> #[trigger] block_ok(mid[m], token, token + 8 * mem.len())
    &&& forall|m: int| #![trigger mid[m]] 0 <= m < mid.len() - 1 ==> mid[m + 1].start == block_end(mid[m])
    &&& mem2.len() == mem.len()
    &&& forall|a: int|
        valid_addr(token, mem.len() as int, a) && outside(blocks, lo, hi, a)
            ==> #[trigger] meta_at(token, mem2, a) == meta_at(token, mem, a)
    &&& forall|m: int| 0 <= m < mid.len() ==> #[trigger] block_meta_ok(token, mem2, mid[m])
    &&& forall|k: int| 0 <= k < free.len() ==> outside(blocks, lo, hi, #[trigger] free[k])
}

/// A block left or right of the range lies wholly outside it.
pub proof fn lemma_block_outside(blocks: Seq<BlockView>, token: int, end: int, lo: int, hi: int, i: int)
    requires
        layout_ok(blocks, token, end),
        0 <= lo <= hi < blocks.len(),
        0 <= i < blocks.len(),
        i < lo || i > hi,
    ensures
        outside(blocks, lo, hi, blocks[i].start),
        outside(blocks, lo, hi, block_tail(blocks[i])),
        block_ok(blocks[i], token, end),
{
    assert(block_ok(blocks[i], token, end));
    if i < lo {
        lemma_ordered(blocks, token, end, i, lo);
    } else {
        lemma_ordered(blocks, token, end, hi, i);
    }
}

/// A block whose start lies outside the range is not one of the blocks `lo..=hi`.
pub proof fn lemma_start_outside(blocks: Seq<BlockView>, token: int, end: int, lo: int, hi: int, i: int)
    requires
        layout_ok(blocks, token, end),
        0 <= lo <= hi < blocks.len(),
        0 <= i < blocks.len(),
        outside(blocks, lo, hi, blocks[i].start),
    ensures
        i < lo || i > hi,
{
    if lo <= i <= hi {
        if lo < i {
            lemma_ordered(blocks, token, end, lo, i);
        }
        if i < hi {
            lemma_ordered(blocks, token, end, i, hi);
        }
        assert(block_ok(blocks[i], token, end));
        assert(block_ok(blocks[lo], token, end));
        assert(block_ok(blocks[hi], token, end));
        assert(blocks[lo].start <= blocks[i].start);
        assert(blocks[i].start < block_end(blocks[hi]));
        assert(false);
    }
}

pub proof fn lemma_rewrite_metas(
    token: int,
    mem: Seq<Meta>,
    mem2: Seq<Meta>,
    blocks: Seq<BlockView>,
    free: Seq<int>,
    lo: int,
    hi: int,
    mid: Seq<BlockView>,
)
    requires
        rewrite_pre(token, mem, mem2, blocks, free, lo, hi, mid),
    ensures
        metas_ok(token, mem2, blocks.take(lo) + mid + blocks.skip(hi + 1)),
{
    let len = mem.len() as int;
    let end = token + 8 * len;
    let nb = blocks.take(lo) + mid + blocks.skip(hi + 1);
    let ml = mid.len() as int;
    assert forall|i: int| 0 <= i < blocks.len() && (i < lo || i > hi) implies
        #[trigger] block_meta_ok(token, mem2, blocks[i]) by {
        lemma_block_outside(blocks, token, end, lo, hi, i);
        assert(block_meta_ok(token, mem, blocks[i]));
        assert(meta_at(token, mem2, blocks[i].start) == meta_at(token, mem, blocks[i].start));
        assert(meta_at(token, mem2, block_tail(blocks[i])) == meta_at(token, mem, block_tail(blocks[i])));
    }
    assert forall|i: int| 0 <= i < nb.len() implies #[trigger] block_meta_ok(token, mem2, nb[i]) by {
        if i < lo {
            assert(nb[i] == blocks[i]);
        } else if i < lo + ml {
            assert(nb[i] == mid[i - lo]);
        } else {
            assert(nb[i] == blocks[i - lo - ml + hi + 1]);
        }
    }
}

pub proof fn lemma_rewrite_entries(
    token: int,
    mem: Seq<Meta>,
    mem2: Seq<Meta>,
    blocks: Seq<BlockView>,
    free: Seq<int>,
    lo: int,
    hi: int,
    mid: Seq<BlockView>,
)
    requires
        rewrite_pre(token, mem, mem2, blocks, free, lo, hi, mid),
    ensures
        entries_ok(blocks.take(lo) + mid + blocks.skip(hi + 1), free),
{
    let len = mem.len() as int;
    let end = token + 8 * len;
    let nb = blocks.take(lo) + mid + blocks.skip(hi + 1);
    let ml = mid.len() as int;
    assert forall|k: int| 0 <= k < free.len() implies #[trigger] is_free_start(nb, free[k]) by {
        assert(is_free_start(blocks, free[k]));
        let i = choose|i: int| 1 <= i < blocks.len() && #[trigger] blocks[i].start == free[k] && !blocks[i].occupied;
        assert(outside(blocks, lo, hi, free[k]));
        lemma_start_outside(blocks, token, end, lo, hi, i);
        if i < lo {
            assert(nb[i] == blocks[i]);
        } else {
            assert(nb[i - hi - 1 + lo + ml] == blocks[i]);
        }
    }
}

pub proof fn lemma_rewrite_links(
    token: int,
    mem: Seq<Meta>,
    mem2: Seq<Meta>,
    blocks: Seq<BlockView>,
    free: Seq<int>,
    lo: int,
    hi: int,
    mid: Seq<BlockView>,
)
    requires
        rewrite_pre(token, mem, mem2, blocks, free, lo, hi, mid),
    ensures
        links_ok(token, mem2, free),
{
    let len = mem.len() as int;
    let end = token + 8 * len;
    let c = cycle(token, free);
    assert forall|j: int| 0 <= j < c.len() implies #[trigger] link_ok_at(token, mem2, c, j) by {
        assert(link_ok_at(token, mem, c, j));
        let i = lemma_node(token, mem, blocks, free, j);
        if j > 0 {
            assert(c[j] == free[j - 1]);
            assert(outside(blocks, lo, hi, free[j - 1]));
            lemma_start_outside(blocks, token, end, lo, hi, i);
        }
        lemma_block_outside(blocks, token, end, lo, hi, i);
        assert(meta_at(token, mem2, c[j]) == meta_at(token, mem, c[j]));
        assert(node_tail(token, mem2, c[j]) == node_tail(token, mem, c[j]));
        assert(meta_at(token, mem2, block_tail(blocks[i])) == meta_at(token, mem, block_tail(blocks[i])));
    }
}

/// Rewriting the words inside the range of blocks `lo..=hi` into a new chain of
/// blocks `mid` keeps the list consistent, provided that no list entry lies in the range.
pub proof fn lemma_rewrite(
    token: int,
    mem: Seq<Meta>,
    mem2: Seq<Meta>,
    blocks: Seq<BlockView>,
    free: Seq<int>,
    lo: int,
    hi: int,
    mid: Seq<BlockView>,
)
    requires
        rewrite_pre(token, mem, mem2, blocks, free, lo, hi, mid),
    ensures
        list_ok(token, mem2, blocks.take(lo) + mid + blocks.skip(hi + 1), free),
{
    lemma_replace(blocks, token, token + 8 * mem.len(), lo, hi, mid);
    lemma_rewrite_metas(token, mem, mem2, blocks, free, lo, hi, mid);
    lemma_rewrite_entries(token, mem, mem2, blocks, free, lo, hi, mid);
    lemma_rewrite_links(token, mem, mem2, blocks, free, lo, hi, mid);
}

/// `x` rounded up to a multiple of the word size.
pub open spec fn align8(x: int) -> int {
    if x % 8 == 0 {
        x
    } else {
        x - x % 8 + 8
    }
}

/// Capacity of the block that starts at `x`.
pub open spec fn cap_of(blocks: Seq<BlockView>, x: int) -> int {
    blocks[index_of_start(blocks, x)].cap
}

/// Entry `k` of the free list is the first one with room for `need` bytes.
pub open spec fn is_first_fit(blocks: Seq<BlockView>, free: Seq<int>, need: int, k: int) -> bool {
    &&& 0 <= k < free.len()
    &&& cap_of(blocks, free[k]) >= need
    &&& forall|k2: int| 0 <= k2 < k ==> cap_of(blocks, #[trigger] free[k2]) < need
}

/// The blocks after `need` bytes are handed out from the free block at position `i`:
/// a block with room for `need` bytes and another 8 is split, the remainder
/// staying free; a smaller one is handed out whole.
pub open spec fn carve_blocks(blocks: Seq<BlockView>, i: int, need: int) -> Seq<BlockView> {
    let b = blocks[i];
    if b.cap >= need + 16 {
        blocks.take(i) + seq![
            BlockView { start: b.start, cap: need, occupied: true },
            BlockView { start: b.start + need + 8, cap: b.cap - need - 8, occupied: false },
        ] + blocks.skip(i + 1)
    } else {
        blocks.update(i, BlockView { start: b.start, cap: b.cap, occupied: true })
    }
}

/// The free list after the same step: the remainder takes the place of the block
/// that was split; a block handed out whole leaves the list.
pub open spec fn carve_free(blocks: Seq<BlockView>, free: Seq<int>, k: int, i: int, need: int) -> Seq<int> {
    if blocks[i].cap >= need + 16 {
        free.update(k, blocks[i].start + need + 8)
    } else {
        free.remove(k)
    }
}

/// `free` without the entry `v`.
pub open spec fn drop_entry(free: Seq<int>, v: int) -> Seq<int> {
    free.remove(free.index_of(v))
}

/// First block of the run that releasing block `i` coalesces: its left neighbour if free.
pub open spec fn merge_lo(blocks: Seq<BlockView>, i: int) -> int {
    if !blocks[i - 1].occupied {
        i - 1
    } else {
        i
    }
}

/// Last block of the run that releasing block `i` coalesces: its right neighbour if free.
pub open spec fn merge_hi(blocks: Seq<BlockView>, i: int) -> int {
    if i + 1 < blocks.len() && !blocks[i + 1].occupied {
        i + 1
    } else {
        i
    }
}

/// The free block that replaces the coalesced run.
pub open spec fn merged_block(blocks: Seq<BlockView>, i: int) -> BlockView {
    let lo = merge_lo(blocks, i);
    let hi = merge_hi(blocks, i);
    BlockView {
        start: blocks[lo].start,
        cap: block_end(blocks[hi]) - blocks[lo].start - 8,
        occupied: false,
    }
}

/// The blocks after block `i` is released and coalesced with its free neighbours.
pub open spec fn release_blocks(blocks: Seq<BlockView>, i: int) -> Seq<BlockView> {
    blocks.take(merge_lo(blocks, i)) + seq![merged_block(blocks, i)] + blocks.skip(merge_hi(blocks, i) + 1)
}

/// The free list after the same step: the neighbours that were swallowed leave the
/// list, and the coalesced block goes to its front.
pub open spec fn release_free(blocks: Seq<BlockView>, free: Seq<int>, i: int) -> Seq<int> {
    seq![merged_block(blocks, i).start] + release_rest(blocks, free, i)
}

/// The free list without the neighbours that releasing block `i` swallows.
pub open spec fn release_rest(blocks: Seq<BlockView>, free: Seq<int>, i: int) -> Seq<int> {
    let f1 = if merge_hi(blocks, i) > i {
        drop_entry(free, blocks[i + 1].start)
    } else {
        free
    };
    if merge_lo(blocks, i) < i {
        drop_entry(f1, blocks[i - 1].start)
    } else {
        f1
    }
}

/// The entry `v` of a list without duplicates sits at `index_of(v)`.
pub proof fn lemma_entry_index(free: Seq<int>, v: int)
    requires
        free.contains(v),
    ensures
        0 <= free.index_of(v) < free.len(),
        free[free.index_of(v)] == v,
{
}

/// Dropping an entry keeps the list entries free blocks, and every other entry stays.
pub proof fn lemma_drop_keeps(free: Seq<int>, v: int, w: int)
    requires
        free.contains(v),
        free.contains(w),
        free.no_duplicates(),
        v != w,
    ensures
        drop_entry(free, v).contains(w),
{
    let k = free.index_of(v);
    let kw = free.index_of(w);
    let f1 = free.remove(k);
    if kw < k {
        assert(f1[kw] == w);
    } else {
        assert(f1[kw - 1] == w);
    }
}

/// Entries of a list with an entry dropped are entries of the list.
pub proof fn lemma_drop_subset(free: Seq<int>, v: int, w: int)
    requires
        free.contains(v),
        drop_entry(free, v).contains(w),
    ensures
        free.contains(w),
        w != v || !free.no_duplicates(),
{
    let k = free.index_of(v);
    let f1 = free.remove(k);
    let kk = choose|kk: int| 0 <= kk < f1.len() && f1[kk] == w;
    if kk < k {
        assert(free[kk] == w);
    } else {
        assert(free[kk + 1] == w);
    }
}

/// The entries that stay on the list when block `i` is released lie outside the
/// coalesced run, and every free block outside the run keeps its entry.
pub proof fn lemma_release_rest(token: int, end: int, blocks: Seq<BlockView>, free: Seq<int>, i: int)
    requires
        layout_ok(blocks, token, end),
        entries_ok(blocks, free),
        complete(blocks, free),
        1 <= i < blocks.len(),
        blocks[i].occupied,
    ensures
        forall|kk: int|
            0 <= kk < release_rest(blocks, free, i).len() ==> outside(
                blocks,
                merge_lo(blocks, i),
                merge_hi(blocks, i),
                #[trigger] release_rest(blocks, free, i)[kk],
            ),
        forall|j: int|
            #![trigger blocks[j]]
            1 <= j < blocks.len() && !blocks[j].occupied && (j < merge_lo(blocks, i) || j > merge_hi(blocks, i))
                ==> release_rest(blocks, free, i).contains(blocks[j].start),
        1 <= merge_lo(blocks, i) <= i <= merge_hi(blocks, i) < blocks.len(),
{
    let lo = merge_lo(blocks, i);
    let hi = merge_hi(blocks, i);
    let f1 = if hi > i { drop_entry(free, blocks[i + 1].start) } else { free };
    let f2 = release_rest(blocks, free, i);
    assert(blocks[0].occupied);
    if hi > i {
        assert(free.contains(blocks[i + 1].start));
    }
    if lo < i {
        assert(free.contains(blocks[i - 1].start));
        if hi > i {
            lemma_ordered(blocks, token, end, i - 1, i + 1);
            assert(block_ok(blocks[i - 1], token, end));
            lemma_drop_keeps(free, blocks[i + 1].start, blocks[i - 1].start);
        }
    }
    // f1 has no duplicates
    if hi > i {
        let k = free.index_of(blocks[i + 1].start);
        lemma_entry_index(free, blocks[i + 1].start);
        assert forall|a: int, b: int| 0 <= a < f1.len() && 0 <= b < f1.len() && a != b implies f1[a] != f1[b] by {
            let a0 = if a < k { a } else { a + 1 };
            let b0 = if b < k { b } else { b + 1 };
            assert(f1[a] == free[a0]);
            assert(f1[b] == free[b0]);
        }
    }
    assert forall|kk: int| 0 <= kk < f2.len() implies outside(blocks, lo, hi, #[trigger] f2[kk]) by {
        let w = f2[kk];
        assert(f2.contains(w));
        if lo < i {
            lemma_drop_subset(f1, blocks[i - 1].start, w);
        }
        assert(f1.contains(w));
        if hi > i {
            lemma_drop_subset(free, blocks[i + 1].start, w);
        }
        assert(free.contains(w));
        let k0 = choose|k0: int| 0 <= k0 < free.len() && free[k0] == w;
        assert(is_free_start(blocks, free[k0]));
        let iw = choose|iw: int| 1 <= iw < blocks.len() && #[trigger] blocks[iw].start == free[k0] && !blocks[iw].occupied;
        assert(iw != i);
        assert(iw < lo || iw > hi);
        lemma_block_outside(blocks, token, end, lo, hi, iw);
    }
    assert forall|j: int|
        #![trigger blocks[j]]
        1 <= j < blocks.len() && !blocks[j].occupied && (j < lo || j > hi) implies f2.contains(blocks[j].start) by {
        let w = blocks[j].start;
        assert(free.contains(w));
        if hi > i {
            if w == blocks[i + 1].start {
                lemma_start_unique(blocks, token, end, j, i + 1);
            }
            lemma_drop_keeps(free, blocks[i + 1].start, w);
        }
        if lo < i {
            if w == blocks[i - 1].start {
                lemma_start_unique(blocks, token, end, j, i - 1);
            }
            lemma_drop_keeps(f1, blocks[i - 1].start, w);
        }
    }
}

/// Writing the coalesced block over the run keeps the list consistent; the
/// coalesced block is free and not yet on the list.
pub proof fn lemma_release(
    token: int,
    mem2: Seq<Meta>,
    mem3: Seq<Meta>,
    blocks: Seq<BlockView>,
    free: Seq<int>,
    i: int,
)
    requires
        list_ok(token, mem2, blocks, release_rest(blocks, free, i)),
        layout_ok(blocks, token, token + 8 * mem2.len()),
        entries_ok(blocks, free),
        complete(blocks, free),
        1 <= i < blocks.len(),
        blocks[i].occupied,
        block_written(token, mem2, mem3, merged_block(blocks, i).start, merged_block(blocks, i).cap, false),
    ensures
        list_ok(token, mem3, release_blocks(blocks, i), release_rest(blocks, free, i)),
        is_free_start(release_blocks(blocks, i), merged_block(blocks, i).start),
        !release_rest(blocks, free, i).contains(merged_block(blocks, i).start),
        complete(release_blocks(blocks, i), release_free(blocks, free, i)),
{
    let len = mem2.len() as int;
    let end = token + 8 * len;
    let lo = merge_lo(blocks, i);
    let hi = merge_hi(blocks, i);
    let f2 = release_rest(blocks, free, i);
    let m = merged_block(blocks, i);
    lemma_release_rest(token, end, blocks, free, i);
    assert(block_ok(blocks[lo], token, end));
    assert(block_ok(blocks[hi], token, end));
    if lo < hi {
        lemma_ordered(blocks, token, end, lo, hi);
    }
    assert(block_ok(m, token, end));
    let mid = seq![m];
    assert(block_meta_ok(token, mem3, mid[0]));
    lemma_rewrite(token, mem2, mem3, blocks, f2, lo, hi, mid);
    let nb = blocks.take(lo) + mid + blocks.skip(hi + 1);
    assert(nb == release_blocks(blocks, i));
    assert(nb[lo] == m);
    assert(is_free_start(nb, m.start));
    if f2.contains(m.start) {
        let kk = choose|kk: int| 0 <= kk < f2.len() && f2[kk] == m.start;
        assert(outside(blocks, lo, hi, f2[kk]));
        assert(false);
    }
    let f3 = release_free(blocks, free, i);
    let ml = 1int;
    assert forall|j: int| #![trigger nb[j]] 1 <= j < nb.len() && !nb[j].occupied implies f3.contains(nb[j].start) by {
        if j == lo {
            assert(f3[0] == m.start);
        } else {
            let j0 = if j < lo { j } else { j - lo - ml + hi + 1 };
            assert(nb[j] == blocks[j0]);
            assert(blocks[j0] == blocks[j0]);
            assert(f2.contains(blocks[j0].start));
            let kk = choose|kk: int| 0 <= kk < f2.len() && f2[kk] == blocks[j0].start;
            assert(f3[kk + 1] == blocks[j0].start);
        }
    }
}

/// The layout of a freshly initialised heap: the root block and one free block
/// covering the rest.
pub open spec fn initial_blocks(token: int, capacity: int) -> Seq<BlockView> {
    seq![
        BlockView { start: token, cap: 8, occupied: true },
        BlockView { start: token + 16, cap: capacity - 24, occupied: false },
    ]
}

/// Growing the heap by an occupied block right after its end keeps the list consistent.
pub proof fn lemma_grow(token: int, mem: Seq<Meta>, mem3: Seq<Meta>, blocks: Seq<BlockView>, free: Seq<int>, b: BlockView)
    requires
        list_ok(token, mem, blocks, free),
        8 * mem3.len() <= MAX_HEAP_SIZE,
        mem3.len() > mem.len(),
        forall|a: int| valid_addr(token, mem.len() as int, a) ==> #[trigger] meta_at(token, mem3, a) == meta_at(token, mem, a),
        b.start == token + 8 * mem.len(),
        block_end(b) == token + 8 * mem3.len(),
        block_ok(b, token, token + 8 * mem3.len()),
        block_meta_ok(token, mem3, b),
    ensures
        list_ok(token, mem3, blocks.push(b), free),
{
    let len = mem.len() as int;
    let end = token + 8 * len;
    let end3 = token + 8 * mem3.len();
    let nb = blocks.push(b);
    lemma_extend(blocks, token, end, b, end3);
    assert forall|i: int| 0 <= i < nb.len() implies #[trigger] block_meta_ok(token, mem3, nb[i]) by {
        if i < blocks.len() {
            assert(nb[i] == blocks[i]);
            assert(block_ok(blocks[i], token, end));
            assert(block_meta_ok(token, mem, blocks[i]));
        }
    }
    assert forall|k: int| 0 <= k < free.len() implies #[trigger] is_free_start(nb, free[k]) by {
        assert(is_free_start(blocks, free[k]));
        let i = choose|i: int| 1 <= i < blocks.len() && #[trigger] blocks[i].start == free[k] && !blocks[i].occupied;
        assert(nb[i] == blocks[i]);
    }
    let c = cycle(token, free);
    assert forall|j: int| 0 <= j < c.len() implies #[trigger] link_ok_at(token, mem3, c, j) by {
        assert(link_ok_at(token, mem, c, j));
        lemma_node_valid(token, mem, blocks, free, j);
    }
}

/// Rounds `addr` up to a multiple of the word size.
fn align(addr: usize) -> (r: usize)
    requires
        addr <= usize::MAX - 7,
    ensures
        r == align8(addr as int),
        r % 8 == 0,
        addr <= r < addr + 8,
{
    let exceed = addr % META_SIZE;
    if exceed == 0 {
        addr
    } else {
        addr + (META_SIZE - exceed)
    }
}

/// `m1` is `m0` with the header at `start` and the footer at `start + cap` rewritten
/// to capacity `cap` and status `occ`.
pub open spec fn block_written(token: int, m0: Seq<Meta>, m1: Seq<Meta>, start: int, cap: int, occ: bool) -> bool {
    &&& m1.len() == m0.len()
    &&& meta_at(token, m1, start).capacity() == cap
    &&& meta_at(token, m1, start).occupied() == occ
    &&& meta_at(token, m1, start + cap).capacity() == cap
    &&& meta_at(token, m1, start + cap).occupied() == occ
    &&& forall|a: int|
        valid_addr(token, m0.len() as int, a) && a != start && a != start + cap
            ==> #[trigger] meta_at(token, m1, a) == meta_at(token, m0, a)
}

/// Unlinking a block leaves its own header and footer alone; its footer still
/// names its former list predecessor.
pub proof fn lemma_unlink_self(token: int, mem: Seq<Meta>, blocks: Seq<BlockView>, free: Seq<int>, k: int)
    requires
        list_ok(token, mem, blocks, free),
        0 <= k < free.len(),
    ensures
        ({
            let c = cycle(token, free);
            let m1 = unlink_mem(token, mem, free, k);
            &&& meta_at(token, m1, c[k + 1]) == meta_at(token, mem, c[k + 1])
            &&& meta_at(token, m1, node_tail(token, mem, c[k + 1])) == meta_at(token, mem, node_tail(token, mem, c[k + 1]))
            &&& meta_at(token, mem, node_tail(token, mem, c[k + 1])).rel_ref == c[k] - token
            &&& cycle(token, free.remove(k))[k] == c[k]
            &&& valid_addr(token, mem.len() as int, c[k])
        }),
{
    let len = mem.len() as int;
    let c = cycle(token, free);
    let jn = next_idx(k + 1, c.len() as int);
    assert(link_ok_at(token, mem, c, k + 1));
    lemma_node_valid(token, mem, blocks, free, k + 1);
    lemma_node_valid(token, mem, blocks, free, k);
    lemma_node_valid(token, mem, blocks, free, jn);
    lemma_nodes_distinct(token, mem, blocks, free, k + 1, k);
    if jn != k + 1 {
        lemma_nodes_distinct(token, mem, blocks, free, k + 1, jn);
    }
    let x = c[k + 1];
    let xt = node_tail(token, mem, x);
    let nt = node_tail(token, mem, c[jn]);
    lemma_slot_in_range(token, len, x);
    lemma_slot_in_range(token, len, xt);
    lemma_slot_in_range(token, len, c[k]);
    lemma_slot_in_range(token, len, nt);
    lemma_slot_distinct(token, x, c[k]);
    lemma_slot_distinct(token, x, nt);
    lemma_slot_distinct(token, xt, c[k]);
    lemma_slot_distinct(token, xt, nt);
    assert(cycle(token, free.remove(k)) =~= c.remove(k + 1));
}

/// The entries left after removing the `k`-th one lie outside that entry's block `i`.
pub proof fn lemma_removed_outside(token: int, end: int, blocks: Seq<BlockView>, free: Seq<int>, k: int, i: int)
    requires
        layout_ok(blocks, token, end),
        entries_ok(blocks, free),
        0 <= k < free.len(),
        1 <= i < blocks.len(),
        blocks[i].start == free[k],
    ensures
        forall|kk: int| 0 <= kk < free.remove(k).len() ==> outside(blocks, i, i, #[trigger] free.remove(k)[kk]),
{
    let free1 = free.remove(k);
    assert forall|kk: int| 0 <= kk < free1.len() implies outside(blocks, i, i, #[trigger] free1[kk]) by {
        let k0 = if kk < k { kk } else { kk + 1 };
        assert(free1[kk] == free[k0]);
        assert(is_free_start(blocks, free[k0]));
        let i3 = choose|i3: int| 1 <= i3 < blocks.len() && #[trigger] blocks[i3].start == free[k0] && !blocks[i3].occupied;
        if i3 == i {
            assert(false);
        }
        lemma_block_outside(blocks, token, end, i, i, i3);
    }
}

/// Splitting the free block `i` (entry `k`, already off the list) into an occupied
/// block of `need` bytes and a free remainder keeps the list consistent.
pub proof fn lemma_split(
    token: int,
    mem1: Seq<Meta>,
    mem_a: Seq<Meta>,
    mem2: Seq<Meta>,
    blocks: Seq<BlockView>,
    free: Seq<int>,
    k: int,
    i: int,
    need: int,
)
    requires
        list_ok(token, mem1, blocks, free.remove(k)),
        entries_ok(blocks, free),
        0 <= k < free.len(),
        1 <= i < blocks.len(),
        blocks[i].start == free[k],
        !blocks[i].occupied,
        blocks[i].cap >= need + 16,
        need >= 8,
        need % 8 == 0,
        block_written(token, mem1, mem_a, blocks[i].start, need, true),
        block_written(token, mem_a, mem2, blocks[i].start + need + 8, blocks[i].cap - need - 8, false),
    ensures
        list_ok(token, mem2, carve_blocks(blocks, i, need), free.remove(k)),
        is_free_start(carve_blocks(blocks, i, need), blocks[i].start + need + 8),
        !free.remove(k).contains(blocks[i].start + need + 8),
{
    let len = mem1.len() as int;
    let end = token + 8 * len;
    let b = blocks[i];
    let rest = b.start + need + 8;
    let free1 = free.remove(k);
    assert(block_ok(b, token, end));
    let mid = seq![
        BlockView { start: b.start, cap: need, occupied: true },
        BlockView { start: rest, cap: b.cap - need - 8, occupied: false },
    ];
    lemma_removed_outside(token, end, blocks, free, k, i);
    assert forall|a: int| valid_addr(token, len, a) && outside(blocks, i, i, a) implies
        #[trigger] meta_at(token, mem2, a) == meta_at(token, mem1, a) by {
        assert(meta_at(token, mem_a, a) == meta_at(token, mem1, a));
    }
    assert(block_meta_ok(token, mem2, mid[0]));
    assert(block_meta_ok(token, mem2, mid[1]));
    assert(block_ok(mid[0], token, end));
    assert(block_ok(mid[1], token, end));
    lemma_rewrite(token, mem1, mem2, blocks, free1, i, i, mid);
    let nb = blocks.take(i) + mid + blocks.skip(i + 1);
    assert(nb == carve_blocks(blocks, i, need));
    assert(nb[i + 1] == mid[1]);
    assert(is_free_start(nb, rest));
    if free1.contains(rest) {
        let kk = choose|kk: int| 0 <= kk < free1.len() && free1[kk] == rest;
        assert(outside(blocks, i, i, free1[kk]));
        assert(false);
    }
}

/// After a split, every free block is on the list in which the remainder took the
/// place of the split block.
pub proof fn lemma_split_complete(token: int, end: int, blocks: Seq<BlockView>, free: Seq<int>, k: int, i: int, need: int)
    requires
        layout_ok(blocks, token, end),
        complete(blocks, free),
        0 <= k < free.len(),
        1 <= i < blocks.len(),
        blocks[i].start == free[k],
        blocks[i].cap >= need + 16,
    ensures
        free.remove(k).insert(k, blocks[i].start + need + 8) == carve_free(blocks, free, k, i, need),
        complete(carve_blocks(blocks, i, need), carve_free(blocks, free, k, i, need)),
{
    let rest = blocks[i].start + need + 8;
    let nb = carve_blocks(blocks, i, need);
    let f2 = free.update(k, rest);
    assert(free.remove(k).insert(k, rest) =~= f2);
    assert forall|j: int| #![trigger nb[j]] 1 <= j < nb.len() && !nb[j].occupied implies f2.contains(nb[j].start) by {
        if j == i + 1 {
            assert(f2[k] == rest);
        } else {
            let j0 = if j < i { j } else { j - 1 };
            assert(nb[j] == blocks[j0]);
            assert(j0 != i);
            assert(free.contains(blocks[j0].start));
            let kk = choose|kk: int| 0 <= kk < free.len() && free[kk] == blocks[j0].start;
            if kk == k {
                lemma_start_unique(blocks, token, end, i, j0);
            }
            assert(f2[kk] == blocks[j0].start);
        }
    }
}

/// Handing out the free block `i` (entry `k`, already off the list) whole keeps the
/// list consistent and complete.
pub proof fn lemma_whole(
    token: int,
    mem1: Seq<Meta>,
    mem2: Seq<Meta>,
    blocks: Seq<BlockView>,
    free: Seq<int>,
    k: int,
    i: int,
    need: int,
)
    requires
        list_ok(token, mem1, blocks, free.remove(k)),
        entries_ok(blocks, free),
        complete(blocks, free),
        0 <= k < free.len(),
        1 <= i < blocks.len(),
        blocks[i].start == free[k],
        !blocks[i].occupied,
        blocks[i].cap < need + 16,
        block_written(token, mem1, mem2, blocks[i].start, blocks[i].cap, true),
    ensures
        list_ok(token, mem2, carve_blocks(blocks, i, need), carve_free(blocks, free, k, i, need)),
        complete(carve_blocks(blocks, i, need), carve_free(blocks, free, k, i, need)),
{
    let len = mem1.len() as int;
    let end = token + 8 * len;
    let b = blocks[i];
    let free1 = free.remove(k);
    assert(block_ok(b, token, end));
    let mid = seq![BlockView { start: b.start, cap: b.cap, occupied: true }];
    lemma_removed_outside(token, end, blocks, free, k, i);
    assert(block_meta_ok(token, mem2, mid[0]));
    lemma_rewrite(token, mem1, mem2, blocks, free1, i, i, mid);
    let nb = blocks.take(i) + mid + blocks.skip(i + 1);
    assert(nb =~= carve_blocks(blocks, i, need));
    assert forall|j: int| #![trigger nb[j]] 1 <= j < nb.len() && !nb[j].occupied implies free1.contains(nb[j].start) by {
        assert(j != i);
        assert(nb[j] == blocks[j]);
        assert(free.contains(blocks[j].start));
        let kk = choose|kk: int| 0 <= kk < free.len() && free[kk] == blocks[j].start;
        if kk == k {
            lemma_start_unique(blocks, token, end, i, j);
        }
        let k1 = if kk < k { kk } else { kk - 1 };
        assert(free1[k1] == blocks[j].start);
    }
}

/// The heap: `token` is the address of its first word; `mem` holds its words
/// (the word at address `token + 8 * i` is `mem[i]`). `apply_more` is the user's
/// source of more memory, which is asked when no free block fits.
pub struct HeapInner<A> {
    token: usize,
    mem: Vec<Meta>,
    apply_more: Option<A>,
    blocks: Ghost<Seq<BlockView>>,
    free: Ghost<Seq<int>>,
}

impl<A> HeapInner<A> {
    /// Address of the first word of the heap.
    pub closed spec fn start(&self) -> int {
        self.token as int
    }

    /// Address just past the heap.
    pub closed spec fn end(&self) -> int {
        self.token + 8 * self.mem@.len()
    }

    /// The blocks of the heap in address order (the root block first).
    pub closed spec fn blocks(&self) -> Seq<BlockView> {
        self.blocks@
    }

    /// The free list in list order (without the root block).
    pub closed spec fn free_list(&self) -> Seq<int> {
        self.free@
    }

    /// The header and footer words of the heap, one per 8 bytes from its start.
    pub closed spec fn words(&self) -> Seq<Meta> {
        self.mem@
    }

    /// The source of more memory, if one was set.
    pub closed spec fn source(&self) -> Option<A> {
        self.apply_more
    }

    /// The word at `a` carries the occupied flag.
    pub closed spec fn occupied_flag(&self, a: int) -> bool {
        meta_at(self.token as int, self.mem@, a).occupied()
    }

    /// `addr` is the payload address of an occupied (handed out) block.
    pub open spec fn is_allocated(&self, addr: int) -> bool {
        exists|i: int|
            1 <= i < self.blocks().len() && #[trigger] self.blocks()[i].start == addr - 8 && self.blocks()[i].occupied
    }

    spec fn ok(&self) -> bool {
        list_ok(self.token as int, self.mem@, self.blocks@, self.free@)
    }

    /// The heap is initialised and its words, blocks and free list agree.
    pub closed spec fn wf(&self) -> bool {
        &&& self.token % 8 == 0
        &&& 8 * self.mem@.len() <= MAX_HEAP_SIZE
        &&& self.token + 8 * self.mem@.len() <= usize::MAX
        &&& self.ok()
        &&& complete(self.blocks@, self.free@)
        &&& coalesced(self.blocks@)
    }

    fn read(&self, addr: usize) -> (m: Meta)
        requires
            valid_addr(self.token as int, self.mem@.len() as int, addr as int),
        ensures
            m == meta_at(self.token as int, self.mem@, addr as int),
    {
        self.mem[(addr - self.token) / META_SIZE]
    }

    fn write(&mut self, addr: usize, m: Meta)
        requires
            valid_addr(old(self).token as int, old(self).mem@.len() as int, addr as int),
        ensures
            final(self).mem@ == old(self).mem@.update(slot(old(self).token as int, addr as int), m),
            final(self).token == old(self).token,
            final(self).blocks == old(self).blocks,
            final(self).free == old(self).free,
            final(self).apply_more == old(self).apply_more,
    {
        let i = (addr - self.token) / META_SIZE;
        self.mem[i] = m;
    }

    /// Takes the free block at position `k` of the free list off the list
    /// (its list neighbours are linked to each other).
    fn unlink(&mut self, x: usize, Ghost(k): Ghost<int>)
        requires
            list_ok(old(self).token as int, old(self).mem@, old(self).blocks@, old(self).free@),
            0 <= k < old(self).free@.len(),
            old(self).free@[k] == x,
            old(self).token + 8 * old(self).mem@.len() <= usize::MAX,
        ensures
            list_ok(final(self).token as int, final(self).mem@, final(self).blocks@, final(self).free@),
            final(self).free@ == old(self).free@.remove(k),
            final(self).mem@ == unlink_mem(old(self).token as int, old(self).mem@, old(self).free@, k),
            final(self).blocks == old(self).blocks,
            final(self).token == old(self).token,
            final(self).apply_more == old(self).apply_more,
            final(self).mem@.len() == old(self).mem@.len(),
            forall|s: int|
                0 <= s < old(self).mem@.len() ==> #[trigger] final(self).mem@[s].info == old(self).mem@[s].info,
    {
        let ghost token = self.token as int;
        let ghost mem0 = self.mem@;
        let ghost len = mem0.len() as int;
        let ghost free0 = self.free@;
        let ghost blocks0 = self.blocks@;
        let ghost c = cycle(token, free0);
        let ghost n = c.len() as int;
        let ghost jn = next_idx(k + 1, n);
        assert(c[k + 1] == x);
        proof {
            lemma_nodes_distinct(token, mem0, blocks0, free0, k + 1, k);
            lemma_nodes_distinct(token, mem0, blocks0, free0, k, k + 1);
            assert(link_ok_at(token, mem0, c, k + 1));
            assert(prev_idx(k + 1, n) == k);
            if jn != k {
                lemma_nodes_distinct(token, mem0, blocks0, free0, jn, k);
            }
            lemma_nodes_distinct(token, mem0, blocks0, free0, jn, k + 1);
        }
        let xm = self.read(x);
        let tail = x + xm.get_capacity();
        assert(tail == node_tail(token, mem0, x as int));
        let tm = self.read(tail);
        assert(tm.rel_ref == c[k] - token);
        let prev = self.token + tm.rel_ref as usize;
        let next = self.token + xm.rel_ref as usize;
        assert(prev == c[k]);
        assert(next == c[jn]);
        let mut pm = self.read(prev);
        pm.rel_ref = xm.rel_ref;
        self.write(prev, pm);
        let ghost mem1 = self.mem@;
        proof {
            if next != prev {
                lemma_slot_distinct(token, next as int, prev as int);
            }
            lemma_slot_distinct(token, node_tail(token, mem0, next as int), prev as int);
            lemma_slot_in_range(token, len, prev as int);
            lemma_slot_in_range(token, len, next as int);
        }
        let nm = self.read(next);
        assert(nm.capacity() == meta_at(token, mem0, next as int).capacity());
        let ntail = next + nm.get_capacity();
        assert(ntail == node_tail(token, mem0, next as int));
        let mut ntm = self.read(ntail);
        ntm.rel_ref = tm.rel_ref;
        self.write(ntail, ntm);
        self.free = Ghost(self.free@.remove(k));
        proof {
            lemma_slot_distinct(token, ntail as int, prev as int);
            assert(self.mem@ =~= unlink_mem(token, mem0, free0, k));
            lemma_unlink(token, mem0, blocks0, free0, k);
        }
    }
    /// Puts the free block at `y`, which is off the list, on the list right after
    /// cycle node `p` (at address `pre`).
    fn link_after(&mut self, pre: usize, y: usize, Ghost(p): Ghost<int>)
        requires
            list_ok(old(self).token as int, old(self).mem@, old(self).blocks@, old(self).free@),
            0 <= p <= old(self).free@.len(),
            cycle(old(self).token as int, old(self).free@)[p] == pre,
            is_free_start(old(self).blocks@, y as int),
            !old(self).free@.contains(y as int),
            old(self).token + 8 * old(self).mem@.len() <= usize::MAX,
        ensures
            list_ok(final(self).token as int, final(self).mem@, final(self).blocks@, final(self).free@),
            final(self).free@ == old(self).free@.insert(p, y as int),
            final(self).mem@ == link_mem(old(self).token as int, old(self).mem@, old(self).free@, p, y as int),
            final(self).blocks == old(self).blocks,
            final(self).token == old(self).token,
            final(self).apply_more == old(self).apply_more,
            final(self).mem@.len() == old(self).mem@.len(),
            forall|s: int|
                0 <= s < old(self).mem@.len() ==> #[trigger] final(self).mem@[s].info == old(self).mem@[s].info,
    {
        let ghost token = self.token as int;
        let ghost mem0 = self.mem@;
        let ghost len = mem0.len() as int;
        let ghost free0 = self.free@;
        let ghost blocks0 = self.blocks@;
        let ghost c = cycle(token, free0);
        let ghost n = c.len() as int;
        let ghost jn = next_idx(p, n);
        proof {
            lemma_outsider(token, mem0, blocks0, free0, y as int, p);
            lemma_outsider(token, mem0, blocks0, free0, y as int, jn);
            lemma_node_valid(token, mem0, blocks0, free0, p);
            lemma_node_valid(token, mem0, blocks0, free0, jn);
            if jn != p {
                lemma_nodes_distinct(token, mem0, blocks0, free0, p, jn);
            }
            assert(link_ok_at(token, mem0, c, p));
            assert(link_ok_at(token, mem0, c, jn));
            if jn != p {
                assert(prev_idx(jn, n) == p);
            } else {
                assert(n == 1);
            }
            lemma_slot_in_range(token, len, y as int);
            lemma_slot_in_range(token, len, node_tail(token, mem0, y as int));
            lemma_slot_in_range(token, len, pre as int);
            lemma_slot_in_range(token, len, node_tail(token, mem0, c[jn]));
            lemma_slot_distinct(token, y as int, pre as int);
            lemma_slot_distinct(token, y as int, node_tail(token, mem0, y as int));
            lemma_slot_distinct(token, y as int, node_tail(token, mem0, c[jn]));
            lemma_slot_distinct(token, pre as int, node_tail(token, mem0, y as int));
            lemma_slot_distinct(token, pre as int, node_tail(token, mem0, c[jn]));
            lemma_slot_distinct(token, node_tail(token, mem0, y as int), node_tail(token, mem0, c[jn]));
            if c[jn] != pre {
                lemma_slot_distinct(token, c[jn], pre as int);
            }
        }
        let pm = self.read(pre);
        let next = self.token + pm.rel_ref as usize;
        assert(next == c[jn]);
        let nm = self.read(next);
        let ntail = next + nm.get_capacity();
        assert(ntail == node_tail(token, mem0, next as int));
        let ym = self.read(y);
        let ytail = y + ym.get_capacity();
        assert(ytail == node_tail(token, mem0, y as int));
        let rel_y = (y - self.token) as u32;
        // the new block points forward to the old successor
        let mut m = ym;
        m.rel_ref = pm.rel_ref;
        self.write(y, m);
        // the predecessor points forward to the new block
        let mut m = pm;
        m.rel_ref = rel_y;
        self.write(pre, m);
        // the new block points back to the predecessor
        let ntm = self.read(ntail);
        let mut m = self.read(ytail);
        m.rel_ref = ntm.rel_ref;
        self.write(ytail, m);
        // the old successor points back to the new block
        let mut m = ntm;
        m.rel_ref = rel_y;
        self.write(ntail, m);
        self.free = Ghost(self.free@.insert(p, y as int));
        proof {
            assert(self.mem@ =~= link_mem(token, mem0, free0, p, y as int));
            lemma_link(token, mem0, blocks0, free0, p, y as int);
        }
    }
    /// Writes the header and footer of a block at `start` with capacity `cap` and
    /// the given status, keeping the links stored in those words.
    fn write_block(&mut self, start: usize, cap: usize, occupied: bool)
        requires
            valid_addr(old(self).token as int, old(self).mem@.len() as int, start as int),
            valid_addr(old(self).token as int, old(self).mem@.len() as int, start + cap),
            8 <= cap <= MAX_CAPACITY,
            old(self).token + 8 * old(self).mem@.len() <= usize::MAX,
        ensures
            final(self).token == old(self).token,
            final(self).blocks == old(self).blocks,
            final(self).free == old(self).free,
            final(self).apply_more == old(self).apply_more,
            final(self).mem@.len() == old(self).mem@.len(),
            block_written(old(self).token as int, old(self).mem@, final(self).mem@, start as int, cap as int, occupied),
            meta_at(final(self).token as int, final(self).mem@, start as int).capacity() == cap,
            meta_at(final(self).token as int, final(self).mem@, start as int).occupied() == occupied,
            meta_at(final(self).token as int, final(self).mem@, start as int).rel_ref
                == meta_at(old(self).token as int, old(self).mem@, start as int).rel_ref,
            meta_at(final(self).token as int, final(self).mem@, start + cap).capacity() == cap,
            meta_at(final(self).token as int, final(self).mem@, start + cap).occupied() == occupied,
            meta_at(final(self).token as int, final(self).mem@, start + cap).rel_ref
                == meta_at(old(self).token as int, old(self).mem@, start + cap).rel_ref,
            forall|a: int|
                valid_addr(old(self).token as int, old(self).mem@.len() as int, a) && a != start && a != start + cap
                    ==> #[trigger] meta_at(final(self).token as int, final(self).mem@, a)
                        == meta_at(old(self).token as int, old(self).mem@, a),
    {
        let ghost token = self.token as int;
        let ghost len = self.mem@.len() as int;
        let ghost mem0 = self.mem@;
        proof {
            lemma_slot_distinct(token, start as int, start + cap);
            lemma_slot_in_range(token, len, start as int);
            lemma_slot_in_range(token, len, start + cap);
        }
        let mut head = self.read(start);
        head.set_capacity(cap);
        if occupied {
            head.set_occupy();
        } else {
            head.set_free();
        }
        self.write(start, head);
        let tail = start + cap;
        let mut foot = self.read(tail);
        foot.set_capacity(cap);
        if occupied {
            foot.set_occupy();
        } else {
            foot.set_free();
        }
        self.write(tail, foot);
        proof {
            assert forall|a: int|
                valid_addr(token, len, a) && a != start && a != start + cap implies
                #[trigger] meta_at(token, self.mem@, a) == meta_at(token, mem0, a) by {
                lemma_slot_distinct(token, a, start as int);
                lemma_slot_distinct(token, a, start + cap);
                lemma_slot_in_range(token, len, a);
            }
        }
    }
    /// Hands out the free block at position `k` of the free list (block `i`) if it has
    /// room for `capacity` bytes rounded up to a word; returns its header address.
    fn alloc_block(&mut self, x: usize, capacity: usize, Ghost(k): Ghost<int>, Ghost(i): Ghost<int>) -> (r: Option<usize>)
        requires
            old(self).wf(),
            0 <= k < old(self).free@.len(),
            old(self).free@[k] == x,
            1 <= i < old(self).blocks@.len(),
            old(self).blocks@[i].start == x,
            1 <= capacity <= usize::MAX - 32,
        ensures
            final(self).wf(),
            final(self).token == old(self).token,
            final(self).mem@.len() == old(self).mem@.len(),
            final(self).apply_more == old(self).apply_more,
            old(self).blocks@[i].cap >= align8(capacity as int) ==> {
                &&& r == Some(x)
                &&& final(self).blocks@ == carve_blocks(old(self).blocks@, i, align8(capacity as int))
                &&& final(self).free@ == carve_free(old(self).blocks@, old(self).free@, k, i, align8(capacity as int))
            },
            old(self).blocks@[i].cap < align8(capacity as int) ==> r is None && *final(self) == *old(self),
    {
        let ghost token = self.token as int;
        let ghost len = self.mem@.len() as int;
        let ghost end = token + 8 * len;
        let ghost mem0 = self.mem@;
        let ghost blocks0 = self.blocks@;
        let ghost free0 = self.free@;
        let ghost b = blocks0[i];
        let need = align(capacity);
        proof {
            assert(block_ok(b, token, end));
            assert(block_meta_ok(token, mem0, b));
            assert(is_free_start(blocks0, free0[k]));
            let i2 = choose|i2: int| 1 <= i2 < blocks0.len() && #[trigger] blocks0[i2].start == free0[k] && !blocks0[i2].occupied;
            lemma_start_unique(blocks0, token, end, i, i2);
            law_alloc_coalesced(blocks0, i, need as int);
        }
        let cap = self.read(x).get_capacity();
        if cap >= need + META_SIZE * 2 {
            proof {
                lemma_unlink_self(token, mem0, blocks0, free0, k);
                lemma_unlink(token, mem0, blocks0, free0, k);
                assert(cycle(token, free0)[k + 1] == x);
            }
            self.unlink(x, Ghost(k));
            let ghost mem1 = self.mem@;
            let pre = self.token + self.read(x + cap).rel_ref as usize;
            self.write_block(x, need, true);
            let ghost mem_a = self.mem@;
            let rest = x + need + META_SIZE;
            self.write_block(rest, cap - need - META_SIZE, false);
            proof {
                lemma_split(token, mem1, mem_a, self.mem@, blocks0, free0, k, i, need as int);
            }
            self.blocks = Ghost(carve_blocks(blocks0, i, need as int));
            self.link_after(pre, rest, Ghost(k));
            proof {
                lemma_split_complete(token, end, blocks0, free0, k, i, need as int);
            }
            Some(x)
        } else if cap >= need {
            proof {
                lemma_unlink(token, mem0, blocks0, free0, k);
                lemma_slot_in_range(token, len, block_tail(b));
            }
            self.unlink(x, Ghost(k));
            let ghost mem1 = self.mem@;
            self.write_block(x, cap, true);
            proof {
                lemma_whole(token, mem1, self.mem@, blocks0, free0, k, i, need as int);
            }
            self.blocks = Ghost(carve_blocks(blocks0, i, need as int));
            self.free = Ghost(carve_free(blocks0, free0, k, i, need as int));
            Some(x)
        } else {
            None
        }
    }
    /// Walks the free list from the root and hands out the first block with room
    /// for `capacity` bytes (rounded up to a word); returns the address of its
    /// payload, just after the header.
    fn alloc_inner(&mut self, capacity: usize) -> (r: Option<usize>)
        requires
            old(self).wf(),
            1 <= capacity <= usize::MAX - 32,
        ensures
            final(self).wf(),
            final(self).token == old(self).token,
            final(self).mem@.len() == old(self).mem@.len(),
            final(self).apply_more == old(self).apply_more,
            match r {
                None => {
                    &&& forall|k: int|
                        0 <= k < old(self).free@.len() ==> cap_of(old(self).blocks@, #[trigger] old(self).free@[k])
                            < align8(capacity as int)
                    &&& *final(self) == *old(self)
                },
                Some(a) => exists|k: int|
                    {
                        &&& is_first_fit(old(self).blocks@, old(self).free@, align8(capacity as int), k)
                        &&& a == old(self).free@[k] + 8
                        &&& final(self).blocks@ == carve_blocks(
                            old(self).blocks@,
                            index_of_start(old(self).blocks@, old(self).free@[k]),
                            align8(capacity as int),
                        )
                        &&& final(self).free@ == carve_free(
                            old(self).blocks@,
                            old(self).free@,
                            k,
                            index_of_start(old(self).blocks@, old(self).free@[k]),
                            align8(capacity as int),
                        )
                    },
            },
    {
        let ghost token = self.token as int;
        let ghost len = self.mem@.len() as int;
        let ghost end = token + 8 * len;
        let ghost blocks0 = self.blocks@;
        let ghost free0 = self.free@;
        let ghost mem0 = self.mem@;
        let ghost c = cycle(token, free0);
        let ghost n = c.len() as int;
        let ghost need = align8(capacity as int);
        proof {
            lemma_node_valid(token, mem0, blocks0, free0, 0);
            lemma_node_valid(token, mem0, blocks0, free0, next_idx(0, n));
            assert(link_ok_at(token, mem0, c, 0));
        }
        let root = self.read(self.token);
        let mut cur = self.token + root.rel_ref as usize;
        let ghost mut j: int = 1;
        while cur != self.token
            invariant
                *self == *old(self),
                self.wf(),
                token == self.token,
                blocks0 == self.blocks@,
                free0 == self.free@,
                mem0 == self.mem@,
                c == cycle(token, free0),
                n == c.len(),
                len == self.mem@.len(),
                end == token + 8 * len,
                need == align8(capacity as int),
                1 <= capacity <= usize::MAX - 32,
                1 <= j <= n,
                j < n ==> cur == c[j],
                j == n ==> cur == token,
                forall|k2: int| 0 <= k2 < j - 1 ==> cap_of(blocks0, #[trigger] free0[k2]) < need,
            decreases n - j,
        {
            let ghost k = j - 1;
            proof {
                if j == n {
                    assert(false);
                }
                assert(c[j] == free0[k]);
                lemma_node_valid(token, mem0, blocks0, free0, j);
                assert(link_ok_at(token, mem0, c, j));
                assert(is_free_start(blocks0, free0[k]));
                assert(entries_ok(blocks0, free0));
            }
            let ghost i = index_of_start(blocks0, cur as int);
            proof {
                let i2 = choose|i2: int| 1 <= i2 < blocks0.len() && #[trigger] blocks0[i2].start == free0[k] && !blocks0[i2].occupied;
                lemma_start_unique(blocks0, token, end, i, i2);
                assert(block_ok(blocks0[i], token, end));
            }
            match self.alloc_block(cur, capacity, Ghost(k), Ghost(i)) {
                Some(addr) => {
                    proof {
                        assert(is_first_fit(blocks0, free0, need, k));
                    }
                    return Some(addr + META_SIZE);
                },
                None => {},
            }
            proof {
                lemma_node_valid(token, mem0, blocks0, free0, next_idx(j, n));
            }
            let next = self.read(cur).rel_ref;
            cur = self.token + next as usize;
            proof {
                j = j + 1;
            }
        }
        proof {
            if j < n {
                let i1 = lemma_node(token, mem0, blocks0, free0, j);
                lemma_start_unique(blocks0, token, end, i1, 0);
            }
            assert forall|k: int| 0 <= k < free0.len() implies cap_of(blocks0, #[trigger] free0[k]) < need by {
                assert(k < j - 1);
            }
        }
        None
    }
    /// Address just past the heap.
    fn end_addr(&self) -> (r: usize)
        requires
            8 * self.mem@.len() <= MAX_HEAP_SIZE,
        ensures
            r == if self.end() > usize::MAX { usize::MAX as int } else { self.end() },
    {
        self.token.saturating_add(self.mem.len() * META_SIZE)
    }

    /// Whether `addr` lies inside the heap.
    fn is_valid_addr(&self, addr: usize) -> (r: bool)
        requires
            8 * self.mem@.len() <= MAX_HEAP_SIZE,
            self.end() <= usize::MAX,
        ensures
            r == (self.token <= addr < self.end()),
    {
        addr >= self.token && addr < self.end_addr()
    }

    /// The header address of the block right of block `i`, if that block is free.
    fn freed_right_neighbor(&self, x: usize, Ghost(i): Ghost<int>) -> (r: Option<usize>)
        requires
            self.wf(),
            1 <= i < self.blocks@.len(),
            self.blocks@[i].start == x,
        ensures
            r == if i + 1 < self.blocks@.len() && !self.blocks@[i + 1].occupied {
                Some(self.blocks@[i + 1].start as usize)
            } else {
                None::<usize>
            },
    {
        let ghost token = self.token as int;
        let ghost end = self.end();
        let ghost blocks = self.blocks@;
        proof {
            assert(block_ok(blocks[i], token, end));
            assert(block_meta_ok(token, self.mem@, blocks[i]));
            if i + 1 < blocks.len() {
                assert(block_ok(blocks[i + 1], token, end));
                assert(block_meta_ok(token, self.mem@, blocks[i + 1]));
                assert(blocks[i + 1].start == block_end(blocks[i]));
            } else {
                assert(blocks.last() == blocks[i]);
            }
        }
        let tail = x + self.read(x).get_capacity();
        let right = tail.saturating_add(META_SIZE);
        if !self.is_valid_addr(right) {
            return None;
        }
        if self.read(right).has_occupied() {
            return None;
        }
        Some(right)
    }

    /// The header address of the block left of block `i`, if that block is free.
    /// Besides the footer of the left block, it checks that the header found from it
    /// agrees and that its forward link leads to the root or to a free block. The
    /// footer of an occupied block is taken as the heap wrote it. Were that word
    /// overwritten by the block's user, these checks would not reject every such word:
    /// a zero word reads as a free block of capacity 0 whose link names the root, and
    /// passes them all.
    fn freed_left_neighbor(&self, x: usize, Ghost(i): Ghost<int>) -> (r: Option<usize>)
        requires
            self.wf(),
            1 <= i < self.blocks@.len(),
            self.blocks@[i].start == x,
        ensures
            r == if !self.blocks@[i - 1].occupied {
                Some(self.blocks@[i - 1].start as usize)
            } else {
                None::<usize>
            },
    {
        let ghost token = self.token as int;
        let ghost end = self.end();
        let ghost blocks = self.blocks@;
        let ghost mem = self.mem@;
        let ghost lb = blocks[i - 1];
        proof {
            assert(block_ok(lb, token, end));
            assert(block_meta_ok(token, mem, lb));
            assert(blocks[i].start == block_end(lb));
        }
        let left_tail = x.saturating_sub(META_SIZE);
        if !self.is_valid_addr(left_tail) {
            return None;
        }
        let tail_meta = self.read(left_tail);
        if tail_meta.has_occupied() {
            return None;
        }
        let capacity = tail_meta.get_capacity();
        if capacity > left_tail {
            return None;
        }
        if !self.is_valid_addr(left_tail - capacity) {
            return None;
        }
        let head = left_tail - capacity;
        let head_meta = self.read(head);
        let ghost free = self.free@;
        let ghost c = cycle(token, free);
        proof {
            // the free left block is on the list; its forward link names a list node
            assert(i - 1 >= 1) by {
                if i - 1 == 0 {
                    assert(blocks[0].occupied);
                }
            }
            assert(free.contains(lb.start));
            let kk = free.index_of(lb.start);
            lemma_entry_index(free, lb.start);
            assert(c[kk + 1] == lb.start);
            assert(link_ok_at(token, mem, c, kk + 1));
            let jn = next_idx(kk + 1, c.len() as int);
            lemma_node_valid(token, mem, blocks, free, jn);
            let inext = lemma_node(token, mem, blocks, free, jn);
            assert(block_meta_ok(token, mem, blocks[inext]));
        }
        if head_meta.has_occupied() || head_meta.get_capacity() != capacity {
            return None;
        }
        let next = self.token + head_meta.rel_ref as usize;
        if !self.is_valid_addr(next) {
            return None;
        }
        if next != self.token && self.read(next).has_occupied() {
            return None;
        }
        Some(head)
    }
    /// Takes the free neighbours of block `i` that are about to be swallowed off the list.
    fn unlink_neighbors(&mut self, right: Option<usize>, left: Option<usize>, Ghost(i): Ghost<int>)
        requires
            old(self).wf(),
            1 <= i < old(self).blocks@.len(),
            old(self).blocks@[i].occupied,
            right == if i + 1 < old(self).blocks@.len() && !old(self).blocks@[i + 1].occupied {
                Some(old(self).blocks@[i + 1].start as usize)
            } else {
                None::<usize>
            },
            left == if !old(self).blocks@[i - 1].occupied {
                Some(old(self).blocks@[i - 1].start as usize)
            } else {
                None::<usize>
            },
        ensures
            list_ok(final(self).token as int, final(self).mem@, final(self).blocks@, final(self).free@),
            final(self).free@ == release_rest(old(self).blocks@, old(self).free@, i),
            final(self).blocks == old(self).blocks,
            final(self).token == old(self).token,
            final(self).apply_more == old(self).apply_more,
            final(self).mem@.len() == old(self).mem@.len(),
            forall|s: int|
                0 <= s < old(self).mem@.len() ==> #[trigger] final(self).mem@[s].info == old(self).mem@[s].info,
    {
        let ghost token = self.token as int;
        let ghost len = self.mem@.len() as int;
        let ghost end = token + 8 * len;
        let ghost mem0 = self.mem@;
        let ghost blocks0 = self.blocks@;
        let ghost free0 = self.free@;
        proof {
            lemma_release_rest(token, end, blocks0, free0, i);
        }
        if let Some(r) = right {
            let ghost k = self.free@.index_of(r as int);
            proof {
                assert(block_ok(blocks0[i + 1], token, end));
                assert(blocks0[i + 1].start == r as int);
                assert(free0.contains(r as int));
                lemma_entry_index(free0, r as int);
            }
            self.unlink(r, Ghost(k));
        }
        let ghost f1 = self.free@;
        let ghost mem1 = self.mem@;
        if let Some(l) = left {
            let ghost k = self.free@.index_of(l as int);
            proof {
                assert(block_ok(blocks0[i - 1], token, end));
                assert(blocks0[i - 1].start == l as int);
                assert(i - 1 >= 1) by {
                    if i == 1 {
                        assert(blocks0[0].occupied);
                    }
                }
                assert(free0.contains(l as int));
                if right is Some {
                    assert(block_ok(blocks0[i - 1], token, end));
                    lemma_ordered(blocks0, token, end, i - 1, i + 1);
                    lemma_drop_keeps(free0, blocks0[i + 1].start, l as int);
                }
                lemma_entry_index(f1, l as int);
            }
            self.unlink(l, Ghost(k));
            proof {
                assert forall|s: int| 0 <= s < len implies #[trigger] self.mem@[s].info == mem0[s].info by {
                    assert(mem1[s].info == mem0[s].info);
                }
            }
        }
    }

    /// Releases the occupied block `i` (header at `x`): it is coalesced with the free
    /// blocks right and left of it, and the result goes to the front of the free list.
    #[verifier::spinoff_prover]
    #[verifier::rlimit(40)]
    fn dealloc_block(&mut self, x: usize, Ghost(i): Ghost<int>)
        requires
            old(self).wf(),
            1 <= i < old(self).blocks@.len(),
            old(self).blocks@[i].start == x,
            old(self).blocks@[i].occupied,
        ensures
            final(self).wf(),
            final(self).blocks@ == release_blocks(old(self).blocks@, i),
            final(self).free@ == release_free(old(self).blocks@, old(self).free@, i),
            final(self).token == old(self).token,
            final(self).mem@.len() == old(self).mem@.len(),
            final(self).apply_more == old(self).apply_more,
    {
        let ghost token = self.token as int;
        let ghost len = self.mem@.len() as int;
        let ghost end = token + 8 * len;
        let ghost mem0 = self.mem@;
        let ghost blocks0 = self.blocks@;
        let ghost free0 = self.free@;
        let ghost lo_i = merge_lo(blocks0, i);
        let ghost hi_i = merge_hi(blocks0, i);
        proof {
            law_release_coalesced(blocks0, i);
            lemma_release_rest(token, end, blocks0, free0, i);
            assert(block_ok(blocks0[i], token, end));
            assert(block_meta_ok(token, mem0, blocks0[i]));
            assert(block_ok(blocks0[lo_i], token, end));
            assert(block_ok(blocks0[hi_i], token, end));
            assert(block_meta_ok(token, mem0, blocks0[lo_i]));
            assert(block_meta_ok(token, mem0, blocks0[hi_i]));
            assert(block_ok(blocks0[i - 1], token, end));
            if i + 1 < blocks0.len() {
                assert(blocks0[i + 1].start == block_end(blocks0[i]));
            }
            assert(blocks0[i].start == block_end(blocks0[i - 1]));
        }
        let cap = self.read(x).get_capacity();
        let right = self.freed_right_neighbor(x, Ghost(i));
        let left = self.freed_left_neighbor(x, Ghost(i));
        let mut total = cap;
        let mut lo = x;
        if let Some(r) = right {
            total = total + self.read(r).get_capacity() + META_SIZE;
        }
        if let Some(l) = left {
            total = total + self.read(l).get_capacity() + META_SIZE;
            lo = l;
        }
        assert(lo == merged_block(blocks0, i).start);
        assert(total == merged_block(blocks0, i).cap);
        self.unlink_neighbors(right, left, Ghost(i));
        let ghost mem2 = self.mem@;
        self.write_block(lo, total, false);
        proof {
            lemma_release(token, mem2, self.mem@, blocks0, free0, i);
        }
        self.blocks = Ghost(release_blocks(blocks0, i));
        let token_addr = self.token;
        self.link_after(token_addr, lo, Ghost(0));
        proof {
            assert(self.free@ =~= release_free(blocks0, free0, i));
        }
    }
    /// The blocks of a well-formed heap tile it.
    pub proof fn lemma_layout(&self)
        requires
            self.wf(),
        ensures
            layout_ok(self.blocks(), self.start(), self.end()),
    {
    }

    /// An allocated payload address lies inside the heap on a word boundary, after
    /// the root block, and its header is marked occupied.
    pub proof fn lemma_allocated_aligned(&self, addr: int)
        requires
            self.wf(),
            self.is_allocated(addr),
        ensures
            addr % 8 == 0,
            self.start() + 24 <= addr <= self.end() - 8,
            0 <= self.start(),
            self.occupied_flag(addr - 8),
    {
        let token = self.token as int;
        let blocks = self.blocks@;
        let i = choose|i: int| 1 <= i < blocks.len() && #[trigger] blocks[i].start == addr - 8 && blocks[i].occupied;
        assert(block_ok(blocks[i], token, self.end()));
        assert(block_meta_ok(token, self.mem@, blocks[i]));
        lemma_ordered(blocks, token, self.end(), 0, i);
    }

    /// An empty, uninitialised heap.
    pub fn new() -> (r: Self)
        ensures
            r.source() is None,
            r.start() == 0,
            r.end() == 0,
    {
        HeapInner {
            token: 0,
            mem: Vec::new(),
            apply_more: None,
            blocks: Ghost(Seq::empty()),
            free: Ghost(Seq::empty()),
        }
    }

    /// Sets up a heap over `capacity` bytes from `addr`: the root block and one free
    /// block that covers the rest.
    pub fn init(&mut self, addr: usize, capacity: usize)
        requires
            addr % 8 == 0,
            capacity % 8 == 0,
            32 <= capacity <= MAX_HEAP_SIZE,
            addr + capacity <= usize::MAX,
        ensures
            final(self).wf(),
            final(self).start() == addr,
            final(self).end() == addr + capacity,
            final(self).blocks() == initial_blocks(addr as int, capacity as int),
            final(self).free_list() == seq![addr + 16],
            final(self).source() == old(self).source(),
            final(self).words().len() == capacity / 8,
            final(self).words()[0].capacity() == 8 && final(self).words()[0].occupied()
                && final(self).words()[0].rel_ref == 16,
            final(self).words()[1].capacity() == 8 && final(self).words()[1].occupied()
                && final(self).words()[1].rel_ref == 16,
            final(self).words()[2].capacity() == capacity - 24 && !final(self).words()[2].occupied()
                && final(self).words()[2].rel_ref == 0,
            final(self).words()[capacity / 8 - 1].capacity() == capacity - 24 && !final(self).words()[capacity
                / 8 - 1].occupied() && final(self).words()[capacity / 8 - 1].rel_ref == 0,
            forall|i: int| 3 <= i < capacity / 8 - 1 ==> #[trigger] final(self).words()[i] == (Meta { info: 0, rel_ref: 0 }),
    {
        let words = capacity / META_SIZE;
        let mut mem: Vec<Meta> = Vec::new();
        let mut n: usize = 0;
        while n < words
            invariant
                n <= words,
                mem@.len() == n,
                forall|j: int| 0 <= j < n ==> #[trigger] mem@[j] == (Meta { info: 0, rel_ref: 0 }),
            decreases words - n,
        {
            mem.push(Meta { info: 0, rel_ref: 0 });
            n = n + 1;
        }
        self.token = addr;
        self.mem = mem;
        self.free = Ghost(Seq::<int>::empty().push(addr + 16));
        self.blocks = Ghost(initial_blocks(addr as int, capacity as int));
        let ghost mem_a = self.mem@;
        // the root block must keep both of its words, so its capacity is one word
        self.write_block(addr, META_SIZE, true);
        let next = addr + 2 * META_SIZE;
        let left_capacity = capacity - META_SIZE * 2;
        self.write_block(next, left_capacity - META_SIZE, false);
        let ghost mem_b = self.mem@;
        proof {
            let token = addr as int;
            assert(mem_b.len() * 8 == capacity);
            lemma_slot_distinct(token, token, token + 16);
            lemma_slot_distinct(token, token, token + capacity - 8);
            lemma_slot_distinct(token, token + 8, token + 16);
            lemma_slot_distinct(token, token + 8, token + capacity - 8);
            assert(block_meta_ok(token, mem_b, self.blocks@[0]));
            assert(block_meta_ok(token, mem_b, self.blocks@[1]));
        }
        let rel_next = (next - addr) as u32;
        let mut m = self.read(addr);
        m.rel_ref = rel_next;
        self.write(addr, m);
        let mut m = self.read(addr + META_SIZE);
        m.rel_ref = rel_next;
        self.write(addr + META_SIZE, m);
        let mut m = self.read(next);
        m.rel_ref = 0;
        self.write(next, m);
        let mut m = self.read(next + left_capacity - META_SIZE);
        m.rel_ref = 0;
        self.write(next + left_capacity - META_SIZE, m);
        proof {
            let token = addr as int;
            let mem = self.mem@;
            let len = mem.len() as int;
            let blocks = self.blocks@;
            let free = self.free@;
            assert(len * 8 == capacity);
            lemma_slot_distinct(token, token, token + 8);
            lemma_slot_distinct(token, token, token + 16);
            lemma_slot_distinct(token, token, token + capacity - 8);
            lemma_slot_distinct(token, token + 8, token + 16);
            lemma_slot_distinct(token, token + 8, token + capacity - 8);
            lemma_slot_distinct(token, token + 16, token + capacity - 8);
            lemma_slot_in_range(token, len, token);
            lemma_slot_in_range(token, len, token + 8);
            lemma_slot_in_range(token, len, token + 16);
            lemma_slot_in_range(token, len, token + capacity - 8);
            assert forall|sl: int| 0 <= sl < len implies #[trigger] mem[sl].info == mem_b[sl].info by {}
            lemma_metas_frame(token, mem_b, mem, blocks);
            assert(layout_ok(blocks, token, token + 8 * len));
            assert(entries_ok(blocks, free)) by {
                assert(blocks[1].start == free[0]);
            }
            let c = cycle(token, free);
            assert(link_ok_at(token, mem, c, 0));
            assert(link_ok_at(token, mem, c, 1));
            assert(slot(token, token) == 0);
            assert(slot(token, token + 8) == 1);
            assert(slot(token, token + 16) == 2);
            assert(slot(token, token + capacity - 8) == len - 1);
            assert forall|i: int| 3 <= i < len - 1 implies #[trigger] mem[i] == (Meta { info: 0, rel_ref: 0 }) by {
                let a = token + 8 * i;
                assert(slot(token, a) == i);
                assert(valid_addr(token, len, a));
                assert(meta_at(token, mem_b, a) == meta_at(token, mem_a, a));
            }
        }
    }

    /// Sets the source of more memory.
    pub fn set_apply_more(&mut self, apply_more: A)
        ensures
            final(self).source() == Some(apply_more),
            final(self).start() == old(self).start(),
            final(self).end() == old(self).end(),
            final(self).blocks() == old(self).blocks(),
            final(self).free_list() == old(self).free_list(),
            old(self).wf() ==> final(self).wf(),
    {
        self.apply_more = Some(apply_more);
    }

    /// Releases the block whose payload starts at `addr`. Refuses (`Err(1)`) an address
    /// whose header would lie outside the heap or off a word boundary, and (`Err(2)`)
    /// one whose header is not marked occupied.
    pub(crate) fn my_dealloc(&mut self, addr: usize) -> (r: Result<(), usize>)
        requires
            old(self).wf(),
            addr >= 8,
            old(self).start() <= addr - 8 < old(self).end() && (addr - 8) % 8 == 0 && old(self).occupied_flag(addr - 8)
                ==> old(self).is_allocated(addr as int),
        ensures
            final(self).wf(),
            final(self).start() == old(self).start(),
            final(self).end() == old(self).end(),
            final(self).source() == old(self).source(),
            r == Err::<(), usize>(1) <==> !(old(self).start() <= addr - 8 < old(self).end() && (addr - 8) % 8 == 0),
            r == Err::<(), usize>(2) <==> old(self).start() <= addr - 8 < old(self).end() && (addr - 8) % 8 == 0
                && !old(self).occupied_flag(addr - 8),
            r is Ok <==> old(self).is_allocated(addr as int),
            r is Ok ==> final(self).blocks() == release_blocks(old(self).blocks(), index_of_start(old(self).blocks(), addr - 8))
                && final(self).free_list() == release_free(
                    old(self).blocks(),
                    old(self).free_list(),
                    index_of_start(old(self).blocks(), addr - 8),
                ),
            r is Err ==> *final(self) == *old(self),
    {
        let ghost token = self.token as int;
        let ghost end = self.end();
        let ghost blocks0 = self.blocks@;
        let addr = addr - META_SIZE;
        if !self.is_valid_addr(addr) || addr % META_SIZE != 0 {
            proof {
                if self.is_allocated(addr + 8) {
                    let i = choose|i: int| 1 <= i < blocks0.len() && #[trigger] blocks0[i].start == addr && blocks0[i].occupied;
                    assert(block_ok(blocks0[i], token, end));
                }
            }
            return Err(1);
        }
        let head = self.read(addr);
        if !head.has_occupied() {
            proof {
                if self.is_allocated(addr + 8) {
                    let i = choose|i: int| 1 <= i < blocks0.len() && #[trigger] blocks0[i].start == addr && blocks0[i].occupied;
                    assert(block_meta_ok(token, self.mem@, blocks0[i]));
                }
            }
            return Err(2);
        }
        let ghost i = index_of_start(blocks0, addr as int);
        proof {
            let i2 = choose|i2: int| 1 <= i2 < blocks0.len() && #[trigger] blocks0[i2].start == addr && blocks0[i2].occupied;
            lemma_start_unique(blocks0, token, end, i, i2);
        }
        self.dealloc_block(addr, Ghost(i));
        Ok(())
    }
    /// Extends the heap by `new_space` bytes right after its end: the new memory
    /// becomes one block that is released at once (coalescing with a free last block).
    fn grow(&mut self, new_space: usize)
        requires
            old(self).wf(),
            new_space % 8 == 0,
            new_space >= 16,
            8 * old(self).mem@.len() + new_space <= MAX_HEAP_SIZE,
            old(self).end() + new_space <= usize::MAX,
        ensures
            final(self).wf(),
            final(self).start() == old(self).start(),
            final(self).end() == old(self).end() + new_space,
            final(self).source() == old(self).source(),
            final(self).blocks() == release_blocks(
                old(self).blocks().push(BlockView { start: old(self).end(), cap: new_space - 8, occupied: true }),
                old(self).blocks().len() as int,
            ),
            final(self).free_list() == release_free(
                old(self).blocks().push(BlockView { start: old(self).end(), cap: new_space - 8, occupied: true }),
                old(self).free_list(),
                old(self).blocks().len() as int,
            ),
    {
        let ghost token = self.token as int;
        let ghost mem0 = self.mem@;
        let ghost len0 = mem0.len() as int;
        let ghost blocks0 = self.blocks@;
        let ghost free0 = self.free@;
        let end = self.end_addr();
        let words = new_space / META_SIZE;
        let mut n: usize = 0;
        while n < words
            invariant
                n <= words,
                words * 8 == new_space,
                self.token == token,
                self.blocks@ == blocks0,
                self.free@ == free0,
                self.apply_more == old(self).apply_more,
                self.mem@.len() == len0 + n,
                forall|sl: int| 0 <= sl < len0 ==> #[trigger] self.mem@[sl] == mem0[sl],
            decreases words - n,
        {
            self.mem.push(Meta { info: 0, rel_ref: 0 });
            n = n + 1;
        }
        let ghost mem1 = self.mem@;
        let cap = new_space - META_SIZE;
        self.write_block(end, cap, true);
        let ghost b = BlockView { start: end as int, cap: cap as int, occupied: true };
        proof {
            let mem3 = self.mem@;
            assert forall|a: int| valid_addr(token, len0, a) implies #[trigger] meta_at(token, mem3, a) == meta_at(token, mem0, a) by {
                lemma_slot_in_range(token, len0, a);
                assert(meta_at(token, mem1, a) == meta_at(token, mem0, a));
            }
            lemma_grow(token, mem0, mem3, blocks0, free0, b);
            law_extend_coalesced(blocks0, b);
            assert forall|i: int|
                #![trigger blocks0.push(b)[i]]
                1 <= i < blocks0.push(b).len() && !blocks0.push(b)[i].occupied implies free0.contains(blocks0.push(b)[i].start) by {
                assert(blocks0.push(b)[i] == blocks0[i]);
            }
        }
        self.blocks = Ghost(blocks0.push(b));
        self.dealloc_block(end, Ghost(blocks0.len() as int));
    }
}

/// A grant of `n` bytes that a heap over `[start, end)` can take at its end: whole
/// words, room for a header and a footer, within the largest heap and the address space.
pub open spec fn grant_usable(start: int, end: int, n: usize) -> bool {
    &&& n >= 16
    &&& n % 8 == 0
    &&& (end - start) + n <= MAX_HEAP_SIZE
    &&& end + n <= usize::MAX
}

/// The block that a grant of `n` bytes at `end` becomes before it is released.
pub open spec fn grant_block(end: int, n: usize) -> BlockView {
    BlockView { start: end, cap: n - 8, occupied: true }
}

/// The blocks, free list and end of a heap after it grows by each of `grants` in turn:
/// each grant becomes one block at the end, released at once (see `release_blocks`).
pub open spec fn grown(blocks: Seq<BlockView>, free: Seq<int>, end: int, grants: Seq<usize>) -> (
    Seq<BlockView>,
    Seq<int>,
    int,
)
    decreases grants.len(),
{
    if grants.len() == 0 {
        (blocks, free, end)
    } else {
        let g = grown(blocks, free, end, grants.drop_last());
        let n = grants.last();
        (
            release_blocks(g.0.push(grant_block(g.2, n)), g.0.len() as int),
            release_free(g.0.push(grant_block(g.2, n)), g.1, g.0.len() as int),
            g.2 + n,
        )
    }
}

/// Some free block of `free` has room for `need` bytes.
pub open spec fn some_block_fits(blocks: Seq<BlockView>, free: Seq<int>, need: int) -> bool {
    exists|k: int| 0 <= k < free.len() && cap_of(blocks, #[trigger] free[k]) >= need
}

/// What an allocation of `need` bytes does to heap `old`, giving `new` and the payload
/// address `r`: the heap grows by the grants `grants` that its source gave, each asked
/// for only when no free block of the heap grown so far fits; then the first free block that fits is carved, or,
/// when none fits, the answer is nothing, because there is no source or the source's
/// last answer was not a grant the heap can take.
pub open spec fn alloc_outcome<A: Fn() -> Option<usize>>(
    old: HeapInner<A>,
    new: HeapInner<A>,
    need: int,
    r: Option<usize>,
) -> bool {
    exists|grants: Seq<usize>|
        {
            let g = #[trigger] grown(old.blocks(), old.free_list(), old.end(), grants);
            &&& forall|j: int|
                0 <= j < grants.len() ==> old.source() is Some && call_ensures(old.source()->0, (), Some(#[trigger] grants[j]))
            &&& forall|j: int|
                0 <= j < grants.len() ==> !some_block_fits(
                    #[trigger] grown(old.blocks(), old.free_list(), old.end(), grants.take(j)).0,
                    grown(old.blocks(), old.free_list(), old.end(), grants.take(j)).1,
                    need,
                )
            &&& new.start() == old.start()
            &&& new.source() == old.source()
            &&& match r {
                Some(a) => exists|k: int|
                    {
                        &&& #[trigger] is_first_fit(g.0, g.1, need, k)
                        &&& a == g.1[k] + 8
                        &&& new.end() == g.2
                        &&& new.blocks() == carve_blocks(g.0, index_of_start(g.0, g.1[k]), need)
                        &&& new.free_list() == carve_free(g.0, g.1, k, index_of_start(g.0, g.1[k]), need)
                    },
                None => {
                    &&& new.blocks() == g.0
                    &&& new.free_list() == g.1
                    &&& new.end() == g.2
                    &&& !some_block_fits(g.0, g.1, need)
                    &&& (old.source() is None || exists|ans: Option<usize>|
                        old.source() is Some && #[trigger] call_ensures(old.source()->0, (), ans) && !(ans matches Some(n)
                            && grant_usable(old.start(), g.2, n)))
                },
            }
        }
}

impl<A> HeapInner<A> {
    /// Takes an answer of the source of more memory: a grant the heap can take grows
    /// it at its end (see `grown`); any other answer leaves the heap as it is. Returns
    /// whether the heap grew.
    pub fn take_grant(&mut self, answer: Option<usize>) -> (r: bool)
        requires
            old(self).wf(),
        ensures
            final(self).wf(),
            r <==> (answer matches Some(n) && grant_usable(old(self).start(), old(self).end(), n)),
            r ==> {
                let b = old(self).blocks().push(grant_block(old(self).end(), answer->0));
                &&& final(self).start() == old(self).start()
                &&& final(self).source() == old(self).source()
                &&& final(self).blocks() == release_blocks(b, old(self).blocks().len() as int)
                &&& final(self).free_list() == release_free(b, old(self).free_list(), old(self).blocks().len() as int)
                &&& final(self).end() == old(self).end() + answer->0
            },
            !r ==> *final(self) == *old(self),
    {
        match answer {
            Some(new_space) => {
                if new_space < 2 * META_SIZE || new_space % META_SIZE != 0
                    || new_space > MAX_HEAP_SIZE - self.mem.len() * META_SIZE
                    || new_space > usize::MAX - self.end_addr() {
                    return false;
                }
                self.grow(new_space);
                true
            },
            None => false,
        }
    }
}

impl<A: Fn() -> Option<usize>> HeapInner<A> {
    /// Hands out a block with room for `capacity` bytes (rounded up to a word) and
    /// returns its payload address. When no free block fits, it asks the source of
    /// more memory, grows the heap by the answer and tries again; without a source,
    /// when the source answers `None`, or when it answers a size the heap cannot take
    /// (not whole words, under two words, or past the largest heap or the address
    /// space), the answer is `None`.
    pub(crate) fn my_alloc(&mut self, capacity: usize) -> (r: Option<usize>)
        requires
            old(self).wf(),
            1 <= capacity <= usize::MAX - 32,
            old(self).source() matches Some(f) ==> call_requires(f, ()),
        ensures
            final(self).wf(),
            final(self).start() == old(self).start(),
            final(self).source() == old(self).source(),
            final(self).end() >= old(self).end(),
            r matches Some(a) ==> final(self).is_allocated(a as int)
                && cap_of(final(self).blocks(), a - 8) >= align8(capacity as int),
            alloc_outcome(*old(self), *final(self), align8(capacity as int), r),
            old(self).source() is None && !some_block_fits(old(self).blocks(), old(self).free_list(), align8(capacity as int))
                ==> r is None && *final(self) == *old(self),
            (exists|k: int| 0 <= k < old(self).free_list().len()
                && cap_of(old(self).blocks(), #[trigger] old(self).free_list()[k]) >= align8(capacity as int))
                ==> exists|k: int|
                {
                    &&& is_first_fit(old(self).blocks(), old(self).free_list(), align8(capacity as int), k)
                    &&& r == Some((old(self).free_list()[k] + 8) as usize)
                    &&& final(self).end() == old(self).end()
                    &&& final(self).blocks() == carve_blocks(
                        old(self).blocks(),
                        index_of_start(old(self).blocks(), old(self).free_list()[k]),
                        align8(capacity as int),
                    )
                    &&& final(self).free_list() == carve_free(
                        old(self).blocks(),
                        old(self).free_list(),
                        k,
                        index_of_start(old(self).blocks(), old(self).free_list()[k]),
                        align8(capacity as int),
                    )
                },
    {
        let ghost need = align8(capacity as int);
        let ghost mut first = true;
        let ghost mut grants: Seq<usize> = Seq::empty();
        loop
            invariant
                self.wf(),
                self.start() == old(self).start(),
                self.source() == old(self).source(),
                self.end() >= old(self).end(),
                old(self).source() matches Some(f) ==> call_requires(f, ()),
                1 <= capacity <= usize::MAX - 32,
                need == align8(capacity as int),
                first ==> *self == *old(self) && grants.len() == 0,
                old(self).source() is None ==> first,
                !first ==> !some_block_fits(old(self).blocks(), old(self).free_list(), need),
                grants.len() > 0 ==> !first,
                forall|j: int|
                    0 <= j < grants.len() ==> !some_block_fits(
                        #[trigger] grown(old(self).blocks(), old(self).free_list(), old(self).end(), grants.take(j)).0,
                        grown(old(self).blocks(), old(self).free_list(), old(self).end(), grants.take(j)).1,
                        need,
                    ),
                forall|j: int|
                    0 <= j < grants.len() ==> old(self).source() is Some && call_ensures(
                        old(self).source()->0,
                        (),
                        Some(#[trigger] grants[j]),
                    ),
                ({
                    let g = grown(old(self).blocks(), old(self).free_list(), old(self).end(), grants);
                    &&& self.blocks() == g.0
                    &&& self.free_list() == g.1
                    &&& self.end() == g.2
                }),
            decreases MAX_HEAP_SIZE - 8 * self.mem@.len(),
        {
            let ghost blocks0 = self.blocks@;
            let ghost free0 = self.free@;
            let ghost g = grown(old(self).blocks(), old(self).free_list(), old(self).end(), grants);
            match self.alloc_inner(capacity) {
                Some(addr) => {
                    proof {
                        let k = choose|k: int|
                            {
                                &&& is_first_fit(blocks0, free0, align8(capacity as int), k)
                                &&& addr == free0[k] + 8
                                &&& self.blocks@ == carve_blocks(
                                    blocks0,
                                    index_of_start(blocks0, free0[k]),
                                    align8(capacity as int),
                                )
                                &&& self.free@ == carve_free(
                                    blocks0,
                                    free0,
                                    k,
                                    index_of_start(blocks0, free0[k]),
                                    align8(capacity as int),
                                )
                            };
                        let i = index_of_start(blocks0, free0[k]);
                        assert(is_free_start(blocks0, free0[k]));
                        let i2 = choose|i2: int| 1 <= i2 < blocks0.len() && #[trigger] blocks0[i2].start == free0[k] && !blocks0[i2].occupied;
                        assert(block_ok(blocks0[i2], self.token as int, self.end()));
                        lemma_start_unique(blocks0, self.token as int, self.end(), i, i2);
                        let nb = self.blocks@;
                        assert(nb[i].start == addr - 8 && nb[i].occupied);
                        assert(nb[i].cap >= align8(capacity as int));
                        assert(0 <= i < nb.len() && nb[i].start == addr - 8);
                        let i3 = index_of_start(nb, addr - 8);
                        assert(0 <= i3 < nb.len() && nb[i3].start == addr - 8);
                        assert(layout_ok(nb, self.token as int, self.end()));
                        lemma_start_unique(nb, self.token as int, self.end(), i, i3);
                        assert(self.blocks()[i].start == addr - 8);
                        assert(self.is_allocated(addr as int));
                        assert(is_first_fit(g.0, g.1, need, k));
                        assert(alloc_outcome(*old(self), *self, need, Some(addr)));
                    }
                    return Some(addr);
                },
                None => {},
            }
            assert(!some_block_fits(g.0, g.1, need));
            let more = match &self.apply_more {
                Some(f) => f(),
                None => None,
            };
            let ghost mid = *self;
            if self.take_grant(more) {
                proof {
                    let n = more->0;
                    assert(old(self).source() is Some);
                    assert(call_ensures(old(self).source()->0, (), Some(n)));
                    if first {
                        assert(!some_block_fits(old(self).blocks(), old(self).free_list(), need));
                    }
                    first = false;
                    let gs = grants.push(n);
                    assert(gs.drop_last() =~= grants);
                    assert(gs.take(grants.len() as int) =~= grants);
                    assert forall|j: int| 0 <= j < gs.len() implies !some_block_fits(
                        #[trigger] grown(old(self).blocks(), old(self).free_list(), old(self).end(), gs.take(j)).0,
                        grown(old(self).blocks(), old(self).free_list(), old(self).end(), gs.take(j)).1,
                        need,
                    ) by {
                        if j < grants.len() {
                            assert(gs.take(j) =~= grants.take(j));
                        }
                    }
                    assert forall|j: int| 0 <= j < gs.len() implies old(self).source() is Some && call_ensures(
                        old(self).source()->0,
                        (),
                        Some(#[trigger] gs[j]),
                    ) by {
                        if j < grants.len() {
                            assert(gs[j] == grants[j]);
                        }
                    }
                    grants = gs;
                }
            } else {
                proof {
                    if old(self).source() is Some {
                        assert(call_ensures(old(self).source()->0, (), more));
                    } else {
                        assert(*self == mid);
                        assert(mid == *old(self));
                    }
                    assert(alloc_outcome(*old(self), *self, need, None));
                }
                return None;
            }
        }
    }
}

} // verus!
