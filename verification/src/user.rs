//! The user-side heap: it starts with one grant of memory from the kernel and asks
//! for more, a page at a time, up to a limit.
use vstd::prelude::*;

use crate::allocator::{heap, Heap};

verus! {

/// The bytes asked for at a time.
pub const APPLY_PER_TIME: usize = 4096;

/// The most bytes the heap asks for in all.
pub const MAX_APPLY_HEAP: usize = APPLY_PER_TIME * 16;

/// How much memory the heap was granted so far.
pub struct HeapGrowth {
    applied: usize,
}

impl HeapGrowth {
    pub closed spec fn applied(&self) -> usize {
        self.applied
    }

    pub fn new() -> (r: Self)
        ensures
            r.applied() == 0,
    {
        HeapGrowth { applied: 0 }
    }

    /// Whether the heap may ask for more: it was granted less than the limit.
    pub fn may_apply(&self) -> (r: bool)
        ensures
            r == (self.applied() < MAX_APPLY_HEAP),
    {
        self.applied < MAX_APPLY_HEAP
    }

    /// Takes the kernel's answer `result` to a request: a positive answer is the
    /// number of bytes granted, which count from now on; any other is a refusal.
    pub fn record(&mut self, result: isize) -> (r: Option<usize>)
        requires
            old(self).applied() < MAX_APPLY_HEAP,
        ensures
            result <= 0 ==> r is None && final(self).applied() == old(self).applied(),
            result > 0 ==> r == Some(result as usize) && final(self).applied() == (old(self).applied()
                + result) as usize,
    {
        if result <= 0 {
            None
        } else {
            let granted = result as usize;
            self.applied = self.applied.wrapping_add(granted);
            Some(granted)
        }
    }
}

/// Sets up the user heap at `heap_addr` over the first `applied` bytes granted, with
/// `apply_more` as the source of more memory.
pub fn init_heap<A>(allocator: &mut Heap<A>, heap_addr: usize, applied: usize, apply_more: A)
    requires
        heap_addr % 8 == 0,
        applied % 8 == 0,
        32 <= applied <= heap::MAX_HEAP_SIZE,
        heap_addr + applied <= usize::MAX,
    ensures
        final(allocator).inner().wf(),
        final(allocator).inner().start() == heap_addr,
        final(allocator).inner().end() == heap_addr + applied,
        final(allocator).inner().blocks() == heap::initial_blocks(heap_addr as int, applied as int),
        final(allocator).inner().free_list() == seq![heap_addr + 16],
        final(allocator).inner().source() == Some(apply_more),
{
    allocator.init(heap_addr, applied);
    allocator.set_apply_more(apply_more);
}

} // verus!
