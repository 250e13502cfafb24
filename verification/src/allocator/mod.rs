//! A first-fit heap allocator with boundary tags and a circular doubly linked free list.
//!
//! Every block carries a header word and a footer word (see [`meta`]); free blocks are
//! linked through them into a circular list that starts and ends at a sentinel root
//! block at the start of the heap. Allocation takes the first free block that fits and
//! splits off the rest when it can hold a block of its own; release coalesces the block
//! with free neighbours on both sides. When nothing fits, the heap asks a user-supplied
//! source for more memory, appends it and tries again.
use vstd::arithmetic::power2::pow2;
use vstd::prelude::*;

pub mod heap;
pub mod laws;
pub mod layout;
pub mod meta;

use heap::{align8, cap_of, HeapInner};

verus! {

/// `x` is a power of two.
pub open spec fn is_pow2(x: int) -> bool {
    exists|k: nat| pow2(k) == x
}

/// The bytes a request of `size` bytes asks for: a request of none asks for one.
pub open spec fn request_size(size: usize) -> int {
    if size == 0 {
        1
    } else {
        size as int
    }
}

/// Calls `usize::is_power_of_two`, which by its documentation returns true exactly
/// when `x` is `2^k` for some `k`.
#[verifier::external_body]
fn is_power_of_two(x: usize) -> (r: bool)
    ensures
        r == is_pow2(x as int),
{
    x.is_power_of_two()
}

/// The heap handed to users: an allocator with the interface of a global allocator,
/// where a null pointer is the address 0.
pub struct Heap<A>(HeapInner<A>);

impl<A> Heap<A> {
    /// The allocator state.
    pub closed spec fn inner(&self) -> HeapInner<A> {
        self.0
    }

    /// An empty heap, to be initialised with [`Heap::init`].
    pub fn new() -> (r: Self)
        ensures
            r.inner().source() is None,
            r.inner().start() == 0,
            r.inner().end() == 0,
    {
        Heap(HeapInner::new())
    }

    /// Manages the `capacity` bytes from `addr` (word-aligned, at least four words).
    pub fn init(&mut self, addr: usize, capacity: usize)
        requires
            addr % 8 == 0,
            capacity % 8 == 0,
            32 <= capacity <= heap::MAX_HEAP_SIZE,
            addr + capacity <= usize::MAX,
        ensures
            final(self).inner().wf(),
            final(self).inner().start() == addr,
            final(self).inner().end() == addr + capacity,
            final(self).inner().blocks() == heap::initial_blocks(addr as int, capacity as int),
            final(self).inner().free_list() == seq![addr + 16],
            final(self).inner().source() == old(self).inner().source(),
            final(self).inner().words().len() == capacity / 8,
            final(self).inner().words()[0].capacity() == 8 && final(self).inner().words()[0].occupied()
                && final(self).inner().words()[0].rel_ref == 16,
            final(self).inner().words()[1].capacity() == 8 && final(self).inner().words()[1].occupied()
                && final(self).inner().words()[1].rel_ref == 16,
            final(self).inner().words()[2].capacity() == capacity - 24 && !final(self).inner().words()[2].occupied()
                && final(self).inner().words()[2].rel_ref == 0,
            final(self).inner().words()[capacity / 8 - 1].capacity() == capacity - 24
                && !final(self).inner().words()[capacity / 8 - 1].occupied()
                && final(self).inner().words()[capacity / 8 - 1].rel_ref == 0,
            forall|i: int|
                3 <= i < capacity / 8 - 1 ==> #[trigger] final(self).inner().words()[i] == (meta::Meta { info: 0, rel_ref: 0 }),
    {
        self.0.init(addr, capacity);
    }

    /// Sets the source that the heap asks for more memory when no free block fits.
    pub fn set_apply_more(&mut self, apply_more: A)
        ensures
            final(self).inner().source() == Some(apply_more),
            final(self).inner().start() == old(self).inner().start(),
            final(self).inner().end() == old(self).inner().end(),
            final(self).inner().blocks() == old(self).inner().blocks(),
            final(self).inner().free_list() == old(self).inner().free_list(),
            old(self).inner().wf() ==> final(self).inner().wf(),
    {
        self.0.set_apply_more(apply_more);
    }
}

impl<A: Fn() -> Option<usize>> Heap<A> {
    /// Allocates `size` bytes aligned to `align`; returns the address, or 0 when the
    /// alignment is over a word or not a power of two, or when no memory could be found.
    /// A request of 0 bytes is served as one of 1 byte.
    pub fn allocate(&mut self, size: usize, align: usize) -> (r: usize)
        requires
            align <= 8 && is_pow2(align as int) ==> old(self).inner().wf(),
            size <= isize::MAX,
            old(self).inner().source() matches Some(f) ==> call_requires(f, ()),
        ensures
            old(self).inner().wf() ==> final(self).inner().wf(),
            final(self).inner().start() == old(self).inner().start(),
            final(self).inner().source() == old(self).inner().source(),
            align > 8 || !is_pow2(align as int) ==> r == 0 && *final(self) == *old(self),
            r != 0 ==> final(self).inner().is_allocated(r as int)
                && cap_of(final(self).inner().blocks(), r - 8) >= (if size == 0 { 1 } else { size as int }),
            r != 0 ==> r % 8 == 0,
            align <= 8 && is_pow2(align as int) ==> heap::alloc_outcome(
                old(self).inner(),
                final(self).inner(),
                align8(request_size(size)),
                if r == 0 { None } else { Some(r) },
            ),
            align <= 8 && is_pow2(align as int) && old(self).inner().source() is None && !heap::some_block_fits(
                old(self).inner().blocks(),
                old(self).inner().free_list(),
                align8(request_size(size)),
            ) ==> r == 0 && *final(self) == *old(self),
            align <= 8 && is_pow2(align as int) && (exists|k: int|
                0 <= k < old(self).inner().free_list().len()
                && cap_of(old(self).inner().blocks(), #[trigger] old(self).inner().free_list()[k])
                    >= align8(request_size(size))) ==> r != 0,
            align <= 8 && is_pow2(align as int) && (exists|k: int|
                0 <= k < old(self).inner().free_list().len()
                && cap_of(old(self).inner().blocks(), #[trigger] old(self).inner().free_list()[k])
                    >= align8(request_size(size))) ==> exists|k: int|
                {
                    &&& #[trigger] heap::is_first_fit(
                        old(self).inner().blocks(),
                        old(self).inner().free_list(),
                        align8(request_size(size)),
                        k,
                    )
                    &&& r == (old(self).inner().free_list()[k] + 8) as usize
                    &&& final(self).inner().end() == old(self).inner().end()
                    &&& final(self).inner().blocks() == heap::carve_blocks(
                        old(self).inner().blocks(),
                        layout::index_of_start(old(self).inner().blocks(), old(self).inner().free_list()[k]),
                        align8(request_size(size)),
                    )
                    &&& final(self).inner().free_list() == heap::carve_free(
                        old(self).inner().blocks(),
                        old(self).inner().free_list(),
                        k,
                        layout::index_of_start(old(self).inner().blocks(), old(self).inner().free_list()[k]),
                        align8(request_size(size)),
                    )
                },
    {
        let ghost size0 = size;
        let size = if size == 0 { 1 } else { size };
        assert(size as int == request_size(size0));
        if align > META_ALIGN || !is_power_of_two(align) {
            return 0;
        }
        let ghost h0 = self.0;
        match self.0.my_alloc(size) {
            Some(addr) => {
                proof {
                    self.0.lemma_allocated_aligned(addr as int);
                    assert(self.0.start() >= 0);
                    if exists|k: int|
                        0 <= k < h0.free_list().len() && cap_of(h0.blocks(), #[trigger] h0.free_list()[k]) >= align8(size as int) {
                        let k = choose|k: int|
                            {
                                &&& #[trigger] heap::is_first_fit(h0.blocks(), h0.free_list(), align8(size as int), k)
                                &&& Some(addr) == Some((h0.free_list()[k] + 8) as usize)
                                &&& self.0.end() == h0.end()
                                &&& self.0.blocks() == heap::carve_blocks(
                                    h0.blocks(),
                                    layout::index_of_start(h0.blocks(), h0.free_list()[k]),
                                    align8(size as int),
                                )
                                &&& self.0.free_list() == heap::carve_free(
                                    h0.blocks(),
                                    h0.free_list(),
                                    k,
                                    layout::index_of_start(h0.blocks(), h0.free_list()[k]),
                                    align8(size as int),
                                )
                            };
                        assert(heap::is_first_fit(h0.blocks(), h0.free_list(), align8(request_size(size0)), k));
                    }
                }
                addr
            },
            None => {
                proof {
                    if exists|k: int|
                        0 <= k < h0.free_list().len() && cap_of(h0.blocks(), #[trigger] h0.free_list()[k]) >= align8(size as int) {
                        assert(false);
                    }
                }
                0
            },
        }
    }

    /// Releases the allocation at `ptr`.
    pub fn deallocate(&mut self, ptr: usize)
        requires
            old(self).inner().wf(),
            old(self).inner().is_allocated(ptr as int),
        ensures
            final(self).inner().wf(),
            final(self).inner().start() == old(self).inner().start(),
            final(self).inner().end() == old(self).inner().end(),
            final(self).inner().source() == old(self).inner().source(),
            final(self).inner().blocks() == heap::release_blocks(
                old(self).inner().blocks(),
                layout::index_of_start(old(self).inner().blocks(), ptr - 8),
            ),
            final(self).inner().free_list() == heap::release_free(
                old(self).inner().blocks(),
                old(self).inner().free_list(),
                layout::index_of_start(old(self).inner().blocks(), ptr - 8),
            ),
    {
        proof {
            self.0.lemma_allocated_aligned(ptr as int);
            assert(self.0.start() >= 0);
            assert(ptr >= 24);
        }
        let r = self.0.my_dealloc(ptr);
        assert(r is Ok);
    }
}

/// The largest alignment that the heap serves: one word.
pub const META_ALIGN: usize = 8;

} // verus!
