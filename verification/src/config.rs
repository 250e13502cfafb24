//! Kernel configuration: stack and heap sizes, the page size and the fixed virtual
//! addresses at the top of every address space.
use vstd::prelude::*;

verus! {

pub const USER_STACK_SIZE: usize = 4096;

pub const KERNEL_STACK_SIZE: usize = 8192;

pub const KERNEL_HEAP_SIZE: usize = 0x30_0000;

pub const PAGE_SIZE_BITS: usize = 12;

pub const PAGE_SIZE: usize = 4096;

/// The trampoline page is the last page of the address space.
pub const TRAMPOLINE: usize = usize::MAX - PAGE_SIZE + 1;

/// The trap context page sits right below the trampoline.
pub const TRAP_CONTEXT: usize = TRAMPOLINE - PAGE_SIZE;

/// Timer ticks per second of the board.
pub const CLOCK_FREQ: usize = 12_500_000;

/// End of the physical memory that the kernel manages.
pub const MEMORY_END: usize = 0x8800_0000;

/// The kernel stack of application `app_id`: `(bottom, top)`. The stacks are laid
/// out downwards from the trampoline, each followed (below) by a guard page.
pub fn kernel_stack_position(app_id: usize) -> (r: (usize, usize))
    requires
        app_id * (KERNEL_STACK_SIZE + PAGE_SIZE) + KERNEL_STACK_SIZE <= TRAMPOLINE,
    ensures
        r.1 == TRAMPOLINE - app_id * (KERNEL_STACK_SIZE + PAGE_SIZE),
        r.0 == r.1 - KERNEL_STACK_SIZE,
{
    // the last PAGE_SIZE of each slot is the guard page between stacks
    let top = TRAMPOLINE - app_id * (KERNEL_STACK_SIZE + PAGE_SIZE);
    let bottom = top - KERNEL_STACK_SIZE;
    (bottom, top)
}

/// The kernel stacks of two applications do not overlap: between them lies at least
/// one guard page.
pub proof fn law_kernel_stacks_apart(i: int, j: int)
    requires
        0 <= i < j,
    ensures
        (TRAMPOLINE - j * (KERNEL_STACK_SIZE + PAGE_SIZE)) + PAGE_SIZE <= (TRAMPOLINE - i * (KERNEL_STACK_SIZE
            + PAGE_SIZE)) - KERNEL_STACK_SIZE,
{
    assert(j * (KERNEL_STACK_SIZE + PAGE_SIZE) >= (i + 1) * (KERNEL_STACK_SIZE + PAGE_SIZE)) by (nonlinear_arith)
        requires
            i + 1 <= j,
    ;
}

} // verus!
