# rcore_os

The logic of a small RISC-V (Sv39) teaching kernel and its user library, verified
with Verus.

- `src/allocator`: a first-fit heap with boundary tags and a circular free list,
  modelled word by word; allocation, release with coalescing, growth from a source
  of more memory, and laws about coalescing and disjoint allocations.
- `src/mm`: Sv39 addresses and page numbers, the stack frame allocator, page-table
  entries, the kernel's areas, and the layout of a user address space from the
  program headers of an ELF image.
- `src/task`: task control blocks and the round-robin task manager with its time
  and system-call accounting.
- `src/trap.rs`, `src/syscall.rs`, `src/timer.rs`, `src/logging.rs`, `src/user.rs`,
  `src/utils.rs`, `src/common.rs`, `src/config.rs`: trap and system-call decisions,
  time conversion, log filtering, user heap growth and shared constants and types.
- `app/`: the kernel around the library: boot, SBI and CSR access, page tables in
  physical memory, context switches and system-call handlers.
- `tests/`: tests of the library on concrete values.
