//! The registers that a task switch saves: return address, stack pointer and the
//! twelve callee-saved registers.
use vstd::array::array_fill_for_copy_types;
use vstd::prelude::*;

verus! {

#[derive(Clone, Copy)]
pub struct TaskContext {
    pub ra: usize,
    pub sp: usize,
    pub s: [usize; 12],
}

impl TaskContext {
    /// All registers zero.
    pub fn zero_init() -> (r: Self)
        ensures
            r.ra == 0,
            r.sp == 0,
            r.s@ == Seq::new(12, |i: int| 0usize),
    {
        let r = Self { ra: 0, sp: 0, s: array_fill_for_copy_types(0usize) };
        assert(r.s@ =~= Seq::new(12, |i: int| 0usize));
        r
    }

    /// A context that, once switched to, returns to `trap_return` on the kernel
    /// stack whose top is `kstack`.
    pub fn goto_trap_return(trap_return: usize, kstack: usize) -> (r: Self)
        ensures
            r.ra == trap_return,
            r.sp == kstack,
            r.s@ == Seq::new(12, |i: int| 0usize),
    {
        let r = Self { ra: trap_return, sp: kstack, s: array_fill_for_copy_types(0usize) };
        assert(r.s@ =~= Seq::new(12, |i: int| 0usize));
        r
    }
}

} // verus!
