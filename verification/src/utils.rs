//! A cursor over values of type `T` laid out one after another in memory.
use core::marker::PhantomData;
use vstd::prelude::*;

verus! {

/// The address of a value of type `T`; moving it on steps over whole values.
pub struct Address<T> {
    addr: usize,
    _phantom: PhantomData<T>,
}

impl<T> Address<T> {
    pub closed spec fn addr(&self) -> usize {
        self.addr
    }

    pub fn new(addr: usize) -> (r: Self)
        ensures
            r.addr() == addr,
    {
        Self { addr, _phantom: PhantomData }
    }

    /// The address the cursor is at.
    pub fn get_addr(&self) -> (r: usize)
        ensures
            r == self.addr(),
    {
        self.addr
    }

    /// Moves the cursor `offset` values of type `T` on.
    pub fn add(&mut self, offset: usize)
        requires
            old(self).addr() + offset * vstd::layout::size_of::<T>() <= usize::MAX,
        ensures
            final(self).addr() == old(self).addr() + offset * vstd::layout::size_of::<T>(),
    {
        let size = core::mem::size_of::<T>();
        assert(offset * size <= usize::MAX) by (nonlinear_arith)
            requires
                self.addr + offset * size <= usize::MAX,
        ;
        self.addr = self.addr + offset * size;
    }
}

} // verus!
