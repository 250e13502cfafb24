//! Encoding of a block header / footer word (`Meta`).
use vstd::prelude::*;

verus! {

/// Size in bytes of one header or footer word; also the allocation granularity.
pub const META_SIZE: usize = 8;

/// Largest capacity that the 31-bit capacity field of a header can hold.
pub const MAX_CAPACITY: usize = 0x7fff_ffff;

/// One metadata word: bit 0 of `info` is the occupied flag, bits 1.. the capacity;
/// `rel_ref` is a link, stored relative to the start of the heap.
#[derive(Clone, Copy)]
pub struct Meta {
    pub info: u32,
    pub rel_ref: u32,
}

pub open spec fn info_capacity(info: u32) -> nat {
    (info >> 1u32) as nat
}

pub open spec fn info_occupied(info: u32) -> bool {
    info & 1u32 == 1u32
}

impl Meta {
    pub open spec fn capacity(self) -> nat {
        info_capacity(self.info)
    }

    pub open spec fn occupied(self) -> bool {
        info_occupied(self.info)
    }

    /// The capacity stored in the word.
    pub fn get_capacity(&self) -> (r: usize)
        ensures
            r == self.capacity(),
            r <= MAX_CAPACITY,
    {
        let x = self.info;
        assert((x >> 1u32) <= 0x7fff_ffffu32) by (bit_vector);
        (x >> 1u32) as usize
    }

    /// Whether the occupied flag is set.
    pub fn has_occupied(&self) -> (r: bool)
        ensures
            r == self.occupied(),
    {
        self.info & 1u32 == 1u32
    }

    /// Clears the occupied flag, keeping the capacity.
    pub fn set_free(&mut self)
        ensures
            final(self).capacity() == old(self).capacity(),
            !final(self).occupied(),
            final(self).rel_ref == old(self).rel_ref,
    {
        let x = self.info;
        let mask: u32 = u32::MAX - 1;
        assert(mask == 0xffff_fffeu32);
        assert(((x & 0xffff_fffeu32) >> 1u32) == (x >> 1u32) && (x & 0xffff_fffeu32) & 1u32 != 1u32) by (bit_vector);
        self.info = x & mask;
    }

    /// Sets the occupied flag, keeping the capacity.
    pub fn set_occupy(&mut self)
        ensures
            final(self).capacity() == old(self).capacity(),
            final(self).occupied(),
            final(self).rel_ref == old(self).rel_ref,
    {
        let x = self.info;
        assert(((x | 1u32) >> 1u32) == (x >> 1u32) && (x | 1u32) & 1u32 == 1u32) by (bit_vector);
        self.info = x | 1u32;
    }

    /// Stores a capacity, keeping the occupied flag.
    pub fn set_capacity(&mut self, capacity: usize)
        requires
            capacity <= MAX_CAPACITY,
        ensures
            final(self).capacity() == capacity,
            final(self).occupied() == old(self).occupied(),
            final(self).rel_ref == old(self).rel_ref,
    {
        let x = self.info;
        let c = capacity as u32;
        assert(c <= 0x7fff_ffffu32 ==> (((c << 1u32) | (x & 1u32)) >> 1u32) == c
            && (((c << 1u32) | (x & 1u32)) & 1u32 == 1u32) == (x & 1u32 == 1u32)) by (bit_vector);
        self.info = (c << 1u32) | (x & 1u32);
    }
}

} // verus!
