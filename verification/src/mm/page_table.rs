//! Sv39 page-table entries: a frame number and eight flag bits.
use vstd::prelude::*;

use super::address::{ppn_of, PhysPageNum};

verus! {

/// Position of the frame number inside an entry.
pub const PTE_PPN_OFFSET: usize = 10;

/// The flag bits of an entry: valid, readable, writable, executable, user-accessible,
/// global, accessed, dirty.
pub const PTE_V: u8 = 1;

pub const PTE_R: u8 = 2;

pub const PTE_W: u8 = 4;

pub const PTE_X: u8 = 8;

pub const PTE_U: u8 = 16;

pub const PTE_G: u8 = 32;

pub const PTE_A: u8 = 64;

pub const PTE_D: u8 = 128;

/// The address-translation mode that `satp` selects for Sv39.
pub const SATP_MODE_SV39: u64 = 8;

#[derive(Clone, Copy, PartialEq, Eq, Structural, Debug)]
pub struct PageTableEntry {
    pub bits: usize,
}

impl PageTableEntry {
    /// An entry for frame `ppn` with the given flags.
    pub fn new(ppn: PhysPageNum, flags: u8) -> (r: Self)
        ensures
            r.bits == ((((ppn.0 as u64) << 10u64) | (flags as u64)) as usize),
            ppn.0 < 0x40_0000_0000_0000 ==> r.bits == ((ppn.0 * 1024 + flags) as usize),
    {
        let p = ppn.0 as u64;
        let f = flags as u64;
        proof {
            assert(f <= 255u64 && p < 0x40_0000_0000_0000u64 ==> (p << 10u64) | f == p * 1024 + f) by (bit_vector);
        }
        Self { bits: ((p << (PTE_PPN_OFFSET as u64)) | f) as usize }
    }

    /// The entry with no frame and no flags.
    pub fn empty() -> (r: Self)
        ensures
            r.bits == 0,
    {
        Self { bits: 0 }
    }

    /// The frame number that the entry holds.
    pub fn ppn(&self) -> (r: PhysPageNum)
        ensures
            r == ppn_of(self.bits / 1024),
    {
        let b = self.bits;
        assert(b >> 10usize == b / 1024) by (bit_vector);
        PhysPageNum::from(self.bits >> PTE_PPN_OFFSET)
    }

    /// The flag bits.
    pub fn flags(&self) -> (r: u8)
        ensures
            r == self.bits % 256,
    {
        let b = self.bits;
        assert((b as u8) == b % 256) by (bit_vector);
        self.bits as u8
    }

    /// Whether any of the flags in `perm` is set.
    fn perm_check(&self, perm: u8) -> (r: bool)
        ensures
            r == ((self.bits % 256) as u8 & perm != 0),
    {
        (self.flags() & perm) != 0
    }

    pub fn is_valid(&self) -> (r: bool)
        ensures
            r == ((self.bits % 256) as u8 & PTE_V != 0),
    {
        self.perm_check(PTE_V)
    }

    pub fn readable(&self) -> (r: bool)
        ensures
            r == ((self.bits % 256) as u8 & PTE_R != 0),
    {
        self.perm_check(PTE_R)
    }

    pub fn writable(&self) -> (r: bool)
        ensures
            r == ((self.bits % 256) as u8 & PTE_W != 0),
    {
        self.perm_check(PTE_W)
    }

    pub fn executable(&self) -> (r: bool)
        ensures
            r == ((self.bits % 256) as u8 & PTE_X != 0),
    {
        self.perm_check(PTE_X)
    }
}

/// An entry keeps the frame number and the flags it was made with (when the frame
/// number fits the 44 bits of a physical page number and the word).
pub proof fn law_entry_round_trip(ppn: PhysPageNum, flags: u8, e: PageTableEntry)
    requires
        ppn.0 < 0x1000_0000_0000,
        e.bits == ppn.0 * 1024 + flags,
    ensures
        ppn_of(e.bits / 1024) == ppn,
        e.bits % 256 == flags,
{
    let p = ppn.0 as int;
    let f = flags as int;
    assert((p * 1024 + f) / 1024 == p && (p * 1024 + f) % 256 == f) by (nonlinear_arith)
        requires
            0 <= f < 256,
            0 <= p,
    {
        assert(p * 1024 + f == (p * 4) * 256 + f);
    }
}

/// The `satp` value that selects Sv39 translation with the page table rooted at `root`.
pub fn satp_token(root: PhysPageNum) -> (r: usize)
    ensures
        r == (((SATP_MODE_SV39 << 60u64) | root.0 as u64) as usize),
{
    ((SATP_MODE_SV39 << 60) | root.0 as u64) as usize
}

/// The root of the page table that a `satp` value selects: its low 44 bits.
pub fn root_of_token(satp: usize) -> (r: PhysPageNum)
    ensures
        r == ppn_of(satp),
{
    PhysPageNum::from(satp)
}

/// What the walk from the root to the leaf entry of a page does with the entry it
/// reads at one level.
#[derive(Clone, Copy, PartialEq, Eq, Structural, Debug)]
pub enum WalkStep {
    /// The entry is the page's leaf entry.
    Found,
    /// Go down to the table in this frame.
    Descend(PhysPageNum),
    /// No table below: put a new table frame in this entry and go down to it.
    CreateTable,
    /// No table below, and none is to be made: the page has no entry.
    NotFound,
}

/// The step of the walk at `level` (0 for the root table, 2 for the last) after reading
/// entry `pte`; `create` says whether missing tables are made.
pub fn walk_step(level: usize, pte: PageTableEntry, create: bool) -> (r: WalkStep)
    requires
        level < 3,
    ensures
        level == 2 ==> r == WalkStep::Found,
        level < 2 && (pte.bits % 256) as u8 & PTE_V != 0 ==> r == WalkStep::Descend(ppn_of(pte.bits / 1024)),
        level < 2 && (pte.bits % 256) as u8 & PTE_V == 0 ==> r == (if create {
            WalkStep::CreateTable
        } else {
            WalkStep::NotFound
        }),
{
    if level == 2 {
        WalkStep::Found
    } else if pte.is_valid() {
        WalkStep::Descend(pte.ppn())
    } else if create {
        WalkStep::CreateTable
    } else {
        WalkStep::NotFound
    }
}

} // verus!
