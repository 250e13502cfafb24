//! Sv39 physical and virtual addresses and page numbers.
use vstd::array::ArrayAdditionalExecFns;
use vstd::prelude::*;

use crate::config::PAGE_SIZE_BITS;

verus! {

pub const PA_WIDTH_SV39: usize = 56;

pub const VA_WIDTH_SV39: usize = 39;

pub const PPN_WIDTH_SV39: usize = PA_WIDTH_SV39 - PAGE_SIZE_BITS;

pub const VPN_WIDTH_SV39: usize = VA_WIDTH_SV39 - PAGE_SIZE_BITS;

/// Each of the three levels of an Sv39 page table has 2^9 entries.
pub const SV39_WIDTH_PER_LEVEL: usize = 9;

/// 2^56: physical addresses have 56 bits.
pub open spec fn pa_limit() -> int {
    0x100_0000_0000_0000
}

/// 2^44: physical page numbers have 44 bits.
pub open spec fn ppn_limit() -> int {
    0x1000_0000_0000
}

/// The frame number that `v` names: its low 44 bits.
pub open spec fn ppn_of(v: usize) -> PhysPageNum {
    PhysPageNum((v as int % ppn_limit()) as usize)
}

/// 2^39: virtual addresses have 39 bits.
pub open spec fn va_limit() -> int {
    0x80_0000_0000
}

/// 2^27: virtual page numbers have 27 bits.
pub open spec fn vpn_limit() -> int {
    0x800_0000
}

#[derive(Clone, Copy, PartialEq, Eq, Structural, Ord, Debug)]
pub struct PhysAddr(pub usize);

#[derive(Clone, Copy, PartialEq, Eq, Structural, Ord, Debug)]
pub struct VirtAddr(pub usize);

#[derive(Clone, Copy, PartialEq, Eq, Structural, Ord, Debug)]
pub struct PhysPageNum(pub usize);

#[derive(Clone, Copy, PartialEq, Eq, Structural, Ord, Debug)]
pub struct VirtPageNum(pub usize);

/// Keeping the low bits of a 64-bit word is taking it modulo a power of two.
pub proof fn lemma_masks(v: u64)
    ensures
        v & 0xff_ffff_ffff_ffffu64 == v % 0x100_0000_0000_0000u64,
        v & 0xfff_ffff_ffffu64 == v % 0x1000_0000_0000u64,
        v & 0x7f_ffff_ffffu64 == v % 0x80_0000_0000u64,
        v & 0x7ff_ffffu64 == v % 0x800_0000u64,
        v & 0xfffu64 == v % 4096u64,
        v & 0x1ffu64 == v % 512u64,
        v >> 12u64 == v / 4096u64,
        v >> 9u64 == v / 512u64,
{
    assert(v & 0xff_ffff_ffff_ffffu64 == v % 0x100_0000_0000_0000u64) by (bit_vector);
    assert(v & 0xfff_ffff_ffffu64 == v % 0x1000_0000_0000u64) by (bit_vector);
    assert(v & 0x7f_ffff_ffffu64 == v % 0x80_0000_0000u64) by (bit_vector);
    assert(v & 0x7ff_ffffu64 == v % 0x800_0000u64) by (bit_vector);
    assert(v & 0xfffu64 == v % 4096u64) by (bit_vector);
    assert(v & 0x1ffu64 == v % 512u64) by (bit_vector);
    assert(v >> 12u64 == v / 4096u64) by (bit_vector);
    assert(v >> 9u64 == v / 512u64) by (bit_vector);
}

/// The masks `(1 << width) - 1` for the widths that addresses use.
pub proof fn lemma_mask_values()
    ensures
        ((1u64 << 56u64) - 1u64) as u64 == 0xff_ffff_ffff_ffffu64,
        ((1u64 << 44u64) - 1u64) as u64 == 0xfff_ffff_ffffu64,
        ((1u64 << 39u64) - 1u64) as u64 == 0x7f_ffff_ffffu64,
        ((1u64 << 27u64) - 1u64) as u64 == 0x7ff_ffffu64,
        ((1u64 << 12u64) - 1u64) as u64 == 0xfffu64,
        ((1u64 << 9u64) - 1u64) as u64 == 0x1ffu64,
{
    assert(((1u64 << 56u64) - 1u64) as u64 == 0xff_ffff_ffff_ffffu64) by (bit_vector);
    assert(((1u64 << 44u64) - 1u64) as u64 == 0xfff_ffff_ffffu64) by (bit_vector);
    assert(((1u64 << 39u64) - 1u64) as u64 == 0x7f_ffff_ffffu64) by (bit_vector);
    assert(((1u64 << 27u64) - 1u64) as u64 == 0x7ff_ffffu64) by (bit_vector);
    assert(((1u64 << 12u64) - 1u64) as u64 == 0xfffu64) by (bit_vector);
    assert(((1u64 << 9u64) - 1u64) as u64 == 0x1ffu64) by (bit_vector);
}

/// Shifting a page number into an address, then keeping the address bits.
pub proof fn lemma_shift_page(v: u64)
    ensures
        (v << 12u64) & 0x7f_ffff_ffffu64 == (v % 0x800_0000u64) * 4096u64,
        (v << 12u64) & 0xff_ffff_ffff_ffffu64 == (v % 0x1000_0000_0000u64) * 4096u64,
{
    assert((v << 12u64) & 0x7f_ffff_ffffu64 == (v % 0x800_0000u64) * 4096u64) by (bit_vector);
    assert((v << 12u64) & 0xff_ffff_ffff_ffffu64 == (v % 0x1000_0000_0000u64) * 4096u64) by (bit_vector);
}

/// `value` with only its low `width` bits kept.
fn with_mask(value: usize, width: u64) -> (r: usize)
    requires
        width == 56 || width == 44 || width == 39 || width == 27 || width == 12 || width == 9,
    ensures
        r == value as int % pow2_of(width),
{
    let v = value as u64;
    proof {
        lemma_masks(v);
        lemma_mask_values();
        assert(width < 64u64 ==> (1u64 << width) >= 1u64) by (bit_vector);
    }
    let m = v & ((1u64 << width) - 1);
    (m as usize)
}

/// 2^width for the widths that addresses use.
pub open spec fn pow2_of(width: u64) -> int {
    if width == 56 {
        0x100_0000_0000_0000
    } else if width == 44 {
        0x1000_0000_0000
    } else if width == 39 {
        0x80_0000_0000
    } else if width == 27 {
        0x800_0000
    } else if width == 12 {
        4096
    } else {
        512
    }
}

impl vstd::std_specs::convert::FromSpecImpl<usize> for PhysAddr {
    open spec fn obeys_from_spec() -> bool {
        true
    }

    open spec fn from_spec(v: usize) -> Self {
        PhysAddr((v as int % pa_limit()) as usize)
    }
}

/// Keeps the low 56 bits.
impl From<usize> for PhysAddr {
    fn from(value: usize) -> (r: Self) {
        Self(with_mask(value, PA_WIDTH_SV39 as u64))
    }
}

impl vstd::std_specs::convert::FromSpecImpl<usize> for PhysPageNum {
    open spec fn obeys_from_spec() -> bool {
        true
    }

    open spec fn from_spec(v: usize) -> Self {
        ppn_of(v)
    }
}

/// Keeps the low 44 bits.
impl From<usize> for PhysPageNum {
    fn from(value: usize) -> (r: Self) {
        Self(with_mask(value, PPN_WIDTH_SV39 as u64))
    }
}

impl vstd::std_specs::convert::FromSpecImpl<usize> for VirtAddr {
    open spec fn obeys_from_spec() -> bool {
        true
    }

    open spec fn from_spec(v: usize) -> Self {
        VirtAddr((v as int % va_limit()) as usize)
    }
}

/// Keeps the low 39 bits.
impl From<usize> for VirtAddr {
    fn from(value: usize) -> (r: Self) {
        Self(with_mask(value, VA_WIDTH_SV39 as u64))
    }
}

impl vstd::std_specs::convert::FromSpecImpl<usize> for VirtPageNum {
    open spec fn obeys_from_spec() -> bool {
        true
    }

    open spec fn from_spec(v: usize) -> Self {
        VirtPageNum((v as int % vpn_limit()) as usize)
    }
}

/// Keeps the low 27 bits.
impl From<usize> for VirtPageNum {
    fn from(value: usize) -> (r: Self) {
        Self(with_mask(value, VPN_WIDTH_SV39 as u64))
    }
}

impl vstd::std_specs::convert::FromSpecImpl<PhysAddr> for usize {
    open spec fn obeys_from_spec() -> bool {
        true
    }

    open spec fn from_spec(v: PhysAddr) -> usize {
        v.0
    }
}

impl From<PhysAddr> for usize {
    fn from(value: PhysAddr) -> (r: Self) {
        value.0
    }
}

impl vstd::std_specs::convert::FromSpecImpl<PhysPageNum> for usize {
    open spec fn obeys_from_spec() -> bool {
        true
    }

    open spec fn from_spec(v: PhysPageNum) -> usize {
        v.0
    }
}

impl From<PhysPageNum> for usize {
    fn from(value: PhysPageNum) -> (r: Self) {
        value.0
    }
}

/// A virtual address as a 64-bit value: bits above bit 38 copy bit 38.
pub open spec fn sign_extended(v: usize) -> usize {
    if v >= 0x40_0000_0000 {
        ((v as u64) | 0xffff_ff80_0000_0000u64) as usize
    } else {
        v
    }
}

impl vstd::std_specs::convert::FromSpecImpl<VirtAddr> for usize {
    open spec fn obeys_from_spec() -> bool {
        true
    }

    open spec fn from_spec(v: VirtAddr) -> usize {
        sign_extended(v.0)
    }
}

/// The bits above the 39 of the address are set to its bit 38.
impl From<VirtAddr> for usize {
    fn from(value: VirtAddr) -> (r: Self) {
        proof {
            lemma_mask_values();
            assert((1u64 << 38u64) == 0x40_0000_0000u64) by (bit_vector);
            assert((1u64 << 39u64) == 0x80_0000_0000u64) by (bit_vector);
        }
        if value.0 as u64 >= (1u64 << ((VA_WIDTH_SV39 - 1) as u64)) {
            let x = value.0 as u64;
            let low: u64 = (1u64 << (VA_WIDTH_SV39 as u64)) - 1;
            assert(low == 0x7f_ffff_ffffu64 ==> !low == 0xffff_ff80_0000_0000u64) by (bit_vector);
            (x | !low) as usize
        } else {
            value.0
        }
    }
}

impl vstd::std_specs::convert::FromSpecImpl<VirtPageNum> for usize {
    open spec fn obeys_from_spec() -> bool {
        true
    }

    open spec fn from_spec(v: VirtPageNum) -> usize {
        v.0
    }
}

impl From<VirtPageNum> for usize {
    fn from(value: VirtPageNum) -> (r: Self) {
        value.0
    }
}

impl vstd::std_specs::ops::AddSpecImpl<usize> for VirtAddr {
    open spec fn obeys_add_spec() -> bool {
        true
    }

    open spec fn add_req(self, rhs: usize) -> bool {
        self.0 + rhs <= usize::MAX
    }

    open spec fn add_spec(self, rhs: usize) -> Self {
        VirtAddr((self.0 + rhs) as usize)
    }
}

/// Moves the address `rhs` bytes up.
impl core::ops::Add<usize> for VirtAddr {
    type Output = Self;

    fn add(self, rhs: usize) -> (r: Self::Output) {
        Self(self.0 + rhs)
    }
}

impl vstd::std_specs::ops::AddSpecImpl<usize> for VirtPageNum {
    open spec fn obeys_add_spec() -> bool {
        true
    }

    open spec fn add_req(self, rhs: usize) -> bool {
        self.0 + rhs <= usize::MAX
    }

    open spec fn add_spec(self, rhs: usize) -> Self {
        VirtPageNum((self.0 + rhs) as usize)
    }
}

/// Moves the page number `rhs` pages up.
impl core::ops::Add<usize> for VirtPageNum {
    type Output = Self;

    fn add(self, rhs: usize) -> (r: Self::Output) {
        Self(self.0 + rhs)
    }
}

impl vstd::std_specs::ops::AddSpecImpl<usize> for PhysPageNum {
    open spec fn obeys_add_spec() -> bool {
        true
    }

    open spec fn add_req(self, rhs: usize) -> bool {
        self.0 + rhs <= usize::MAX
    }

    open spec fn add_spec(self, rhs: usize) -> Self {
        PhysPageNum((self.0 + rhs) as usize)
    }
}

/// Moves the page number `rhs` pages up.
impl core::ops::Add<usize> for PhysPageNum {
    type Output = Self;

    fn add(self, rhs: usize) -> (r: Self::Output) {
        Self(self.0 + rhs)
    }
}

/// The page number of the page that holds address `a`.
pub open spec fn floor_spec(a: usize, width: int) -> usize {
    ((a as int / 4096) % width) as usize
}

/// The page number of the first page boundary at or above address `a`.
pub open spec fn ceil_spec(a: usize, width: int) -> usize {
    if a == 0 {
        0
    } else {
        (((a - 1) / 4096) % width + 1) as usize
    }
}

impl VirtAddr {
    /// The page that holds the address.
    pub fn floor(&self) -> (r: VirtPageNum)
        ensures
            r.0 == floor_spec(self.0, vpn_limit()),
            self.0 < va_limit() ==> r.0 == self.0 / 4096,
    {
        proof {
            lemma_masks(self.0 as u64);
        }
        VirtPageNum::from(self.0 >> PAGE_SIZE_BITS)
    }

    /// The first page boundary at or above the address.
    pub fn ceil(&self) -> (r: VirtPageNum)
        ensures
            r.0 == ceil_spec(self.0, vpn_limit()),
            self.0 < va_limit() ==> r.0 == (self.0 + 4095) / 4096,
    {
        if self.0 == 0 {
            return VirtPageNum::from(0);
        }
        VirtAddr(self.0 - 1).floor() + 1
    }

    /// The offset of the address inside its page.
    pub fn page_offset(&self) -> (r: usize)
        ensures
            r == self.0 % 4096,
    {
        with_mask(self.0, PAGE_SIZE_BITS as u64)
    }

    /// Whether the address is on a page boundary.
    pub fn aligned(&self) -> (r: bool)
        ensures
            r == (self.0 % 4096 == 0),
    {
        self.page_offset() == 0
    }
}

impl vstd::std_specs::convert::FromSpecImpl<VirtAddr> for VirtPageNum {
    open spec fn obeys_from_spec() -> bool {
        true
    }

    open spec fn from_spec(v: VirtAddr) -> VirtPageNum {
        VirtPageNum(floor_spec(v.0, vpn_limit()))
    }
}

/// The page that holds the address.
impl From<VirtAddr> for VirtPageNum {
    fn from(value: VirtAddr) -> (r: Self) {
        value.floor()
    }
}

impl vstd::std_specs::convert::FromSpecImpl<VirtPageNum> for VirtAddr {
    open spec fn obeys_from_spec() -> bool {
        true
    }

    open spec fn from_spec(v: VirtPageNum) -> VirtAddr {
        VirtAddr(((v.0 as int % vpn_limit()) * 4096) as usize)
    }
}

/// The first address of the page (within the 39 address bits).
impl From<VirtPageNum> for VirtAddr {
    fn from(value: VirtPageNum) -> (r: Self) {
        proof {
            lemma_shift_page(value.0 as u64);
            lemma_masks(((value.0 as u64) << 12u64) as u64);
        }
        let shifted = (value.0 as u64) << (PAGE_SIZE_BITS as u64);
        let a = (shifted & 0x7f_ffff_ffffu64) as usize;
        VirtAddr::from(a)
    }
}

impl PhysAddr {
    /// The frame that holds the address.
    pub fn floor(&self) -> (r: PhysPageNum)
        ensures
            r.0 == floor_spec(self.0, ppn_limit()),
            self.0 < pa_limit() ==> r.0 == self.0 / 4096,
    {
        proof {
            lemma_masks(self.0 as u64);
        }
        PhysPageNum::from(self.0 >> PAGE_SIZE_BITS)
    }

    /// The first frame boundary at or above the address.
    pub fn ceil(&self) -> (r: PhysPageNum)
        ensures
            r.0 == ceil_spec(self.0, ppn_limit()),
            self.0 < pa_limit() ==> r.0 == (self.0 + 4095) / 4096,
    {
        if self.0 == 0 {
            return PhysPageNum::from(0);
        }
        PhysAddr(self.0 - 1).floor() + 1
    }

    /// The offset of the address inside its frame.
    pub fn page_offset(&self) -> (r: usize)
        ensures
            r == self.0 % 4096,
    {
        with_mask(self.0, PAGE_SIZE_BITS as u64)
    }

    /// Whether the address is on a frame boundary.
    pub fn aligned(&self) -> (r: bool)
        ensures
            r == (self.0 % 4096 == 0),
    {
        self.page_offset() == 0
    }
}

impl vstd::std_specs::convert::FromSpecImpl<PhysAddr> for PhysPageNum {
    open spec fn obeys_from_spec() -> bool {
        true
    }

    open spec fn from_spec(v: PhysAddr) -> PhysPageNum {
        PhysPageNum(floor_spec(v.0, ppn_limit()))
    }
}

/// The frame that holds the address.
impl From<PhysAddr> for PhysPageNum {
    fn from(value: PhysAddr) -> (r: Self) {
        value.floor()
    }
}

impl vstd::std_specs::convert::FromSpecImpl<PhysPageNum> for PhysAddr {
    open spec fn obeys_from_spec() -> bool {
        true
    }

    open spec fn from_spec(v: PhysPageNum) -> PhysAddr {
        PhysAddr(((v.0 as int % ppn_limit()) * 4096) as usize)
    }
}

/// The first address of the frame (within the 56 address bits).
impl From<PhysPageNum> for PhysAddr {
    fn from(value: PhysPageNum) -> (r: Self) {
        proof {
            lemma_shift_page(value.0 as u64);
            lemma_masks(((value.0 as u64) << 12u64) as u64);
        }
        let shifted = (value.0 as u64) << (PAGE_SIZE_BITS as u64);
        let a = (shifted & 0xff_ffff_ffff_ffffu64) as usize;
        PhysAddr::from(a)
    }
}

impl VirtPageNum {
    /// The index into each of the three levels of the page table, the root level first.
    pub fn indexes(&self) -> (r: [usize; 3])
        ensures
            r@ == seq![
                (self.0 / 0x4_0000) % 512,
                (self.0 / 512) % 512,
                self.0 % 512,
            ],
    {
        let mut vpn = self.0;
        let mut rv = [0usize; 3];
        rv.set(2, with_mask(vpn, SV39_WIDTH_PER_LEVEL as u64));
        proof {
            lemma_masks(vpn as u64);
        }
        vpn = vpn >> SV39_WIDTH_PER_LEVEL;
        rv.set(1, with_mask(vpn, SV39_WIDTH_PER_LEVEL as u64));
        proof {
            lemma_masks(vpn as u64);
        }
        vpn = vpn >> SV39_WIDTH_PER_LEVEL;
        rv.set(0, with_mask(vpn, SV39_WIDTH_PER_LEVEL as u64));
        proof {
            assert(self.0 / 512 / 512 == self.0 / 0x4_0000);
            assert(rv@ =~= seq![(self.0 / 0x4_0000) % 512, (self.0 / 512) % 512, self.0 % 512]);
        }
        rv
    }
}


/// Of an address within the 39 bits, the page boundary at or above it is its page, or
/// the next one when it is not on a boundary.
pub proof fn law_ceil_is_floor_or_next(a: usize)
    requires
        a < va_limit(),
    ensures
        a % 4096 == 0 ==> ceil_spec(a, vpn_limit()) == floor_spec(a, vpn_limit()),
        a % 4096 != 0 ==> ceil_spec(a, vpn_limit()) == floor_spec(a, vpn_limit()) + 1,
{
    let q = a as int / 4096;
    assert(q < vpn_limit());
    if a != 0 {
        if a % 4096 == 0 {
            assert((a - 1) / 4096 == q - 1);
        } else {
            assert((a - 1) / 4096 == q);
        }
        vstd::arithmetic::div_mod::lemma_small_mod(((a - 1) / 4096) as nat, vpn_limit() as nat);
    }
    vstd::arithmetic::div_mod::lemma_small_mod(q as nat, vpn_limit() as nat);
}

/// On a machine with 64-bit words, a virtual page number turned into the address of
/// its page gives back the same page number.
pub proof fn law_virtual_page_round_trip(n: usize)
    requires
        n < vpn_limit(),
        usize::MAX == 0xffff_ffff_ffff_ffff,
    ensures
        floor_spec(((n as int % vpn_limit()) * 4096) as usize, vpn_limit()) == n,
{
    vstd::arithmetic::div_mod::lemma_small_mod(n as nat, vpn_limit() as nat);
    assert(n * 4096 < 0x80_0000_0000) by (nonlinear_arith)
        requires
            n < 0x800_0000,
    ;
    assert((n * 4096) / 4096 == n) by (nonlinear_arith);
}

/// On a machine with 64-bit words, a physical page number turned into the address of
/// its frame gives back the same page number.
pub proof fn law_physical_page_round_trip(n: usize)
    requires
        n < ppn_limit(),
        usize::MAX == 0xffff_ffff_ffff_ffff,
    ensures
        floor_spec(((n as int % ppn_limit()) * 4096) as usize, ppn_limit()) == n,
{
    vstd::arithmetic::div_mod::lemma_small_mod(n as nat, ppn_limit() as nat);
    assert(n * 4096 < 0x100_0000_0000_0000) by (nonlinear_arith)
        requires
            n < 0x1000_0000_0000,
    ;
    assert((n * 4096) / 4096 == n) by (nonlinear_arith);
}

} // verus!
