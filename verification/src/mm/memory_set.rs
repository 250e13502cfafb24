//! Areas of an address space: a range of virtual pages, mapped either to the frames
//! with the same numbers or to frames of their own, with one set of permissions.
use std::collections::BTreeMap;
use vstd::prelude::*;

use super::address::{ceil_spec, floor_spec, ppn_of, va_limit, vpn_limit, PhysPageNum, VirtAddr, VirtPageNum};
use super::frame_allocator::{frame_alloc, FrameTracker, StackFrameAllocator};
use super::range::VPNRange;
use crate::config::{PAGE_SIZE, TRAMPOLINE, TRAP_CONTEXT, USER_STACK_SIZE};

verus! {

broadcast use vstd::laws_cmp::group_laws_cmp;

/// Permission bits of an area; they are the page-table entry bits of the same names.
pub const MAP_PERM_R: u8 = 2;

pub const MAP_PERM_W: u8 = 4;

pub const MAP_PERM_X: u8 = 8;

pub const MAP_PERM_U: u8 = 16;

/// How an area finds its frames.
#[derive(Clone, Copy, PartialEq, Eq, Structural, Debug)]
pub enum MapType {
    /// Page `n` is frame `n`.
    Identical,
    /// Each page gets a frame of its own from the frame allocator.
    Framed,
}

/// The pages of an area: from the page of `start_va` up to the page boundary at or
/// above `end_va`.
pub open spec fn area_pages(start_va: VirtAddr, end_va: VirtAddr) -> (int, int) {
    (floor_spec(start_va.0, vpn_limit()) as int, ceil_spec(end_va.0, vpn_limit()) as int)
}

/// An area can be made from `start_va` to `end_va`: its first page is not above its
/// last page boundary.
pub open spec fn area_ok(start_va: VirtAddr, end_va: VirtAddr) -> bool {
    area_pages(start_va, end_va).0 <= area_pages(start_va, end_va).1
}

/// The pages `[start_vpn, end_vpn)`, mapped as `map_type` says with permissions
/// `map_perm`; `data_frames` holds the frames that a framed area owns, by page.
pub struct MapArea {
    start_vpn: VirtPageNum,
    end_vpn: VirtPageNum,
    data_frames: BTreeMap<usize, FrameTracker>,
    map_type: MapType,
    map_perm: u8,
}

impl MapArea {
    /// The first page of the area.
    pub closed spec fn start(&self) -> int {
        self.start_vpn.0 as int
    }

    /// The page boundary where the area ends.
    pub closed spec fn end(&self) -> int {
        self.end_vpn.0 as int
    }

    pub closed spec fn map_type(&self) -> MapType {
        self.map_type
    }

    pub closed spec fn perm(&self) -> u8 {
        self.map_perm
    }

    /// The frame that each page of its own holds.
    pub closed spec fn frames(&self) -> Map<usize, PhysPageNum> {
        Map::new(|k: usize| self.data_frames@.contains_key(k), |k: usize| self.data_frames@[k].ppn)
    }

    /// The range runs forwards and ends within the 27 bits of a page number.
    pub open spec fn wf(&self) -> bool {
        self.start() <= self.end() <= vpn_limit()
    }

    /// An area of the pages from the one that holds `start_va` to the page boundary at
    /// or above `end_va`, with no frames of its own yet.
    pub fn new(start_va: VirtAddr, end_va: VirtAddr, map_type: MapType, map_perm: u8) -> (r: Self)
        requires
            area_ok(start_va, end_va),
        ensures
            r.wf(),
            r.start() == area_pages(start_va, end_va).0,
            r.end() == area_pages(start_va, end_va).1,
            r.map_type() == map_type,
            r.perm() == map_perm,
            r.frames() == Map::<usize, PhysPageNum>::empty(),
    {
        let start_vpn = start_va.floor();
        let end_vpn = end_va.ceil();
        let r = Self {
            start_vpn,
            end_vpn,
            data_frames: BTreeMap::new(),
            map_type,
            map_perm,
        };
        assert(r.frames() =~= Map::<usize, PhysPageNum>::empty());
        r
    }

    /// An area whose pages get frames of their own.
    pub fn framed(start_va: VirtAddr, end_va: VirtAddr, map_perm: u8) -> (r: Self)
        requires
            area_ok(start_va, end_va),
        ensures
            r.wf(),
            r.start() == area_pages(start_va, end_va).0,
            r.end() == area_pages(start_va, end_va).1,
            r.map_type() == MapType::Framed,
            r.perm() == map_perm,
            r.frames() == Map::<usize, PhysPageNum>::empty(),
    {
        MapArea::new(start_va, end_va, MapType::Framed, map_perm)
    }

    /// An area whose page `n` is frame `n`.
    pub fn identical(start_va: VirtAddr, end_va: VirtAddr, map_perm: u8) -> (r: Self)
        requires
            area_ok(start_va, end_va),
        ensures
            r.wf(),
            r.start() == area_pages(start_va, end_va).0,
            r.end() == area_pages(start_va, end_va).1,
            r.map_type() == MapType::Identical,
            r.perm() == map_perm,
            r.frames() == Map::<usize, PhysPageNum>::empty(),
    {
        MapArea::new(start_va, end_va, MapType::Identical, map_perm)
    }

    /// The pages of the area.
    pub fn vpn_range(&self) -> (r: VPNRange)
        requires
            self.wf(),
        ensures
            r.start().0 == self.start(),
            r.end().0 == self.end(),
    {
        VPNRange::new(self.start_vpn, self.end_vpn)
    }

    /// Whether the pages of the area get frames of their own.
    pub fn is_framed(&self) -> (r: bool)
        ensures
            r == (self.map_type() == MapType::Framed),
    {
        match self.map_type {
            MapType::Framed => true,
            MapType::Identical => false,
        }
    }

    /// The flags that the page-table entries of the area carry (besides valid).
    pub fn pte_flags(&self) -> (r: u8)
        ensures
            r == self.perm(),
    {
        self.map_perm
    }

    /// The number of bytes the area spans.
    pub fn byte_len(&self) -> (r: usize)
        requires
            self.wf(),
            (self.end() - self.start()) * PAGE_SIZE <= usize::MAX,
        ensures
            r == (self.end() - self.start()) * PAGE_SIZE,
    {
        let pages = self.end_vpn.0 - self.start_vpn.0;
        pages * PAGE_SIZE
    }

    /// The frame that page `vpn` maps to: for an identical area the frame with the
    /// same number, for a framed one a new frame from `allocator`, which the area then
    /// owns. Nothing when the allocator has no frame left.
    pub fn map_one(&mut self, allocator: &mut StackFrameAllocator, vpn: VirtPageNum) -> (r: Option<PhysPageNum>)
        requires
            old(allocator).wf(),
        ensures
            final(allocator).wf(),
            final(self).start() == old(self).start() && final(self).end() == old(self).end(),
            final(self).map_type() == old(self).map_type(),
            final(self).perm() == old(self).perm(),
            old(self).map_type() == MapType::Identical ==> {
                &&& r == Some(ppn_of(vpn.0))
                &&& final(self).frames() == old(self).frames()
                &&& *final(allocator) == *old(allocator)
            },
            old(self).map_type() == MapType::Framed ==> {
                &&& (r is Some <==> (old(allocator).recycled().len() > 0 || old(allocator).current() < old(allocator).end()))
                &&& r matches Some(p) ==> {
                    &&& final(self).frames() == old(self).frames().insert(vpn.0, p)
                    &&& exists|f: usize|
                        !old(allocator).is_allocated(f) && #[trigger] final(allocator).is_allocated(f) && p == ppn_of(f)
                    &&& p == (if old(allocator).recycled().len() > 0 {
                        ppn_of(old(allocator).recycled().last())
                    } else {
                        ppn_of(old(allocator).current())
                    })
                }
                &&& r is None ==> final(self).frames() == old(self).frames() && final(allocator).recycled().len() == 0
                    && final(allocator).current() >= final(allocator).end()
            },
    {
        match self.map_type {
            MapType::Identical => Some(PhysPageNum::from(vpn.0)),
            MapType::Framed => {
                match frame_alloc(allocator) {
                    Some(frame) => {
                        let ppn = frame.ppn;
                        self.data_frames.insert(vpn.0, frame);
                        assert(self.frames() =~= old(self).frames().insert(vpn.0, ppn));
                        Some(ppn)
                    },
                    None => None,
                }
            },
        }
    }

    /// Maps every page of the area, in order: returns each page with the frame it maps
    /// to (see `map_one`). Nothing once the allocator has no frame left.
    pub fn map(&mut self, allocator: &mut StackFrameAllocator) -> (r: Option<Vec<(VirtPageNum, PhysPageNum)>>)
        requires
            old(allocator).wf(),
            old(self).wf(),
        ensures
            final(allocator).wf(),
            final(self).wf(),
            final(self).start() == old(self).start() && final(self).end() == old(self).end(),
            final(self).map_type() == old(self).map_type(),
            final(self).perm() == old(self).perm(),
            r is None ==> old(self).map_type() == MapType::Framed && final(allocator).recycled().len() == 0
                && final(allocator).current() >= final(allocator).end(),
            r matches Some(v) ==> {
                &&& v@.len() == old(self).end() - old(self).start()
                &&& forall|k: int| 0 <= k < v@.len() ==> (#[trigger] v@[k]).0 == VirtPageNum((old(self).start() + k) as usize)
                &&& old(self).map_type() == MapType::Identical ==> final(self).frames() == old(self).frames()
                    && forall|k: int| 0 <= k < v@.len() ==> (#[trigger] v@[k]).1 == ppn_of((old(self).start() + k) as usize)
                &&& old(self).map_type() == MapType::Framed ==> forall|k: int|
                    0 <= k < v@.len() ==> final(self).frames().contains_key(#[trigger] v@[k].0.0)
                        && final(self).frames()[v@[k].0.0] == v@[k].1
            },
    {
        let start = self.start_vpn.0;
        let end = self.end_vpn.0;
        let mut mapped: Vec<(VirtPageNum, PhysPageNum)> = Vec::new();
        let mut vpn = start;
        while vpn < end
            invariant
                start == old(self).start(),
                end == old(self).end(),
                start <= vpn <= end,
                end <= vpn_limit(),
                self.start() == old(self).start() && self.end() == old(self).end(),
                self.map_type() == old(self).map_type(),
                self.perm() == old(self).perm(),
                allocator.wf(),
                mapped@.len() == vpn - start,
                forall|k: int| 0 <= k < mapped@.len() ==> (#[trigger] mapped@[k]).0 == VirtPageNum((start + k) as usize),
                self.map_type() == MapType::Identical ==> self.frames() == old(self).frames() && forall|k: int|
                    0 <= k < mapped@.len() ==> (#[trigger] mapped@[k]).1 == ppn_of((start + k) as usize),
                self.map_type() == MapType::Framed ==> forall|k: int|
                    0 <= k < mapped@.len() ==> self.frames().contains_key(#[trigger] mapped@[k].0.0)
                        && self.frames()[mapped@[k].0.0] == mapped@[k].1,
            decreases end - vpn,
        {
            let ghost frames_before = self.frames();
            match self.map_one(allocator, VirtPageNum(vpn)) {
                Some(ppn) => {
                    proof {
                        if self.map_type() == MapType::Framed {
                            assert forall|k: int| 0 <= k < mapped@.len() implies self.frames().contains_key(
                                #[trigger] mapped@[k].0.0,
                            ) && self.frames()[mapped@[k].0.0] == mapped@[k].1 by {
                                assert(mapped@[k].0.0 == start + k);
                                assert(mapped@[k].0.0 != vpn);
                            }
                        }
                    }
                    mapped.push((VirtPageNum(vpn), ppn));
                },
                None => {
                    return None;
                },
            }
            vpn = vpn + 1;
        }
        Some(mapped)
    }

    /// Where `len` bytes of data go, page by page from the first page of the area:
    /// page `k` takes the bytes `[k * PAGE_SIZE, min((k + 1) * PAGE_SIZE, len))`. Returns
    /// each page with the range of bytes it takes, as long as pages and bytes last.
    pub fn copy_data(&self, len: usize) -> (r: Vec<(VirtPageNum, usize, usize)>)
        requires
            self.wf(),
        ensures
            r@.len() == (if (len + 4095) / 4096 < self.end() - self.start() {
                (len + 4095) / 4096
            } else {
                self.end() - self.start()
            }),
            forall|k: int|
                0 <= k < r@.len() ==> #[trigger] r@[k] == (
                    VirtPageNum((self.start() + k) as usize),
                    (k * 4096) as usize,
                    (if (k + 1) * 4096 < len { (k + 1) * 4096 } else { len as int }) as usize,
                ),
    {
        let start = self.start_vpn.0;
        let end = self.end_vpn.0;
        let mut chunks: Vec<(VirtPageNum, usize, usize)> = Vec::new();
        let mut vpn = start;
        let mut offset: usize = 0;
        while vpn < end && offset < len
            invariant
                start == self.start(),
                end == self.end(),
                start <= vpn <= end,
                chunks@.len() == vpn - start,
                offset == (vpn - start) * 4096 || (offset == len && len <= (vpn - start) * 4096),
                offset <= len,
                offset < len ==> offset == (vpn - start) * 4096,
                vpn - start > 0 ==> (vpn - start - 1) * 4096 < len,
                forall|k: int|
                    0 <= k < chunks@.len() ==> #[trigger] chunks@[k] == (
                        VirtPageNum((start + k) as usize),
                        (k * 4096) as usize,
                        (if (k + 1) * 4096 < len { (k + 1) * 4096 } else { len as int }) as usize,
                    ),
            decreases end - vpn,
        {
            let hi = if len - offset < PAGE_SIZE {
                len
            } else {
                offset + PAGE_SIZE
            };
            chunks.push((VirtPageNum(vpn), offset, hi));
            offset = hi;
            vpn = vpn + 1;
        }
        proof {
            let n = (vpn - start) as int;
            if vpn < end {
                assert(offset == len);
                assert((len + 4095) / 4096 == n) by (nonlinear_arith)
                    requires
                        len <= n * 4096,
                        n > 0 ==> (n - 1) * 4096 < len,
                        n == 0 ==> len == 0,
                ;
            } else if offset < len {
                assert(offset == n * 4096);
                assert((len + 4095) / 4096 >= n) by (nonlinear_arith)
                    requires
                        n * 4096 < len,
                ;
            } else {
                assert((len + 4095) / 4096 >= n) by (nonlinear_arith)
                    requires
                        n > 0 ==> (n - 1) * 4096 < len,
                ;
                assert((len + 4095) / 4096 <= n) by (nonlinear_arith)
                    requires
                        len <= n * 4096,
                ;
            }
        }
        chunks
    }

    /// Gives up page `vpn`: a framed area hands back the frame it owned for it.
    pub fn unmap_one(&mut self, vpn: VirtPageNum) -> (r: Option<FrameTracker>)
        ensures
            final(self).start() == old(self).start() && final(self).end() == old(self).end(),
            final(self).map_type() == old(self).map_type(),
            final(self).perm() == old(self).perm(),
            old(self).map_type() == MapType::Identical ==> r is None && final(self).frames() == old(self).frames(),
            old(self).map_type() == MapType::Framed ==> {
                &&& final(self).frames() == old(self).frames().remove(vpn.0)
                &&& (r is Some <==> old(self).frames().contains_key(vpn.0))
                &&& r matches Some(f) ==> f.ppn == old(self).frames()[vpn.0]
            },
    {
        match self.map_type {
            MapType::Framed => {
                let r = self.data_frames.remove(&vpn.0);
                assert(self.frames() =~= old(self).frames().remove(vpn.0));
                r
            },
            _ => None,
        }
    }
}

/// `a` is a fresh area over the pages of `[start_va, end_va)` of type `t` with
/// permissions `perm`.
pub open spec fn area_is(a: MapArea, start_va: VirtAddr, end_va: VirtAddr, t: MapType, perm: u8) -> bool {
    &&& a.start() == area_pages(start_va, end_va).0
    &&& a.end() == area_pages(start_va, end_va).1
    &&& a.map_type() == t
    &&& a.perm() == perm
    &&& a.frames() == Map::<usize, PhysPageNum>::empty()
}

/// The pages of `[va, va + size)`, each with a frame of its own, readable and writable
/// by the user; nothing when `va` is not on a page boundary.
pub fn mem_apply(va: VirtAddr, size: usize) -> (r: Option<MapArea>)
    requires
        va.0 + size <= usize::MAX,
        va.0 % 4096 == 0 ==> area_ok(va, VirtAddr((va.0 + size) as usize)),
    ensures
        va.0 % 4096 != 0 ==> r is None,
        va.0 % 4096 == 0 ==> (r matches Some(a) && a.wf() && area_is(
            a,
            va,
            VirtAddr((va.0 + size) as usize),
            MapType::Framed,
            MAP_PERM_R | MAP_PERM_W | MAP_PERM_U,
        )),
{
    if !va.aligned() {
        return None;
    }
    Some(MapArea::framed(va, va + size, MAP_PERM_R | MAP_PERM_W | MAP_PERM_U))
}

/// Flag bits of an ELF program header.
pub const ELF_FLAG_X: u32 = 1;

pub const ELF_FLAG_W: u32 = 2;

pub const ELF_FLAG_R: u32 = 4;

/// A program header of an ELF image, as plain values.
#[derive(Clone, Copy, PartialEq, Eq, Structural, Debug)]
pub struct ElfSegment {
    /// The segment is to be loaded.
    pub is_load: bool,
    pub virtual_addr: u64,
    pub mem_size: u64,
    pub offset: u64,
    pub file_size: u64,
    pub flags: u32,
}

/// The permissions of a loaded segment: user-accessible, and readable, writable and
/// executable as its flags say.
pub open spec fn segment_perm_spec(flags: u32) -> u8 {
    MAP_PERM_U | (if flags & ELF_FLAG_R == ELF_FLAG_R { MAP_PERM_R } else { 0 }) | (if flags & ELF_FLAG_W
        == ELF_FLAG_W {
        MAP_PERM_W
    } else {
        0
    }) | (if flags & ELF_FLAG_X == ELF_FLAG_X { MAP_PERM_X } else { 0 })
}

pub fn segment_perm(flags: u32) -> (r: u8)
    ensures
        r == segment_perm_spec(flags),
        r & MAP_PERM_U == MAP_PERM_U,
        (r & MAP_PERM_R == MAP_PERM_R) == (flags & ELF_FLAG_R == ELF_FLAG_R),
        (r & MAP_PERM_W == MAP_PERM_W) == (flags & ELF_FLAG_W == ELF_FLAG_W),
        (r & MAP_PERM_X == MAP_PERM_X) == (flags & ELF_FLAG_X == ELF_FLAG_X),
        r & !(MAP_PERM_U | MAP_PERM_R | MAP_PERM_W | MAP_PERM_X) == 0,
{
    proof {
        law_segment_permissions(flags);
    }
    let r = if flags & ELF_FLAG_R == ELF_FLAG_R { MAP_PERM_R } else { 0 };
    let w = if flags & ELF_FLAG_W == ELF_FLAG_W { MAP_PERM_W } else { 0 };
    let x = if flags & ELF_FLAG_X == ELF_FLAG_X { MAP_PERM_X } else { 0 };
    MAP_PERM_U | r | w | x
}

/// The address `v` names within the 39 bits of a virtual address.
pub open spec fn va_of(v: usize) -> VirtAddr {
    VirtAddr((v as int % va_limit()) as usize)
}

/// Where a segment starts and ends in memory.
pub open spec fn seg_start_va(s: ElfSegment) -> VirtAddr {
    va_of(s.virtual_addr as usize)
}

pub open spec fn seg_end_va(s: ElfSegment) -> VirtAddr {
    va_of((s.virtual_addr + s.mem_size) as u64 as usize)
}

/// The segments that are loaded, in order.
pub open spec fn load_segments(segs: Seq<ElfSegment>) -> Seq<ElfSegment>
    decreases segs.len(),
{
    if segs.len() == 0 {
        segs
    } else if segs.last().is_load {
        load_segments(segs.drop_last()).push(segs.last())
    } else {
        load_segments(segs.drop_last())
    }
}

/// The page boundary where the last loaded segment ends; 0 without one.
pub open spec fn last_load_end(segs: Seq<ElfSegment>) -> int {
    let loads = load_segments(segs);
    if loads.len() == 0 {
        0
    } else {
        area_pages(seg_start_va(loads.last()), seg_end_va(loads.last())).1
    }
}

/// The user stack: one guard page above the last loaded segment, then one stack.
pub open spec fn user_stack_bottom(segs: Seq<ElfSegment>) -> int {
    (((last_load_end(segs) % vpn_limit()) * 4096) as usize) + PAGE_SIZE
}

pub open spec fn user_stack_top(segs: Seq<ElfSegment>) -> int {
    user_stack_bottom(segs) + USER_STACK_SIZE
}

/// A loaded segment can be laid out.
pub open spec fn segment_ok(s: ElfSegment) -> bool {
    s.is_load ==> {
        &&& s.virtual_addr + s.mem_size <= u64::MAX
        &&& s.offset + s.file_size <= u64::MAX
        &&& area_ok(seg_start_va(s), seg_end_va(s))
    }
}

/// The image can be laid out: its segments can, and the user stack and trap context
/// fit below the top of the address space.
pub open spec fn layout_ok(segs: Seq<ElfSegment>) -> bool {
    &&& forall|i: int| 0 <= i < segs.len() ==> #[trigger] segment_ok(segs[i])
    &&& user_stack_top(segs) <= usize::MAX
    &&& area_ok(VirtAddr(user_stack_bottom(segs) as usize), VirtAddr(user_stack_top(segs) as usize))
    &&& area_ok(VirtAddr(user_stack_top(segs) as usize), VirtAddr(user_stack_top(segs) as usize))
    &&& area_ok(va_of(TRAP_CONTEXT), va_of(TRAMPOLINE))
}

/// An area of a new address space, with the bytes of the image that fill it.
pub struct ElfArea {
    pub area: MapArea,
    /// The range of the image's bytes copied to the start of the area.
    pub data: Option<(usize, usize)>,
}

/// `areas` and `top` are the layout of a user address space for program headers
/// `segs`: each loaded segment (readable, writable, executable and user-accessible as
/// its flags say) filled from its bytes of the image; the user stack one guard page
/// above the last of them; an empty area at the stack top; the trap context page; and
/// `top` is the stack top.
pub open spec fn layout_is(areas: Seq<ElfArea>, top: usize, segs: Seq<ElfSegment>) -> bool {
    let loads = load_segments(segs);
    let n = loads.len() as int;
    let bottom_va = VirtAddr(user_stack_bottom(segs) as usize);
    let top_va = VirtAddr(user_stack_top(segs) as usize);
    &&& areas.len() == n + 3
    &&& forall|k: int| 0 <= k < n ==> {
        &&& area_is(#[trigger] areas[k].area, seg_start_va(loads[k]), seg_end_va(loads[k]), MapType::Framed,
            segment_perm_spec(loads[k].flags))
        &&& areas[k].data == Some((loads[k].offset as usize, (loads[k].offset + loads[k].file_size) as u64 as usize))
    }
    &&& area_is(areas[n].area, bottom_va, top_va, MapType::Framed, MAP_PERM_R | MAP_PERM_W | MAP_PERM_U)
    &&& areas[n].data is None
    &&& area_is(areas[n + 1].area, top_va, top_va, MapType::Framed, MAP_PERM_R | MAP_PERM_W | MAP_PERM_U)
    &&& areas[n + 1].data is None
    &&& area_is(areas[n + 2].area, va_of(TRAP_CONTEXT), va_of(TRAMPOLINE), MapType::Framed, MAP_PERM_R | MAP_PERM_W)
    &&& areas[n + 2].data is None
    &&& top == top_va.0
    &&& forall|k: int| 0 <= k < areas.len() ==> #[trigger] areas[k].area.wf()
}

/// The areas of a user address space for an image with program headers `segments`,
/// in the order they are mapped: each loaded segment (readable, writable, executable
/// and user-accessible as its flags say) filled from its bytes of the image; the user
/// stack one guard page above the last of them; an empty area at the stack top; the
/// trap context page. Also returns the stack top.
pub fn user_space_layout(segments: &Vec<ElfSegment>) -> (r: (Vec<ElfArea>, usize))
    requires
        layout_ok(segments@),
    ensures
        layout_is(r.0@, r.1, segments@),
{
    let mut areas: Vec<ElfArea> = Vec::new();
    let mut max_end_vpn = VirtPageNum(0);
    let mut i: usize = 0;
    while i < segments.len()
        invariant
            i <= segments@.len(),
            layout_ok(segments@),
            areas@.len() == load_segments(segments@.take(i as int)).len(),
            forall|k: int| 0 <= k < areas@.len() ==> {
                let loads = load_segments(segments@.take(i as int));
                &&& area_is(#[trigger] areas@[k].area, seg_start_va(loads[k]), seg_end_va(loads[k]), MapType::Framed,
                    segment_perm_spec(loads[k].flags))
                &&& areas@[k].data == Some((loads[k].offset as usize, (loads[k].offset + loads[k].file_size) as u64 as usize))
                &&& areas@[k].area.wf()
            },
            max_end_vpn.0 == last_load_end(segments@.take(i as int)),
        decreases segments@.len() - i,
    {
        let ghost before = segments@.take(i as int);
        let ghost after = segments@.take(i as int + 1);
        assert(after.drop_last() =~= before);
        assert(after.last() == segments@[i as int]);
        let seg = segments[i];
        if seg.is_load {
            assert(segment_ok(segments@[i as int]));
            let start_va = VirtAddr::from(#[verifier::truncate] (seg.virtual_addr as usize));
            let end_va = VirtAddr::from(#[verifier::truncate] ((seg.virtual_addr + seg.mem_size) as usize));
            let map_perm = segment_perm(seg.flags);
            let area = MapArea::framed(start_va, end_va, map_perm);
            max_end_vpn = area.end_vpn;
            let data = Some(
                (#[verifier::truncate] (seg.offset as usize), #[verifier::truncate] ((seg.offset + seg.file_size) as usize)),
            );
            areas.push(ElfArea { area, data });
            assert(load_segments(after) == load_segments(before).push(seg));
        } else {
            assert(load_segments(after) == load_segments(before));
        }
        i = i + 1;
    }
    assert(segments@.take(segments@.len() as int) =~= segments@);
    let max_end_va = VirtAddr::from(max_end_vpn);
    let user_stack_bottom = max_end_va + PAGE_SIZE;
    let user_stack_top = user_stack_bottom + USER_STACK_SIZE;
    areas.push(ElfArea {
        area: MapArea::framed(user_stack_bottom, user_stack_top, MAP_PERM_R | MAP_PERM_W | MAP_PERM_U),
        data: None,
    });
    areas.push(ElfArea {
        area: MapArea::framed(user_stack_top, user_stack_top, MAP_PERM_R | MAP_PERM_W | MAP_PERM_U),
        data: None,
    });
    areas.push(ElfArea {
        area: MapArea::framed(VirtAddr::from(TRAP_CONTEXT), VirtAddr::from(TRAMPOLINE), MAP_PERM_R | MAP_PERM_W),
        data: None,
    });
    (areas, user_stack_top.0)
}

/// Whether an area can be made from `start_va` to `end_va`.
pub fn area_fits(start_va: VirtAddr, end_va: VirtAddr) -> (r: bool)
    ensures
        r == area_ok(start_va, end_va),
{
    start_va.floor().0 <= end_va.ceil().0
}

/// Whether an image with program headers `segments` can be laid out (see
/// `user_space_layout`).
pub fn layout_fits(segments: &Vec<ElfSegment>) -> (r: bool)
    ensures
        r == layout_ok(segments@),
{
    let mut max_end_vpn = VirtPageNum(0);
    let mut i: usize = 0;
    while i < segments.len()
        invariant
            i <= segments@.len(),
            forall|k: int| 0 <= k < i ==> #[trigger] segment_ok(segments@[k]),
            max_end_vpn.0 == last_load_end(segments@.take(i as int)),
        decreases segments@.len() - i,
    {
        let ghost before = segments@.take(i as int);
        let ghost after = segments@.take(i as int + 1);
        assert(after.drop_last() =~= before);
        let seg = segments[i];
        if seg.is_load {
            if seg.virtual_addr > u64::MAX - seg.mem_size || seg.offset > u64::MAX - seg.file_size {
                assert(!segment_ok(segments@[i as int]));
                return false;
            }
            let start_va = VirtAddr::from(#[verifier::truncate] (seg.virtual_addr as usize));
            let end_va = VirtAddr::from(#[verifier::truncate] ((seg.virtual_addr + seg.mem_size) as usize));
            if !area_fits(start_va, end_va) {
                assert(!segment_ok(segments@[i as int]));
                return false;
            }
            max_end_vpn = end_va.ceil();
            assert(load_segments(after) == load_segments(before).push(seg));
        } else {
            assert(load_segments(after) == load_segments(before));
        }
        i = i + 1;
    }
    assert(segments@.take(segments@.len() as int) =~= segments@);
    let max_end_va = VirtAddr::from(max_end_vpn);
    if max_end_va.0 > usize::MAX - PAGE_SIZE - USER_STACK_SIZE {
        return false;
    }
    let bottom = max_end_va + PAGE_SIZE;
    let top = bottom + USER_STACK_SIZE;
    area_fits(bottom, top) && area_fits(top, top) && area_fits(
        VirtAddr::from(TRAP_CONTEXT),
        VirtAddr::from(TRAMPOLINE),
    )
}

/// The areas of the kernel's address space, all identical, in the order they are
/// mapped: the code (readable, executable), the read-only data (readable), the data
/// and the zeroed data with the boot stack (readable, writable), and the physical
/// memory after the kernel up to `memory_end` (readable, writable). The code is the one
/// area that can be executed, and it cannot be written.
pub fn kernel_areas(
    stext: usize,
    etext: usize,
    srodata: usize,
    erodata: usize,
    sdata: usize,
    edata: usize,
    sbss: usize,
    ebss: usize,
    ekernel: usize,
    memory_end: usize,
) -> (r: Vec<MapArea>)
    requires
        area_ok(va_of(stext), va_of(etext)),
        area_ok(va_of(srodata), va_of(erodata)),
        area_ok(va_of(sdata), va_of(edata)),
        area_ok(va_of(sbss), va_of(ebss)),
        area_ok(va_of(ekernel), va_of(memory_end)),
    ensures
        r@.len() == 5,
        area_is(r@[0], va_of(stext), va_of(etext), MapType::Identical, MAP_PERM_R | MAP_PERM_X),
        area_is(r@[1], va_of(srodata), va_of(erodata), MapType::Identical, MAP_PERM_R),
        area_is(r@[2], va_of(sdata), va_of(edata), MapType::Identical, MAP_PERM_R | MAP_PERM_W),
        area_is(r@[3], va_of(sbss), va_of(ebss), MapType::Identical, MAP_PERM_R | MAP_PERM_W),
        area_is(r@[4], va_of(ekernel), va_of(memory_end), MapType::Identical, MAP_PERM_R | MAP_PERM_W),
        forall|k: int| 0 <= k < 5 ==> #[trigger] r@[k].wf() && r@[k].perm() & MAP_PERM_R != 0,
        r@[0].perm() & MAP_PERM_W == 0 && r@[0].perm() & MAP_PERM_X != 0,
        forall|k: int| 1 <= k < 5 ==> #[trigger] r@[k].perm() & MAP_PERM_X == 0,
        r@[1].perm() & MAP_PERM_W == 0,
        forall|k: int| 2 <= k < 5 ==> #[trigger] r@[k].perm() & MAP_PERM_W != 0,
{
    let mut areas: Vec<MapArea> = Vec::new();
    areas.push(MapArea::identical(VirtAddr::from(stext), VirtAddr::from(etext), MAP_PERM_R | MAP_PERM_X));
    areas.push(MapArea::identical(VirtAddr::from(srodata), VirtAddr::from(erodata), MAP_PERM_R));
    areas.push(MapArea::identical(VirtAddr::from(sdata), VirtAddr::from(edata), MAP_PERM_R | MAP_PERM_W));
    areas.push(MapArea::identical(VirtAddr::from(sbss), VirtAddr::from(ebss), MAP_PERM_R | MAP_PERM_W));
    areas.push(MapArea::identical(VirtAddr::from(ekernel), VirtAddr::from(memory_end), MAP_PERM_R | MAP_PERM_W));
    assert((MAP_PERM_R | MAP_PERM_X) & MAP_PERM_W == 0 && (MAP_PERM_R | MAP_PERM_X) & MAP_PERM_X != 0
        && (MAP_PERM_R | MAP_PERM_X) & MAP_PERM_R != 0) by (bit_vector);
    assert(MAP_PERM_R & MAP_PERM_W == 0 && MAP_PERM_R & MAP_PERM_X == 0 && MAP_PERM_R & MAP_PERM_R != 0) by (bit_vector);
    assert((MAP_PERM_R | MAP_PERM_W) & MAP_PERM_X == 0 && (MAP_PERM_R | MAP_PERM_W) & MAP_PERM_W != 0
        && (MAP_PERM_R | MAP_PERM_W) & MAP_PERM_R != 0) by (bit_vector);
    areas
}

/// A loaded segment is mapped user-accessible, readable exactly when its flags say
/// readable, writable exactly when they say writable and executable exactly when they
/// say executable, and with no other permission.
pub proof fn law_segment_permissions(flags: u32)
    ensures
        segment_perm_spec(flags) & MAP_PERM_U == MAP_PERM_U,
        (segment_perm_spec(flags) & MAP_PERM_R == MAP_PERM_R) == (flags & ELF_FLAG_R == ELF_FLAG_R),
        (segment_perm_spec(flags) & MAP_PERM_W == MAP_PERM_W) == (flags & ELF_FLAG_W == ELF_FLAG_W),
        (segment_perm_spec(flags) & MAP_PERM_X == MAP_PERM_X) == (flags & ELF_FLAG_X == ELF_FLAG_X),
        segment_perm_spec(flags) & !(MAP_PERM_U | MAP_PERM_R | MAP_PERM_W | MAP_PERM_X) == 0,
{
    let p = segment_perm_spec(flags);
    let r: u8 = if flags & 4u32 == 4u32 { 2u8 } else { 0u8 };
    let w: u8 = if flags & 2u32 == 2u32 { 4u8 } else { 0u8 };
    let x: u8 = if flags & 1u32 == 1u32 { 8u8 } else { 0u8 };
    assert(p == 16u8 | r | w | x);
    assert({
        let q = 16u8 | r | w | x;
        &&& q & 16u8 == 16u8
        &&& (q & 2u8 == 2u8) == (r == 2u8)
        &&& (q & 4u8 == 4u8) == (w == 4u8)
        &&& (q & 8u8 == 8u8) == (x == 8u8)
        &&& q & !30u8 == 0u8
    }) by (bit_vector)
        requires
            r == 0u8 || r == 2u8,
            w == 0u8 || w == 4u8,
            x == 0u8 || x == 8u8,
    ;
    assert((16u8 | 2u8 | 4u8 | 8u8) == 30u8) by (bit_vector);
    assert(MAP_PERM_U | MAP_PERM_R | MAP_PERM_W | MAP_PERM_X == 30u8);
}

/// Putting a loaded segment in front keeps it in front of the loaded segments.
proof fn lemma_load_segments_prepend(s: ElfSegment, segs: Seq<ElfSegment>)
    requires
        s.is_load,
    ensures
        load_segments(seq![s] + segs) == seq![s] + load_segments(segs),
    decreases segs.len(),
{
    let all = seq![s] + segs;
    if segs.len() == 0 {
        assert(all.drop_last() =~= Seq::<ElfSegment>::empty());
        assert(load_segments(Seq::<ElfSegment>::empty()) =~= Seq::<ElfSegment>::empty());
        assert(all.last() == s);
        assert(load_segments(all) =~= seq![s]);
    } else {
        assert(all.drop_last() =~= seq![s] + segs.drop_last());
        assert(all.last() == segs.last());
        lemma_load_segments_prepend(s, segs.drop_last());
        if segs.last().is_load {
            assert(load_segments(all) =~= seq![s] + load_segments(segs));
        } else {
            assert(load_segments(all) =~= seq![s] + load_segments(segs));
        }
    }
}

/// The number of loaded segments puts no limit on an image: when an image can be laid
/// out, so can the image with one more well-formed loaded segment in front of its
/// program headers (the user stack still goes above the last loaded segment).
pub proof fn law_more_segments_still_fit(segs: Seq<ElfSegment>, s: ElfSegment)
    requires
        layout_ok(segs),
        load_segments(segs).len() > 0,
        s.is_load,
        segment_ok(s),
    ensures
        layout_ok(seq![s] + segs),
        load_segments(seq![s] + segs).len() == load_segments(segs).len() + 1,
{
    let all = seq![s] + segs;
    lemma_load_segments_prepend(s, segs);
    assert(load_segments(all).last() == load_segments(segs).last());
    assert(last_load_end(all) == last_load_end(segs));
    assert forall|i: int| 0 <= i < all.len() implies #[trigger] segment_ok(all[i]) by {
        if i > 0 {
            assert(all[i] == segs[i - 1]);
        }
    }
}

} // verus!
