use rcore_os::mm::address::{PhysAddr, PhysPageNum, VirtAddr, VirtPageNum};
use rcore_os::mm::frame_allocator::{frame_alloc, frame_dealloc, StackFrameAllocator};
use rcore_os::mm::memory_set::{
    kernel_areas, layout_fits, mem_apply, segment_perm, user_space_layout, ElfSegment, MapArea, MapType, ELF_FLAG_R, ELF_FLAG_W,
    ELF_FLAG_X, MAP_PERM_R, MAP_PERM_U, MAP_PERM_W, MAP_PERM_X,
};
use rcore_os::mm::page_table::{root_of_token, satp_token, walk_step, PageTableEntry, WalkStep, PTE_R, PTE_V, PTE_W, PTE_X};
use rcore_os::mm::range::VPNRange;

#[test]
fn vpn_range_test() {
    let va = VirtAddr(0x15000);
    let floor_va: VirtAddr = va.floor().into();
    let ceil_va: VirtAddr = va.ceil().into();
    assert_eq!(floor_va.0, 0x15000);
    assert_eq!(ceil_va.0, 0x15000);
}

#[test]
fn floor_and_ceil_of_an_unaligned_address() {
    let va = VirtAddr(0x15001);
    assert_eq!(va.floor().0, 0x15);
    assert_eq!(va.ceil().0, 0x16);
    assert_eq!(va.page_offset(), 1);
    assert!(!va.aligned());
    assert!(VirtAddr(0x15000).aligned());
    assert_eq!(VirtAddr(0).ceil().0, 0);
    let pa = PhysAddr(0x8020_0fff);
    assert_eq!(pa.floor().0, 0x80200);
    assert_eq!(pa.ceil().0, 0x80201);
    assert_eq!(pa.page_offset(), 0xfff);
    assert!(!pa.aligned());
}

#[test]
fn conversions_keep_the_address_bits() {
    assert_eq!(VirtAddr::from(usize::MAX).0, 0x7f_ffff_ffff);
    assert_eq!(PhysAddr::from(usize::MAX).0, 0xff_ffff_ffff_ffff);
    assert_eq!(PhysPageNum::from(usize::MAX).0, 0xfff_ffff_ffff);
    assert_eq!(VirtPageNum::from(usize::MAX).0, 0x7ff_ffff);
    // the high half of the address space sign-extends bit 38
    assert_eq!(usize::from(VirtAddr(0x7f_ffff_f000)), 0xffff_ffff_ffff_f000);
    assert_eq!(usize::from(VirtAddr(0x1000)), 0x1000);
    assert_eq!(VirtAddr::from(VirtPageNum(0x15)).0, 0x15000);
    assert_eq!(PhysAddr::from(PhysPageNum(0x80200)).0, 0x8020_0000);
    assert_eq!((VirtAddr(0x1000) + 0x234).0, 0x1234);
    assert_eq!((VirtPageNum(7) + 3).0, 10);
}

#[test]
fn page_number_indexes_three_levels() {
    // 0b000000001_000000010_000000011
    let vpn = VirtPageNum((1 << 18) | (2 << 9) | 3);
    assert_eq!(vpn.indexes(), [1, 2, 3]);
}

#[test]
fn range_walks_its_pages() {
    let range = VPNRange::new(VirtPageNum(3), VirtPageNum(6));
    assert_eq!(range.get_start().0, 3);
    assert_eq!(range.get_end().0, 6);
    let mut it = range.iter();
    let mut seen = Vec::new();
    while let Some(v) = it.next() {
        seen.push(v.0);
    }
    assert_eq!(seen, vec![3, 4, 5]);
}

#[test]
fn frame_allocator_test() {
    let mut allocator = StackFrameAllocator::new();
    allocator.init(PhysPageNum(0x100), PhysPageNum(0x110));
    let mut frames = Vec::new();
    for _ in 0..5 {
        frames.push(frame_alloc(&mut allocator).unwrap());
    }
    let ppns: Vec<usize> = frames.iter().map(|f| f.ppn.0).collect();
    assert_eq!(ppns, vec![0x100, 0x101, 0x102, 0x103, 0x104]);
    for f in frames.iter() {
        frame_dealloc(&mut allocator, f.ppn);
    }
    // released frames come back last released first
    let again: Vec<usize> = (0..5).map(|_| frame_alloc(&mut allocator).unwrap().ppn.0).collect();
    assert_eq!(again, vec![0x104, 0x103, 0x102, 0x101, 0x100]);
    // then fresh frames again
    assert_eq!(frame_alloc(&mut allocator).unwrap().ppn.0, 0x105);
}

#[test]
fn frame_allocator_runs_out() {
    let mut allocator = StackFrameAllocator::new();
    assert!(allocator.allocate().is_none());
    allocator.init(PhysPageNum(1), PhysPageNum(2));
    assert_eq!(allocator.allocate(), Some(PhysPageNum(1)));
    assert_eq!(allocator.allocate(), None);
    allocator.deallocate(PhysPageNum(1));
    assert_eq!(allocator.allocate(), Some(PhysPageNum(1)));
}

#[test]
fn page_table_entry_round_trip() {
    let e = PageTableEntry::new(PhysPageNum(0x80200), PTE_V | PTE_R | PTE_W);
    assert_eq!(e.bits, (0x80200 << 10) | 0b111);
    assert_eq!(e.ppn(), PhysPageNum(0x80200));
    assert_eq!(e.flags(), 0b111);
    assert!(e.is_valid());
    assert!(e.readable());
    assert!(e.writable());
    assert!(!e.executable());
    let x = PageTableEntry::new(PhysPageNum(1), PTE_X);
    assert!(!x.is_valid());
    assert!(x.executable());
    let empty = PageTableEntry::empty();
    assert_eq!(empty.bits, 0);
    assert!(!empty.is_valid());
}

#[test]
fn satp_token_selects_sv39() {
    let token = satp_token(PhysPageNum(0x80321));
    assert_eq!(token, (8usize << 60) | 0x80321);
    assert_eq!(root_of_token(token), PhysPageNum(0x80321));
}

#[test]
fn identical_area_maps_pages_to_equal_frames() {
    let mut allocator = StackFrameAllocator::new();
    let mut area = MapArea::identical(VirtAddr(0x8020_0000), VirtAddr(0x8020_2800), MAP_PERM_R | MAP_PERM_X);
    assert_eq!(area.pte_flags(), MAP_PERM_R | MAP_PERM_X);
    assert_eq!(area.byte_len(), 3 * 4096);
    let mapped = area.map(&mut allocator).unwrap();
    let pairs: Vec<(usize, usize)> = mapped.iter().map(|(v, p)| (v.0, p.0)).collect();
    assert_eq!(pairs, vec![(0x80200, 0x80200), (0x80201, 0x80201), (0x80202, 0x80202)]);
}

#[test]
fn framed_area_takes_frames_from_the_allocator() {
    let mut allocator = StackFrameAllocator::new();
    allocator.init(PhysPageNum(0x90000), PhysPageNum(0x90010));
    let mut area = MapArea::framed(VirtAddr(0x1000), VirtAddr(0x3000), MAP_PERM_R | MAP_PERM_W | MAP_PERM_U);
    let mapped = area.map(&mut allocator).unwrap();
    let pairs: Vec<(usize, usize)> = mapped.iter().map(|(v, p)| (v.0, p.0)).collect();
    assert_eq!(pairs, vec![(1, 0x90000), (2, 0x90001)]);
    let frame = area.unmap_one(VirtPageNum(2)).unwrap();
    assert_eq!(frame.ppn, PhysPageNum(0x90001));
    assert!(area.unmap_one(VirtPageNum(2)).is_none());
}

#[test]
fn framed_area_without_frames_fails() {
    let mut allocator = StackFrameAllocator::new();
    allocator.init(PhysPageNum(5), PhysPageNum(6));
    let mut area = MapArea::framed(VirtAddr(0), VirtAddr(0x2000), MAP_PERM_R);
    assert!(area.map(&mut allocator).is_none());
    let mut other = MapArea::new(VirtAddr(0), VirtAddr(0x1000), MapType::Framed, MAP_PERM_R);
    assert!(other.map_one(&mut allocator, VirtPageNum(0)).is_none());
}

#[test]
fn copy_data_splits_by_page() {
    let area = MapArea::framed(VirtAddr(0x10000), VirtAddr(0x14000), MAP_PERM_R);
    let chunks = area.copy_data(5000);
    let plain: Vec<(usize, usize, usize)> = chunks.iter().map(|(v, a, b)| (v.0, *a, *b)).collect();
    assert_eq!(plain, vec![(0x10, 0, 4096), (0x11, 4096, 5000)]);
    // data longer than the area stops at its end
    assert_eq!(area.copy_data(5 * 4096).len(), 4);
    assert_eq!(area.copy_data(0).len(), 0);
}

#[test]
fn mem_apply_needs_an_aligned_start() {
    assert!(mem_apply(VirtAddr(0x1001), 4096).is_none());
    let area = mem_apply(VirtAddr(0x1000), 4096).unwrap();
    assert_eq!(area.byte_len(), 4096);
    assert_eq!(area.pte_flags(), MAP_PERM_R | MAP_PERM_W | MAP_PERM_U);
    let area = mem_apply(VirtAddr(0x1000), 100).unwrap();
    assert_eq!(area.byte_len(), 4096);
}

#[test]
fn segment_permissions_follow_flags() {
    assert_eq!(segment_perm(ELF_FLAG_R | ELF_FLAG_X), MAP_PERM_U | MAP_PERM_R | MAP_PERM_X);
    assert_eq!(segment_perm(ELF_FLAG_R | ELF_FLAG_W), MAP_PERM_U | MAP_PERM_R | MAP_PERM_W);
    assert_eq!(segment_perm(0), MAP_PERM_U);
}

#[test]
fn user_space_layout_places_stack_above_the_last_segment() {
    let text = ElfSegment {
        is_load: true,
        virtual_addr: 0x10000,
        mem_size: 0x1234,
        offset: 0x1000,
        file_size: 0x1234,
        flags: ELF_FLAG_R | ELF_FLAG_X,
    };
    let note = ElfSegment { is_load: false, virtual_addr: 0, mem_size: 0, offset: 0, file_size: 0, flags: 0 };
    let data = ElfSegment {
        is_load: true,
        virtual_addr: 0x12000,
        mem_size: 0x2000,
        offset: 0x3000,
        file_size: 0x100,
        flags: ELF_FLAG_R | ELF_FLAG_W,
    };
    let segments = vec![text, note, data];
    assert!(layout_fits(&segments));
    let (areas, stack_top) = user_space_layout(&segments);
    assert_eq!(areas.len(), 5);
    assert_eq!(areas[0].data, Some((0x1000, 0x2234)));
    assert_eq!(areas[0].area.byte_len(), 2 * 4096);
    assert_eq!(areas[0].area.pte_flags(), MAP_PERM_U | MAP_PERM_R | MAP_PERM_X);
    assert_eq!(areas[1].data, Some((0x3000, 0x3100)));
    assert_eq!(areas[1].area.pte_flags(), MAP_PERM_U | MAP_PERM_R | MAP_PERM_W);
    // the last segment ends at 0x14000; one guard page, then one page of stack
    assert_eq!(stack_top, 0x16000);
    assert_eq!(areas[2].area.vpn_range().get_start().0, 0x15);
    assert_eq!(areas[2].area.vpn_range().get_end().0, 0x16);
    assert_eq!(areas[2].data, None);
    assert_eq!(areas[3].area.byte_len(), 0);
    // the trap context page sits right below the trampoline
    assert_eq!(areas[4].area.vpn_range().get_start().0, 0x7ff_fffe);
    assert_eq!(areas[4].area.vpn_range().get_end().0, 0x7ff_ffff);
    assert_eq!(areas[4].area.pte_flags(), MAP_PERM_R | MAP_PERM_W);
}

#[test]
fn layout_rejects_an_overflowing_segment() {
    let bad = ElfSegment { is_load: true, virtual_addr: u64::MAX, mem_size: 2, offset: 0, file_size: 0, flags: 0 };
    assert!(!layout_fits(&vec![bad]));
}

#[test]
fn page_table_walk_steps() {
    let table = PageTableEntry::new(PhysPageNum(0x80400), PTE_V);
    let empty = PageTableEntry::empty();
    assert_eq!(walk_step(0, table, false), WalkStep::Descend(PhysPageNum(0x80400)));
    assert_eq!(walk_step(1, table, true), WalkStep::Descend(PhysPageNum(0x80400)));
    assert_eq!(walk_step(0, empty, false), WalkStep::NotFound);
    assert_eq!(walk_step(1, empty, true), WalkStep::CreateTable);
    assert_eq!(walk_step(2, empty, false), WalkStep::Found);
    assert_eq!(walk_step(2, table, true), WalkStep::Found);
}

#[test]
fn kernel_areas_follow_the_sections() {
    let areas = kernel_areas(
        0x8020_0000, 0x8020_3000, 0x8020_3000, 0x8020_4000, 0x8020_4000, 0x8020_5000, 0x8020_5000, 0x8021_5000,
        0x8021_5000, 0x8800_0000,
    );
    assert_eq!(areas.len(), 5);
    assert_eq!(areas[0].pte_flags(), MAP_PERM_R | MAP_PERM_X);
    assert_eq!(areas[1].pte_flags(), MAP_PERM_R);
    assert_eq!(areas[2].pte_flags(), MAP_PERM_R | MAP_PERM_W);
    assert_eq!(areas[3].pte_flags(), MAP_PERM_R | MAP_PERM_W);
    assert_eq!(areas[4].pte_flags(), MAP_PERM_R | MAP_PERM_W);
    assert!(areas.iter().all(|a| !a.is_framed()));
    assert_eq!(areas[0].byte_len(), 3 * 4096);
    assert_eq!(areas[4].vpn_range().get_end().0, 0x88000);
}
