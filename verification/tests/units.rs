use virtual_memory::layout::{page_table_index, span_of};
use virtual_memory::{
    FrameAllocator, Page, PageRange, PageTableFlags, PhysFrame, PhysFrameRange, VirtualMemoryArea,
    VmaError, VmaType, PRESENT, USER_ACCESSIBLE, WRITABLE,
};

fn area(start: u64, size: usize) -> VirtualMemoryArea {
    VirtualMemoryArea::from_address(start, size, VmaType::Heap).unwrap()
}

#[test]
fn area_from_aligned_address() {
    let a = VirtualMemoryArea::from_address(0x40_0000, 0x3000, VmaType::Code).unwrap();
    assert_eq!(a.start(), 0x40_0000);
    assert_eq!(a.end(), 0x40_3000);
    assert_eq!(a.typ(), VmaType::Code);
    assert_eq!(a.range().len(), 3);
}

#[test]
fn area_size_is_cut_to_whole_pages() {
    let a = area(0x1000, 0x1fff);
    assert_eq!(a.end(), 0x2000);
    let b = area(0x1000, 0xfff);
    assert_eq!(b.end(), 0x1000);
    assert!(b.range().is_empty());
}

#[test]
fn area_from_misaligned_address_fails() {
    for start in [1u64, 0xfff, 0x1001, 0x40_0800, u64::MAX] {
        let r = VirtualMemoryArea::from_address(start, 0x1000, VmaType::Stack);
        assert_eq!(r.err(), Some(VmaError::Misaligned));
    }
    for start in [0u64, 0x1000, 0x40_0000, 0xffff_ffff_ffff_0000] {
        assert!(VirtualMemoryArea::from_address(start, 0x1000, VmaType::Stack).is_ok());
    }
}

#[test]
fn area_new_keeps_range_and_type() {
    let range = PageRange {
        start: Page::containing_address(0x5123),
        end: Page::containing_address(0x9000),
    };
    let a = VirtualMemoryArea::new(range, VmaType::Stack);
    assert_eq!(a.range(), range);
    assert_eq!(a.start(), 0x5000);
    assert_eq!(a.end(), 0x9000);
    assert_eq!(a.typ(), VmaType::Stack);
}

#[test]
fn areas_overlap_when_ranges_intersect() {
    let a = area(0x1000, 0x3000);
    assert!(a.overlaps_with(&area(0x3000, 0x1000)));
    assert!(a.overlaps_with(&area(0x0, 0x2000)));
    assert!(a.overlaps_with(&area(0x2000, 0x1000)));
    assert!(a.overlaps_with(&area(0x0, 0x10000)));
    assert!(a.overlaps_with(&a));
    assert!(!a.overlaps_with(&area(0x4000, 0x1000)));
    assert!(!a.overlaps_with(&area(0x0, 0x1000)));
    assert!(!area(0x0, 0x1000).overlaps_with(&a));
}

#[test]
fn overlap_of_an_empty_area_follows_the_predicate() {
    let empty = area(0x2000, 0);
    let a = area(0x1000, 0x3000);
    assert!(empty.overlaps_with(&a));
    assert!(!empty.overlaps_with(&empty));
}

#[test]
fn page_of_an_address() {
    assert_eq!(Page::containing_address(0x1fff).start_address(), 0x1000);
    assert_eq!(Page::containing_address(0x2000).start_address(), 0x2000);
    assert!(Page::from_start_address(0x2001).is_none());
    assert_eq!(Page::from_start_address(0x2000).unwrap().plus(3).start_address(), 0x5000);
}

#[test]
fn page_range_length() {
    let p = |a: u64| Page::from_start_address(a).unwrap();
    assert_eq!(PageRange { start: p(0x1000), end: p(0x4000) }.len(), 3);
    assert_eq!(PageRange { start: p(0x4000), end: p(0x1000) }.len(), 0);
    assert!(PageRange { start: p(0x4000), end: p(0x4000) }.is_empty());
    assert!(!PageRange { start: p(0x3000), end: p(0x4000) }.is_empty());
}

#[test]
fn frame_of_an_address() {
    assert!(PhysFrame::from_start_address(0x1001).is_none());
    assert!(PhysFrame::from_start_address(0x10_0000_0000_0000).is_none());
    let f = PhysFrame::from_start_address(0xf_ffff_ffff_f000).unwrap();
    assert_eq!(f.start_address(), 0xf_ffff_ffff_f000);
    assert_eq!(PhysFrame::zero().start_address(), 0);
    assert_eq!(PhysFrame::zero().plus(2).start_address(), 0x2000);
}

#[test]
fn flags_keep_flag_bits_only() {
    let f = PageTableFlags::from_bits_truncate(0xffff_ffff_ffff_ffff);
    assert_eq!(f.bits(), 0xfff0_0000_0000_0fff);
    assert_eq!(PageTableFlags::empty().bits(), 0);
    let pw = PageTableFlags::from_bits_truncate(PRESENT | WRITABLE);
    assert_eq!(pw.bits(), 3);
    let u = PageTableFlags::from_bits_truncate(USER_ACCESSIBLE);
    assert_eq!(pw.union(u).bits(), 7);
    assert!(pw.union(u).contains(pw));
    assert!(!pw.contains(u));
}

#[test]
fn index_takes_nine_bits_per_level() {
    let addr: u64 = (5 << 12) | (17 << 21) | (300 << 30) | (511 << 39) | (2 << 48) | 0xabc;
    assert_eq!(page_table_index(addr, 1), 5);
    assert_eq!(page_table_index(addr, 2), 17);
    assert_eq!(page_table_index(addr, 3), 300);
    assert_eq!(page_table_index(addr, 4), 511);
    assert_eq!(page_table_index(addr, 5), 2);
    assert_eq!(page_table_index(0x4000_0000 + 510 * 4096, 1), 510);
}

#[test]
fn span_is_a_power_of_512() {
    assert_eq!(span_of(0), 1);
    assert_eq!(span_of(1), 512);
    assert_eq!(span_of(2), 512 * 512);
    assert_eq!(span_of(4), 1 << 36);
    assert_eq!(span_of(5), 1 << 45);
}

#[test]
fn allocator_hands_out_the_lowest_frame_first() {
    let range = PhysFrameRange {
        start: PhysFrame::from_start_address(0x5000).unwrap(),
        end: PhysFrame::from_start_address(0x8000).unwrap(),
    };
    let mut allocator = FrameAllocator::new(range);
    assert_eq!(allocator.free_count(), 3);
    assert_eq!(allocator.phys_limit().start_address(), 0x8000);
    assert_eq!(allocator.allocate().start_address(), 0x5000);
    assert_eq!(allocator.allocate().start_address(), 0x6000);
    allocator.free(PhysFrame::from_start_address(0x5000).unwrap());
    assert_eq!(allocator.free_count(), 2);
    assert_eq!(allocator.allocate().start_address(), 0x5000);
    assert_eq!(allocator.allocate().start_address(), 0x7000);
    assert_eq!(allocator.free_count(), 0);
}

#[test]
fn allocator_never_holds_frame_zero() {
    let range = PhysFrameRange {
        start: PhysFrame::zero(),
        end: PhysFrame::from_start_address(0x3000).unwrap(),
    };
    let mut allocator = FrameAllocator::new(range);
    assert_eq!(allocator.free_count(), 2);
    allocator.free(PhysFrame::zero());
    assert_eq!(allocator.free_count(), 2);
    assert_eq!(allocator.allocate().start_address(), 0x1000);
}

#[test]
fn allocator_over_an_empty_range_holds_nothing() {
    let range = PhysFrameRange {
        start: PhysFrame::from_start_address(0x3000).unwrap(),
        end: PhysFrame::from_start_address(0x3000).unwrap(),
    };
    assert_eq!(FrameAllocator::new(range).free_count(), 0);
}
