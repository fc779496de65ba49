use virtual_memory::{
    create_address_space, frames_to_bootstrap, AddressSpace, FrameAllocator, MemorySpace, Page,
    PageRange, PageTableFlags, PhysFrame, PhysFrameRange, PRESENT, USER_ACCESSIBLE, WRITABLE,
};

fn frames(start: u64, end: u64) -> PhysFrameRange {
    PhysFrameRange {
        start: PhysFrame::from_start_address(start).unwrap(),
        end: PhysFrame::from_start_address(end).unwrap(),
    }
}

fn pages(start: u64, end: u64) -> PageRange {
    PageRange {
        start: Page::from_start_address(start).unwrap(),
        end: Page::from_start_address(end).unwrap(),
    }
}

fn user_flags() -> PageTableFlags {
    PageTableFlags::from_bits_truncate(PRESENT | WRITABLE | USER_ACCESSIBLE)
}

fn kernel_flags() -> PageTableFlags {
    PageTableFlags::from_bits_truncate(PRESENT | WRITABLE)
}

fn map_checked(
    space: &mut AddressSpace,
    allocator: &mut FrameAllocator,
    range: PageRange,
    kind: MemorySpace,
    flags: PageTableFlags,
) {
    let none = frames(0, 0);
    let need = space.frames_to_map(none, range, kind);
    assert!(allocator.free_count() as u64 >= need);
    space.map(allocator, range, kind, flags);
}

fn gib_allocator() -> FrameAllocator {
    FrameAllocator::new(frames(0x10_0000, 0x4000_0000))
}

fn kernel_space(allocator: &mut FrameAllocator) -> AddressSpace {
    assert!(allocator.free_count() as u64 >= frames_to_bootstrap(allocator));
    create_address_space(None, allocator)
}

#[test]
fn bootstrap_maps_all_memory_to_itself() {
    let mut allocator = gib_allocator();
    let space = kernel_space(&mut allocator);
    assert_eq!(space.depth(), 4);
    assert_eq!(space.translate(0x1234), Some(0x1234));
    assert_eq!(space.translate(0x3FFF_F000), Some(0x3FFF_F000));
    assert_eq!(space.translate(0x4000_0000), None);
    assert_eq!(space.translate(0), Some(0));
    assert_eq!(space.translate(0x3FFF_FFFF), Some(0x3FFF_FFFF));
}

#[test]
fn bootstrap_takes_one_frame_per_table() {
    let mut allocator = gib_allocator();
    let before = allocator.free_count();
    assert_eq!(frames_to_bootstrap(&allocator), 515);
    let space = kernel_space(&mut allocator);
    assert_eq!(before - allocator.free_count(), 515);
    assert_eq!(space.page_table_address(), 0x10_0000);
}

#[test]
fn user_map_gives_distinct_frames() {
    let mut allocator = gib_allocator();
    let mut space = AddressSpace::new(4, &mut allocator);
    let range = pages(0x4000_0000, 0x4000_3000);
    map_checked(&mut space, &mut allocator, range, MemorySpace::User, user_flags());
    let a = space.translate(0x4000_0000).unwrap();
    let b = space.translate(0x4000_1000).unwrap();
    let c = space.translate(0x4000_2000).unwrap();
    assert_ne!(a, 0);
    assert_ne!(b, 0);
    assert_ne!(c, 0);
    assert_ne!(a, b);
    assert_ne!(a, c);
    assert_ne!(b, c);
    assert_eq!(space.translate(0x4000_3000), None);
    assert_eq!(space.translate(0x3FFF_F000), None);
}

#[test]
fn user_remap_overwrites_without_complaint() {
    let mut allocator = gib_allocator();
    let mut space = AddressSpace::new(4, &mut allocator);
    let range = pages(0x4000_0000, 0x4000_3000);
    map_checked(&mut space, &mut allocator, range, MemorySpace::User, user_flags());
    let first = space.translate(0x4000_1000).unwrap();
    let free = allocator.free_count();
    assert_eq!(space.frames_to_map(frames(0, 0), range, MemorySpace::User), 3);
    map_checked(&mut space, &mut allocator, range, MemorySpace::User, user_flags());
    let second = space.translate(0x4000_1000).unwrap();
    assert_ne!(first, second);
    assert_eq!(free - allocator.free_count(), 3);
}

#[test]
fn clone_shares_kernel_mappings_and_stays_apart() {
    let mut allocator = gib_allocator();
    let kernel = kernel_space(&mut allocator);
    assert!(allocator.free_count() >= 515);
    let mut clone = create_address_space(Some(&kernel), &mut allocator);
    assert_eq!(clone.translate(0x0), Some(0x0));
    assert_eq!(clone.translate(0x2000_0123), Some(0x2000_0123));
    let range = pages(0x8000_0000, 0x8000_1000);
    map_checked(&mut clone, &mut allocator, range, MemorySpace::User, user_flags());
    assert!(clone.translate(0x8000_0000).is_some());
    assert_eq!(kernel.translate(0x8000_0000), None);
    assert_ne!(clone.page_table_address(), kernel.page_table_address());
}

#[test]
fn unmap_gives_leaves_and_tables_back() {
    let mut allocator = gib_allocator();
    let mut space = AddressSpace::new(4, &mut allocator);
    let baseline = allocator.free_count();
    let range = pages(0x4000_0000, 0x4020_0000);
    assert_eq!(space.frames_to_map(frames(0, 0), range, MemorySpace::User), 512 + 3);
    map_checked(&mut space, &mut allocator, range, MemorySpace::User, user_flags());
    assert_eq!(baseline - allocator.free_count(), 515);
    assert!(space.translate(0x4010_0000).is_some());
    space.unmap(&mut allocator, range);
    assert_eq!(allocator.free_count(), baseline);
    assert_eq!(space.translate(0x4000_0000), None);
    assert_eq!(space.translate(0x401F_F000), None);
    assert_eq!(space.frames_to_map(frames(0, 0), range, MemorySpace::User), 515);
}

#[test]
fn mapping_crosses_a_table_boundary() {
    let mut allocator = gib_allocator();
    let mut space = AddressSpace::new(4, &mut allocator);
    let start: u64 = 0x4000_0000 + 510 * 4096;
    let range = pages(start, start + 5 * 4096);
    assert_eq!(space.frames_to_map(frames(0, 0), range, MemorySpace::User), 5 + 4);
    map_checked(&mut space, &mut allocator, range, MemorySpace::User, user_flags());
    let mut seen: Vec<u64> = Vec::new();
    for k in 0..5u64 {
        let phys = space.translate(start + k * 4096 + 7).unwrap();
        assert_eq!(phys % 4096, 7);
        assert!(!seen.contains(&phys));
        seen.push(phys);
    }
    assert_eq!(space.translate(start - 4096), None);
    assert_eq!(space.translate(start + 5 * 4096), None);
}

#[test]
fn drop_gives_tables_back_and_keeps_leaves() {
    let mut allocator = gib_allocator();
    let baseline = allocator.free_count();
    let mut space = AddressSpace::new(4, &mut allocator);
    let mut leaves = 0;
    for k in 0..10u64 {
        let start = 0x4000_0000 + k * 0x40_0000;
        let range = pages(start, start + 3 * 4096);
        map_checked(&mut space, &mut allocator, range, MemorySpace::User, user_flags());
        leaves += 3;
    }
    space.drop(&mut allocator);
    assert_eq!(allocator.free_count(), baseline - leaves);
}

#[test]
fn kernel_map_is_identity_with_offsets() {
    let mut allocator = gib_allocator();
    let mut space = AddressSpace::new(4, &mut allocator);
    let range = pages(0x20_0000, 0x20_4000);
    map_checked(&mut space, &mut allocator, range, MemorySpace::Kernel, kernel_flags());
    for k in 0..4u64 {
        for off in [0u64, 1, 0x7ff, 0xfff] {
            let addr = 0x20_0000 + k * 4096 + off;
            assert_eq!(space.translate(addr), Some(addr));
        }
    }
    assert_eq!(space.translate(0x20_4000), None);
    assert_eq!(space.translate(0x1F_FFFF), None);
}

#[test]
fn unmap_of_unmapped_range_changes_nothing() {
    let mut allocator = gib_allocator();
    let mut space = AddressSpace::new(4, &mut allocator);
    let mapped = pages(0x4000_0000, 0x4000_2000);
    map_checked(&mut space, &mut allocator, mapped, MemorySpace::User, user_flags());
    let a = space.translate(0x4000_0000);
    let b = space.translate(0x4000_1000);
    let free = allocator.free_count();
    space.unmap(&mut allocator, pages(0x4000_2000, 0x4000_8000));
    space.unmap(&mut allocator, pages(0x5000_0000, 0x5100_0000));
    space.unmap(&mut allocator, pages(0x3FE0_0000, 0x4000_0000));
    assert_eq!(allocator.free_count(), free);
    assert_eq!(space.translate(0x4000_0000), a);
    assert_eq!(space.translate(0x4000_1000), b);
}

#[test]
fn unmap_passes_over_missing_tables() {
    let mut allocator = gib_allocator();
    let mut space = AddressSpace::new(4, &mut allocator);
    let far = pages(0x4020_0000, 0x4020_2000);
    map_checked(&mut space, &mut allocator, far, MemorySpace::User, user_flags());
    let kept = space.translate(0x4020_0000);
    let free = allocator.free_count();
    space.unmap(&mut allocator, pages(0x4000_0000, 0x4000_2000));
    assert_eq!(space.translate(0x4020_0000), kept);
    assert_eq!(allocator.free_count(), free);
}

#[test]
fn unmap_keeps_pages_outside_the_range() {
    let mut allocator = gib_allocator();
    let mut space = AddressSpace::new(4, &mut allocator);
    let range = pages(0x4000_0000, 0x4000_4000);
    map_checked(&mut space, &mut allocator, range, MemorySpace::User, user_flags());
    let first = space.translate(0x4000_0000);
    let last = space.translate(0x4000_3000);
    let free = allocator.free_count();
    space.unmap(&mut allocator, pages(0x4000_1000, 0x4000_3000));
    assert_eq!(space.translate(0x4000_0000), first);
    assert_eq!(space.translate(0x4000_1000), None);
    assert_eq!(space.translate(0x4000_2000), None);
    assert_eq!(space.translate(0x4000_3000), last);
    assert_eq!(allocator.free_count(), free + 2);
}

#[test]
fn map_physical_takes_the_frames_in_order() {
    let mut allocator = gib_allocator();
    let mut space = AddressSpace::new(4, &mut allocator);
    let start: u64 = 0x4000_0000 + 509 * 4096;
    let range = pages(start, start + 6 * 4096);
    let given = frames(0x7000_0000, 0x7000_6000);
    let need = space.frames_to_map(given, range, MemorySpace::User);
    assert_eq!(need, 4);
    space.map_physical(&mut allocator, given, range, MemorySpace::User, user_flags());
    for k in 0..6u64 {
        assert_eq!(
            space.translate(start + k * 4096 + 0x10),
            Some(0x7000_0000 + k * 4096 + 0x10)
        );
    }
}

#[test]
fn map_physical_in_kernel_space_takes_the_frames() {
    let mut allocator = gib_allocator();
    let mut space = AddressSpace::new(3, &mut allocator);
    let range = pages(0x30_0000, 0x30_2000);
    let given = frames(0x7000_0000, 0x7000_2000);
    let need = space.frames_to_map(given, range, MemorySpace::Kernel);
    assert_eq!(need, 2);
    let free = allocator.free_count();
    space.map_physical(&mut allocator, given, range, MemorySpace::Kernel, kernel_flags());
    assert_eq!(space.translate(0x30_0000), Some(0x7000_0000));
    assert_eq!(space.translate(0x30_1004), Some(0x7000_1004));
    assert_eq!(space.translate(0x30_2000), None);
    assert_eq!(free - allocator.free_count(), 2);
}

#[test]
fn map_physical_in_kernel_space_crosses_a_table_boundary() {
    let mut allocator = gib_allocator();
    let mut space = AddressSpace::new(4, &mut allocator);
    let start: u64 = 0x4000_0000 + 510 * 4096;
    let range = pages(start, start + 5 * 4096);
    let given = frames(0xf_0000_0000_0000, 0xf_0000_0000_5000);
    let need = space.frames_to_map(given, range, MemorySpace::Kernel);
    assert_eq!(need, 4);
    assert!(allocator.free_count() as u64 >= need);
    let kept = space.translate(start - 4096);
    space.map_physical(&mut allocator, given, range, MemorySpace::Kernel, kernel_flags());
    for k in 0..5u64 {
        assert_eq!(
            space.translate(start + k * 4096 + 9),
            Some(0xf_0000_0000_0000 + k * 4096 + 9)
        );
    }
    assert_eq!(space.translate(start - 4096), kept);
    assert_eq!(space.translate(start + 5 * 4096), None);
}

#[test]
fn walk_stops_at_the_end_of_the_root() {
    let mut allocator = gib_allocator();
    let mut space = AddressSpace::new(1, &mut allocator);
    let range = pages(510 * 4096, 520 * 4096);
    assert_eq!(space.frames_to_map(frames(0, 0), range, MemorySpace::User), 2);
    map_checked(&mut space, &mut allocator, range, MemorySpace::User, user_flags());
    assert!(space.translate(510 * 4096).is_some());
    assert!(space.translate(511 * 4096).is_some());
    assert_eq!(space.translate(0), None);
    assert_eq!(space.translate(512 * 4096), space.translate(0));
}

#[test]
fn depth_one_ignores_high_address_bits() {
    let mut allocator = gib_allocator();
    let mut space = AddressSpace::new(1, &mut allocator);
    map_checked(
        &mut space,
        &mut allocator,
        pages(0x3000, 0x4000),
        MemorySpace::Kernel,
        kernel_flags(),
    );
    assert_eq!(space.translate(0x3010), Some(0x3010));
    assert_eq!(space.translate(0x20_3010), Some(0x3010));
}

#[test]
fn empty_flags_on_page_zero_leave_the_entry_unused() {
    let mut allocator = gib_allocator();
    let mut space = AddressSpace::new(2, &mut allocator);
    map_checked(
        &mut space,
        &mut allocator,
        pages(0, 0x2000),
        MemorySpace::Kernel,
        PageTableFlags::empty(),
    );
    assert_eq!(space.translate(0), None);
    assert_eq!(space.translate(0x1000), Some(0x1000));
}

#[test]
fn from_other_copies_every_translation() {
    let mut allocator = gib_allocator();
    let mut space = AddressSpace::new(4, &mut allocator);
    map_checked(
        &mut space,
        &mut allocator,
        pages(0x4000_0000, 0x4000_3000),
        MemorySpace::User,
        user_flags(),
    );
    map_checked(
        &mut space,
        &mut allocator,
        pages(0, 0x3000),
        MemorySpace::Kernel,
        kernel_flags(),
    );
    let free = allocator.free_count();
    let copy = AddressSpace::from_other(&space, &mut allocator);
    assert_eq!(free - allocator.free_count(), 1 + 3 + 2);
    for addr in [0u64, 0x1fff, 0x2000, 0x3000, 0x4000_0000, 0x4000_1234, 0x4000_2fff, 0x4000_3000]
    {
        assert_eq!(copy.translate(addr), space.translate(addr));
    }
    assert_eq!(copy.depth(), 4);
}

#[test]
fn map_then_unmap_restores_the_free_count() {
    let mut allocator = gib_allocator();
    let mut space = AddressSpace::new(4, &mut allocator);
    map_checked(
        &mut space,
        &mut allocator,
        pages(0x4000_0000, 0x4000_1000),
        MemorySpace::User,
        user_flags(),
    );
    let free = allocator.free_count();
    let range = pages(0x4000_5000, 0x4040_0000);
    map_checked(&mut space, &mut allocator, range, MemorySpace::User, user_flags());
    assert!(allocator.free_count() < free);
    space.unmap(&mut allocator, range);
    assert_eq!(allocator.free_count(), free);
    assert!(space.translate(0x4000_0000).is_some());
}

#[test]
fn empty_range_makes_the_tables_on_the_way() {
    let mut allocator = gib_allocator();
    let mut space = AddressSpace::new(4, &mut allocator);
    let range = pages(0x4000_0000, 0x4000_0000);
    assert_eq!(space.frames_to_map(frames(0, 0), range, MemorySpace::User), 3);
    let free = allocator.free_count();
    map_checked(&mut space, &mut allocator, range, MemorySpace::User, user_flags());
    assert_eq!(free - allocator.free_count(), 3);
    assert_eq!(space.translate(0x4000_0000), None);
}

#[test]
fn five_levels_reach_high_addresses() {
    let mut allocator = gib_allocator();
    let mut space = AddressSpace::new(5, &mut allocator);
    let start: u64 = 0x0001_2345_6789_A000;
    map_checked(
        &mut space,
        &mut allocator,
        pages(start, start + 0x2000),
        MemorySpace::Kernel,
        kernel_flags(),
    );
    assert_eq!(space.translate(start + 0x1abc), Some(start + 0x1abc));
    assert_eq!(space.translate(start + 0x2000), None);
}

#[test]
fn tables_are_counted_with_the_root() {
    let mut allocator = gib_allocator();
    let mut space = AddressSpace::new(4, &mut allocator);
    assert_eq!(space.tables(), 1);
    map_checked(
        &mut space,
        &mut allocator,
        pages(0x4000_0000, 0x4000_1000),
        MemorySpace::User,
        user_flags(),
    );
    assert_eq!(space.tables(), 4);
    map_checked(
        &mut space,
        &mut allocator,
        pages(0x4020_0000, 0x4020_1000),
        MemorySpace::User,
        user_flags(),
    );
    assert_eq!(space.tables(), 5);
    let kernel = kernel_space(&mut allocator);
    assert_eq!(kernel.tables(), 515);
}

#[test]
fn unmap_in_kernel_space_frees_the_identity_frames() {
    let mut allocator = gib_allocator();
    let mut space = AddressSpace::new(4, &mut allocator);
    let range = pages(0x20_0000, 0x20_3000);
    map_checked(&mut space, &mut allocator, range, MemorySpace::Kernel, kernel_flags());
    let free = allocator.free_count();
    space.unmap(&mut allocator, range);
    assert_eq!(allocator.free_count(), free + 3 + 3);
    assert_eq!(space.translate(0x20_1000), None);
    assert_eq!(space.tables(), 1);
}

#[test]
fn unmap_of_page_zero_gives_no_frame_back() {
    let mut allocator = gib_allocator();
    let mut space = AddressSpace::new(1, &mut allocator);
    let range = pages(0, 0x2000);
    map_checked(&mut space, &mut allocator, range, MemorySpace::Kernel, kernel_flags());
    assert_eq!(space.translate(0x10), Some(0x10));
    let free = allocator.free_count();
    space.unmap(&mut allocator, range);
    assert_eq!(allocator.free_count(), free + 1);
    assert_eq!(space.translate(0x10), None);
}

#[test]
fn copy_of_a_copy_translates_alike() {
    let mut allocator = gib_allocator();
    let kernel = kernel_space(&mut allocator);
    let first = AddressSpace::from_other(&kernel, &mut allocator);
    assert!(allocator.free_count() as u64 >= first.tables());
    let second = AddressSpace::from_other(&first, &mut allocator);
    for addr in [0u64, 0xfff, 0x1000, 0x1234_5678, 0x3fff_ffff, 0x4000_0000, 0x7fff_ffff_f000] {
        assert_eq!(second.translate(addr), kernel.translate(addr));
    }
    assert_eq!(second.tables(), kernel.tables());
}

#[test]
fn translate_adds_the_offset_to_the_frame() {
    let mut allocator = gib_allocator();
    let mut space = AddressSpace::new(4, &mut allocator);
    let given = frames(0xf_ffff_ffff_e000, 0xf_ffff_ffff_f000);
    let range = pages(0x7fff_ffff_e000, 0x7fff_ffff_f000);
    let need = space.frames_to_map(given, range, MemorySpace::User);
    assert!(allocator.free_count() as u64 >= need);
    let all = PageTableFlags::from_bits_truncate(u64::MAX);
    space.map_physical(&mut allocator, given, range, MemorySpace::User, all);
    assert_eq!(space.translate(0x7fff_ffff_e000), Some(0xf_ffff_ffff_e000));
    assert_eq!(space.translate(0x7fff_ffff_efff), Some(0xf_ffff_ffff_efff));
    assert_eq!(space.translate(0x7fff_ffff_f000), None);
}
