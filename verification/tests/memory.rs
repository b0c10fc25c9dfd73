use rust_os::memory::{
    recursive_virt_addr, BootInfoFrameAllocator, EmptyFrameAllocator, MemoryRegion,
    MemoryRegionType, PhysicalFrame, FRAME_SIZE, SIZE_USABLE_FRAMES,
};

fn region(start_addr: u64, end_addr: u64, region_type: MemoryRegionType) -> MemoryRegion {
    MemoryRegion { start_addr, end_addr, region_type }
}

fn drain(supplier: &mut BootInfoFrameAllocator) -> Vec<u64> {
    let mut addresses = Vec::new();
    while let Some(frame) = supplier.allocate_frame() {
        addresses.push(frame.start_address());
    }
    addresses
}

#[test]
fn frame_constants() {
    assert_eq!(FRAME_SIZE, 4096);
    assert_eq!(SIZE_USABLE_FRAMES, 32007);
}

#[test]
fn frame_containing_an_address() {
    assert_eq!(PhysicalFrame::containing_address(0).start_address(), 0);
    assert_eq!(PhysicalFrame::containing_address(0xb8000).start_address(), 0xb8000);
    assert_eq!(PhysicalFrame::containing_address(0xb8fff).start_address(), 0xb8000);
    assert_eq!(PhysicalFrame::containing_address(0x1234_5678).start_address(), 0x1234_5000);
    assert_eq!(PhysicalFrame::containing_address(u64::MAX).start_address(), u64::MAX - 4095);
}

#[test]
fn empty_frame_allocator_hands_out_nothing() {
    let mut supplier = EmptyFrameAllocator;
    assert_eq!(supplier.allocate_frame(), None);
    assert_eq!(supplier.allocate_frame(), None);
}

#[test]
fn supplier_of_an_empty_map_is_exhausted() {
    let mut supplier = BootInfoFrameAllocator::init(&[]);
    assert_eq!(supplier.recorded(), 0);
    assert!(!supplier.is_truncated());
    assert_eq!(supplier.allocate_frame(), None);
    assert_eq!(supplier.allocate_frame(), None);
}

#[test]
fn supplier_records_the_usable_frames_in_order() {
    let map = [
        region(0x0000, 0x1000, MemoryRegionType::Reserved),
        region(0x1000, 0x4000, MemoryRegionType::Usable),
        region(0x4000, 0x8000, MemoryRegionType::Other),
        region(0x10000, 0x12000, MemoryRegionType::Usable),
    ];
    let mut supplier = BootInfoFrameAllocator::init(&map);
    assert_eq!(supplier.recorded(), 5);
    assert!(!supplier.is_truncated());
    assert_eq!(drain(&mut supplier), vec![0x1000, 0x2000, 0x3000, 0x10000, 0x11000]);
}

#[test]
fn supplier_follows_the_order_of_the_map() {
    let map = [
        region(0x10000, 0x12000, MemoryRegionType::Usable),
        region(0x1000, 0x3000, MemoryRegionType::Usable),
    ];
    let mut supplier = BootInfoFrameAllocator::init(&map);
    assert_eq!(drain(&mut supplier), vec![0x10000, 0x11000, 0x1000, 0x2000]);
}

#[test]
fn supplier_takes_only_aligned_addresses_inside_a_region() {
    let map = [
        region(0x1800, 0x4000, MemoryRegionType::Usable),
        region(0x8000, 0x9001, MemoryRegionType::Usable),
        region(0xa001, 0xb000, MemoryRegionType::Usable),
        region(0xc000, 0xc000, MemoryRegionType::Usable),
        region(0xf000, 0xe000, MemoryRegionType::Usable),
    ];
    let mut supplier = BootInfoFrameAllocator::init(&map);
    assert_eq!(drain(&mut supplier), vec![0x2000, 0x3000, 0x8000, 0x9000]);
}

#[test]
fn supplier_stops_at_the_end_of_the_address_space() {
    let map = [
        region(u64::MAX - 0x2fff, u64::MAX, MemoryRegionType::Usable),
        region(u64::MAX - 0xffe, u64::MAX, MemoryRegionType::Usable),
    ];
    let mut supplier = BootInfoFrameAllocator::init(&map);
    assert_eq!(
        drain(&mut supplier),
        vec![u64::MAX - 0x2fff, u64::MAX - 0x1fff, u64::MAX - 0xfff]
    );
}

#[test]
fn supplier_issues_no_address_twice() {
    let map = [
        region(0x100000, 0x180000, MemoryRegionType::Usable),
        region(0x180000, 0x200000, MemoryRegionType::Reserved),
        region(0x200000, 0x240000, MemoryRegionType::Usable),
        region(0x40000, 0x80000, MemoryRegionType::Usable),
    ];
    let mut supplier = BootInfoFrameAllocator::init(&map);
    let addresses = drain(&mut supplier);
    assert_eq!(addresses.len(), 128 + 64 + 64);
    let mut sorted = addresses.clone();
    sorted.sort();
    sorted.dedup();
    assert_eq!(sorted.len(), addresses.len());
    for address in addresses {
        assert_eq!(address % FRAME_SIZE, 0);
    }
}

#[test]
fn supplier_stays_exhausted() {
    let map = [region(0x1000, 0x3000, MemoryRegionType::Usable)];
    let mut supplier = BootInfoFrameAllocator::init(&map);
    assert_eq!(supplier.allocate_frame().map(|f| f.start_address()), Some(0x1000));
    assert_eq!(supplier.allocate_frame().map(|f| f.start_address()), Some(0x2000));
    for _ in 0..10 {
        assert_eq!(supplier.allocate_frame(), None);
    }
    assert_eq!(supplier.recorded(), 2);
}

#[test]
fn supplier_records_no_more_than_its_capacity() {
    let frames = SIZE_USABLE_FRAMES as u64 + 1000;
    let map = [
        region(0x1000, 0x1000 + 7 * FRAME_SIZE, MemoryRegionType::Usable),
        region(0x100_0000, 0x100_0000 + frames * FRAME_SIZE, MemoryRegionType::Usable),
        region(0x4000_0000, 0x4000_4000, MemoryRegionType::Usable),
    ];
    let mut supplier = BootInfoFrameAllocator::init(&map);
    assert_eq!(supplier.recorded(), SIZE_USABLE_FRAMES);
    assert!(supplier.is_truncated());
    let addresses = drain(&mut supplier);
    assert_eq!(addresses.len(), SIZE_USABLE_FRAMES);
    assert_eq!(addresses[0], 0x1000);
    assert_eq!(addresses[6], 0x7000);
    assert_eq!(addresses[7], 0x100_0000);
    assert_eq!(
        addresses[SIZE_USABLE_FRAMES - 1],
        0x100_0000 + (SIZE_USABLE_FRAMES as u64 - 8) * FRAME_SIZE
    );
    assert_eq!(supplier.allocate_frame(), None);
}

#[test]
fn supplier_with_exactly_its_capacity_is_not_truncated() {
    let map = [region(0, SIZE_USABLE_FRAMES as u64 * FRAME_SIZE, MemoryRegionType::Usable)];
    let mut supplier = BootInfoFrameAllocator::init(&map);
    assert_eq!(supplier.recorded(), SIZE_USABLE_FRAMES);
    assert!(!supplier.is_truncated());
    assert_eq!(drain(&mut supplier).len(), SIZE_USABLE_FRAMES);
    let one_more = [region(0, (SIZE_USABLE_FRAMES as u64 + 1) * FRAME_SIZE, MemoryRegionType::Usable)];
    let supplier = BootInfoFrameAllocator::init(&one_more);
    assert_eq!(supplier.recorded(), SIZE_USABLE_FRAMES);
    assert!(supplier.is_truncated());
}

#[test]
fn recursive_addresses_of_the_tables() {
    assert_eq!(
        recursive_virt_addr(0x32334584),
        [0xffff_ffff_ffff_f000, 0xffff_ffff_ffe0_0000, 0xffff_ffff_c000_0000, 0xffff_ff80_0019_1000]
    );
    assert_eq!(
        recursive_virt_addr(0),
        [0xffff_ffff_ffff_f000, 0xffff_ffff_ffe0_0000, 0xffff_ffff_c000_0000, 0xffff_ff80_0000_0000]
    );
    // indexes 1, 2 and 3 in the tables of level 4, 3 and 2
    let addr = (1u64 << 39) | (2 << 30) | (3 << 21) | (4 << 12) | 5;
    assert_eq!(
        recursive_virt_addr(addr),
        [
            0xffff_ffff_ffff_f000,
            0xffff_ffff_ffe0_1000,
            0xffff_ffff_c020_2000,
            0xffff_ff80_4040_3000,
        ]
    );
    assert_eq!(
        recursive_virt_addr(u64::MAX),
        [0xffff_ffff_ffff_f000; 4]
    );
}
