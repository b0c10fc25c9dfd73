use rust_os::allocator::fixed_block::FixedBlockAllocator;
use rust_os::allocator::heap_mapper::{
    HeapInitAction, HeapInitEvent, HeapMapper, MapToError, PageTableFlags, PAGE_SIZE,
};
use rust_os::allocator::layout::Layout;
use rust_os::allocator::{HEAP_SIZE, HEAP_START};
use rust_os::memory::{BootInfoFrameAllocator, MemoryRegion, MemoryRegionType, PhysicalFrame};

const FLAGS: PageTableFlags = PageTableFlags { present: true, writable: true };

fn frame(address: u64) -> PhysicalFrame {
    PhysicalFrame::containing_address(address)
}

/// Drives the mapper with frames from `frames`, fails the mapping of the page at
/// `bad_page`, and returns the pages mapped and how it ended.
fn drive(
    mapper: &mut HeapMapper,
    frames: &mut BootInfoFrameAllocator,
    bad_page: Option<u64>,
) -> (Vec<(u64, u64)>, Result<(usize, usize), MapToError>) {
    let mut mapped = Vec::new();
    let mut event = HeapInitEvent::Start;
    loop {
        match mapper.step(event) {
            HeapInitAction::AllocateFrame => {
                event = HeapInitEvent::FrameAllocated(frames.allocate_frame());
            }
            HeapInitAction::MapPage { page, frame, flags } => {
                assert_eq!(flags, FLAGS);
                if Some(page) == bad_page {
                    event = HeapInitEvent::PageMapped(Err(MapToError::PageAlreadyMapped(frame)));
                } else {
                    mapped.push((page, frame.start_address()));
                    event = HeapInitEvent::PageMapped(Ok(()));
                }
            }
            HeapInitAction::Finish(result) => return (mapped, result),
        }
    }
}

fn supplier(frames: u64) -> BootInfoFrameAllocator {
    BootInfoFrameAllocator::init(&[MemoryRegion {
        start_addr: 0x10_0000,
        end_addr: 0x10_0000 + frames * 4096,
        region_type: MemoryRegionType::Usable,
    }])
}

#[test]
fn page_is_as_large_as_a_frame() {
    assert_eq!(PAGE_SIZE, 4096);
}

#[test]
fn mapper_maps_every_page_of_the_heap_in_order() {
    let mut mapper = HeapMapper::new(HEAP_START as usize, HEAP_SIZE);
    let mut frames = supplier(100);
    let (mapped, result) = drive(&mut mapper, &mut frames, None);
    assert_eq!(result, Ok((HEAP_START as usize, HEAP_SIZE)));
    assert_eq!(mapped.len(), 25);
    for (i, (page, frame)) in mapped.iter().enumerate() {
        assert_eq!(*page, HEAP_START + i as u64 * 4096);
        assert_eq!(*frame, 0x10_0000 + i as u64 * 4096);
    }
    // the strategy is set up on the heap that the mapper names
    let (heap_start, heap_size) = result.unwrap();
    let mut allocator = FixedBlockAllocator::new();
    allocator.init(heap_start, heap_size);
    let block = allocator.allocate(Layout::from_size_align(64, 8).unwrap()).unwrap();
    assert_eq!(block, HEAP_START as usize);
}

#[test]
fn mapper_covers_a_heap_that_is_not_aligned_to_pages() {
    let mut mapper = HeapMapper::new(0x5ff8, 0x1010);
    let mut frames = supplier(10);
    let (mapped, result) = drive(&mut mapper, &mut frames, None);
    assert_eq!(result, Ok((0x5ff8, 0x1010)));
    let pages: Vec<u64> = mapped.iter().map(|(page, _)| *page).collect();
    assert_eq!(pages, vec![0x5000, 0x6000, 0x7000]);
}

#[test]
fn mapper_maps_one_page_for_one_byte() {
    let mut mapper = HeapMapper::new(0x5fff, 1);
    let mut frames = supplier(10);
    let (mapped, result) = drive(&mut mapper, &mut frames, None);
    assert_eq!(result, Ok((0x5fff, 1)));
    assert_eq!(mapped, vec![(0x5000, 0x10_0000)]);
    let mut mapper = HeapMapper::new(0x6000, 4096);
    let (mapped, _) = drive(&mut mapper, &mut frames, None);
    assert_eq!(mapped, vec![(0x6000, 0x10_1000)]);
}

#[test]
fn mapper_of_an_empty_heap_is_ready_at_once() {
    let mut mapper = HeapMapper::new(0x5000, 0);
    assert_eq!(mapper.step(HeapInitEvent::Start), HeapInitAction::Finish(Ok((0x5000, 0))));
}

#[test]
fn mapper_fails_when_the_frames_run_out() {
    let mut mapper = HeapMapper::new(HEAP_START as usize, HEAP_SIZE);
    let mut frames = supplier(3);
    let (mapped, result) = drive(&mut mapper, &mut frames, None);
    assert_eq!(result, Err(MapToError::FrameAllocationFailed));
    assert_eq!(mapped.len(), 3);
    // and stays failed
    assert_eq!(
        mapper.step(HeapInitEvent::FrameAllocated(Some(frame(0x5000)))),
        HeapInitAction::Finish(Err(MapToError::FrameAllocationFailed))
    );
    assert_eq!(
        mapper.step(HeapInitEvent::Start),
        HeapInitAction::Finish(Err(MapToError::FrameAllocationFailed))
    );
}

#[test]
fn mapper_fails_when_a_page_cannot_be_mapped() {
    let mut mapper = HeapMapper::new(HEAP_START as usize, HEAP_SIZE);
    let mut frames = supplier(100);
    let (mapped, result) = drive(&mut mapper, &mut frames, Some(HEAP_START + 2 * 4096));
    assert_eq!(result, Err(MapToError::PageAlreadyMapped(frame(0x10_2000))));
    assert_eq!(mapped.len(), 2);
    assert_eq!(
        mapper.step(HeapInitEvent::PageMapped(Ok(()))),
        HeapInitAction::Finish(Err(MapToError::PageAlreadyMapped(frame(0x10_2000))))
    );
}

#[test]
fn mapper_passes_every_mapping_error_on() {
    for error in [
        MapToError::FrameAllocationFailed,
        MapToError::ParentEntryHugePage,
        MapToError::PageAlreadyMapped(frame(0x7000)),
    ] {
        let mut mapper = HeapMapper::new(0x4000, 0x2000);
        assert_eq!(mapper.step(HeapInitEvent::Start), HeapInitAction::AllocateFrame);
        assert_eq!(
            mapper.step(HeapInitEvent::FrameAllocated(Some(frame(0x9000)))),
            HeapInitAction::MapPage { page: 0x4000, frame: frame(0x9000), flags: FLAGS }
        );
        assert_eq!(
            mapper.step(HeapInitEvent::PageMapped(Err(error))),
            HeapInitAction::Finish(Err(error))
        );
    }
}

#[test]
fn mapper_asks_again_when_it_is_told_something_else() {
    let mut mapper = HeapMapper::new(0x4000, 0x2000);
    assert_eq!(mapper.step(HeapInitEvent::Start), HeapInitAction::AllocateFrame);
    assert_eq!(mapper.step(HeapInitEvent::Start), HeapInitAction::AllocateFrame);
    assert_eq!(mapper.step(HeapInitEvent::PageMapped(Ok(()))), HeapInitAction::AllocateFrame);
    let first = HeapInitAction::MapPage { page: 0x4000, frame: frame(0x9000), flags: FLAGS };
    assert_eq!(mapper.step(HeapInitEvent::FrameAllocated(Some(frame(0x9000)))), first);
    assert_eq!(mapper.step(HeapInitEvent::Start), first);
    assert_eq!(mapper.step(HeapInitEvent::FrameAllocated(Some(frame(0xa000)))), first);
    assert_eq!(mapper.step(HeapInitEvent::FrameAllocated(None)), first);
    assert_eq!(mapper.step(HeapInitEvent::PageMapped(Ok(()))), HeapInitAction::AllocateFrame);
    assert_eq!(
        mapper.step(HeapInitEvent::FrameAllocated(Some(frame(0xb000)))),
        HeapInitAction::MapPage { page: 0x5000, frame: frame(0xb000), flags: FLAGS }
    );
    assert_eq!(
        mapper.step(HeapInitEvent::PageMapped(Ok(()))),
        HeapInitAction::Finish(Ok((0x4000, 0x2000)))
    );
    assert_eq!(
        mapper.step(HeapInitEvent::FrameAllocated(None)),
        HeapInitAction::Finish(Ok((0x4000, 0x2000)))
    );
}

#[test]
fn mapper_handles_the_last_page_of_the_address_space() {
    let start = usize::MAX - 0x1fff;
    let mut mapper = HeapMapper::new(start, 0x1fff);
    let mut frames = supplier(10);
    let (mapped, result) = drive(&mut mapper, &mut frames, None);
    assert_eq!(result, Ok((start, 0x1fff)));
    let pages: Vec<u64> = mapped.iter().map(|(page, _)| *page).collect();
    assert_eq!(pages, vec![start as u64, start as u64 + 0x1000]);
}
