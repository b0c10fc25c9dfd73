use rust_os::allocator::fixed_block::{list_index, FixedBlockAllocator, BLOCK_SIZES, LINK_SIZE};
use rust_os::allocator::layout::Layout;
use rust_os::allocator::linked_list::ListNode;
use rust_os::allocator::{HEAP_SIZE, HEAP_START};

fn layout(size: usize, align: usize) -> Layout {
    Layout::from_size_align(size, align).unwrap()
}

fn heap(start: usize, size: usize) -> FixedBlockAllocator {
    let mut allocator = FixedBlockAllocator::new();
    allocator.init(start, size);
    allocator
}

#[test]
fn block_sizes_ascend_and_hold_a_link() {
    assert_eq!(BLOCK_SIZES, [8, 16, 32, 64, 128, 256, 512, 1024, 2048, 4096]);
    assert_eq!(LINK_SIZE, 8);
    for size in BLOCK_SIZES {
        assert!(size.is_power_of_two());
        assert!(size >= LINK_SIZE);
    }
}

#[test]
fn list_index_picks_the_smallest_class_that_holds() {
    assert_eq!(list_index(&layout(1, 1)), Some(0));
    assert_eq!(list_index(&layout(8, 8)), Some(0));
    assert_eq!(list_index(&layout(9, 1)), Some(1));
    assert_eq!(list_index(&layout(16, 4)), Some(1));
    assert_eq!(list_index(&layout(17, 4)), Some(2));
    assert_eq!(list_index(&layout(100, 8)), Some(4));
    assert_eq!(list_index(&layout(4096, 8)), Some(9));
    assert_eq!(list_index(&layout(0, 1)), Some(0));
}

#[test]
fn list_index_of_twelve_bytes_is_the_class_of_sixteen() {
    let index = list_index(&layout(12, 4)).unwrap();
    assert_eq!(index, 1);
    assert_eq!(BLOCK_SIZES[index], 16);
}

#[test]
fn list_index_goes_by_the_alignment_too() {
    assert_eq!(list_index(&layout(1, 64)), Some(3));
    assert_eq!(list_index(&layout(8, 4096)), Some(9));
    assert_eq!(list_index(&layout(100, 512)), Some(6));
}

#[test]
fn list_index_has_no_class_for_more_than_the_largest_block() {
    assert_eq!(list_index(&layout(4097, 1)), None);
    assert_eq!(list_index(&layout(1, 8192)), None);
    assert_eq!(list_index(&layout(100_000, 8)), None);
}

#[test]
fn fixed_block_without_heap_fails() {
    let mut allocator = FixedBlockAllocator::new();
    assert_eq!(allocator.allocate(layout(8, 8)), None);
    assert_eq!(allocator.allocate(layout(8192, 8)), None);
    for index in 0..BLOCK_SIZES.len() {
        assert!(allocator.chain(index).is_empty());
    }
}

#[test]
fn init_gives_the_heap_to_the_fallback() {
    let allocator = heap(0x10000, 4096);
    assert_eq!(allocator.fallback().free_regions(), &vec![ListNode { start: 0x10000, size: 4096 }]);
    for index in 0..BLOCK_SIZES.len() {
        assert!(allocator.chain(index).is_empty());
    }
}

#[test]
fn request_of_twelve_bytes_gets_a_block_of_sixteen() {
    let mut allocator = heap(0x10000, 4096);
    let addr = allocator.allocate(layout(12, 4)).unwrap();
    assert_eq!(addr, 0x10000);
    assert_eq!(addr % 16, 0);
    assert_eq!(
        allocator.fallback().free_regions(),
        &vec![ListNode { start: 0x10010, size: 4096 - 16 }]
    );
    allocator.deallocate(addr, layout(12, 4));
    assert_eq!(allocator.chain(1), &vec![0x10000]);
    assert!(allocator.chain(0).is_empty());
    assert!(allocator.chain(2).is_empty());
}

#[test]
fn empty_class_asks_the_fallback_for_an_aligned_block() {
    let mut allocator = heap(0x10008, 8192);
    let addr = allocator.allocate(layout(100, 4)).unwrap();
    assert_eq!(addr % 128, 0);
    assert_eq!(addr, 0x10080);
    assert_eq!(
        allocator.fallback().free_regions(),
        &vec![ListNode { start: 0x10100, size: 0x10008 + 8192 - 0x10100 }]
    );
}

#[test]
fn oversized_request_goes_to_the_fallback_as_it_is() {
    let mut allocator = heap(0x10000, 16384);
    let addr = allocator.allocate(layout(5000, 8)).unwrap();
    assert_eq!(addr, 0x10000);
    assert_eq!(
        allocator.fallback().free_regions(),
        &vec![ListNode { start: 0x10000 + 5000, size: 16384 - 5000 }]
    );
    allocator.deallocate(addr, layout(5000, 8));
    assert_eq!(
        allocator.fallback().free_regions(),
        &vec![
            ListNode { start: 0x10000, size: 5000 },
            ListNode { start: 0x10000 + 5000, size: 16384 - 5000 },
        ]
    );
    for index in 0..BLOCK_SIZES.len() {
        assert!(allocator.chain(index).is_empty());
    }
}

#[test]
fn freed_block_is_the_head_of_its_chain() {
    let mut allocator = heap(0x10000, 4096);
    let a = allocator.allocate(layout(32, 8)).unwrap();
    let b = allocator.allocate(layout(32, 8)).unwrap();
    let c = allocator.allocate(layout(20, 4)).unwrap();
    allocator.deallocate(a, layout(32, 8));
    allocator.deallocate(c, layout(20, 4));
    allocator.deallocate(b, layout(32, 8));
    assert_eq!(allocator.chain(2), &vec![b, c, a]);
    assert_eq!(allocator.allocate(layout(17, 1)), Some(b));
    assert_eq!(allocator.allocate(layout(32, 32)), Some(c));
    assert_eq!(allocator.chain(2), &vec![a]);
}

#[test]
fn steady_state_reuses_the_block_without_the_fallback() {
    let mut allocator = heap(HEAP_START as usize, HEAP_SIZE);
    let request = layout(8, 8);
    let first = allocator.allocate(request).unwrap();
    let after_first = allocator.fallback().free_regions().clone();
    allocator.deallocate(first, request);
    for _ in 1..1000 {
        let block = allocator.allocate(request).unwrap();
        assert_eq!(block, first);
        assert!(allocator.chain(0).is_empty());
        assert_eq!(allocator.fallback().free_regions(), &after_first);
        allocator.deallocate(block, request);
        assert_eq!(allocator.chain(0), &vec![first]);
        assert_eq!(allocator.fallback().free_regions(), &after_first);
    }
}

#[test]
fn exhausted_fallback_fails_and_changes_nothing() {
    let mut allocator = heap(0x10000, 64);
    let a = allocator.allocate(layout(64, 64)).unwrap();
    assert_eq!(a, 0x10000);
    assert_eq!(allocator.allocate(layout(8, 8)), None);
    assert_eq!(allocator.allocate(layout(5000, 8)), None);
    assert!(allocator.fallback().free_regions().is_empty());
    allocator.deallocate(a, layout(64, 64));
    // the block is in the chain of its class, not in the fallback
    assert_eq!(allocator.allocate(layout(8, 8)), None);
    assert_eq!(allocator.allocate(layout(33, 1)), Some(a));
}

#[test]
fn fixed_block_blocks_are_aligned_and_apart() {
    let mut allocator = heap(0x20_0000, 65536);
    let requests = [
        (1usize, 1usize),
        (12, 4),
        (8, 8),
        (100, 16),
        (4096, 8),
        (5000, 64),
        (3, 256),
        (64, 64),
        (9000, 8),
        (2048, 2048),
    ];
    let mut blocks: Vec<(usize, usize)> = Vec::new();
    for (size, align) in requests {
        let addr = allocator.allocate(layout(size, align)).unwrap();
        assert_eq!(addr % align, 0);
        assert!(addr >= 0x20_0000 && addr + size <= 0x20_0000 + 65536);
        for (other, other_size) in &blocks {
            assert!(other + other_size <= addr || addr + size <= *other);
        }
        blocks.push((addr, size));
    }
    allocator.deallocate(blocks[3].0, layout(100, 16));
    allocator.deallocate(blocks[5].0, layout(5000, 64));
    let kept: Vec<(usize, usize)> =
        blocks.iter().enumerate().filter(|(i, _)| *i != 3 && *i != 5).map(|(_, b)| *b).collect();
    for (size, align) in [(128usize, 8usize), (4500, 8), (65, 1)] {
        let addr = allocator.allocate(layout(size, align)).unwrap();
        assert_eq!(addr % align, 0);
        for (other, other_size) in &kept {
            assert!(other + other_size <= addr || addr + size <= *other);
        }
    }
}
