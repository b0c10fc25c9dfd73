use rust_os::allocator::layout::Layout;
use rust_os::allocator::linked_list::{LinkedListAllocator, ListNode, NODE_ALIGN, NODE_SIZE};

fn layout(size: usize, align: usize) -> Layout {
    Layout::from_size_align(size, align).unwrap()
}

fn heap(start: usize, size: usize) -> LinkedListAllocator {
    let mut allocator = LinkedListAllocator::new();
    allocator.init(start, size);
    allocator
}

#[test]
fn list_node_addresses() {
    let node = ListNode::new(0x1000, 64);
    assert_eq!(node.start_addr(), 0x1000);
    assert_eq!(node.end_addr(), 0x1040);
    assert_eq!(node, ListNode { start: 0x1000, size: 64 });
}

#[test]
fn node_constants() {
    assert_eq!(NODE_SIZE, 16);
    assert_eq!(NODE_ALIGN, 8);
}

#[test]
fn size_align_adjusts_to_the_node() {
    assert_eq!(LinkedListAllocator::size_align(layout(1, 1)), (16, 8));
    assert_eq!(LinkedListAllocator::size_align(layout(0, 1)), (16, 8));
    assert_eq!(LinkedListAllocator::size_align(layout(12, 4)), (16, 8));
    assert_eq!(LinkedListAllocator::size_align(layout(17, 1)), (24, 8));
    assert_eq!(LinkedListAllocator::size_align(layout(40, 8)), (40, 8));
    assert_eq!(LinkedListAllocator::size_align(layout(8, 32)), (32, 32));
    assert_eq!(LinkedListAllocator::size_align(layout(33, 32)), (64, 32));
    assert_eq!(LinkedListAllocator::size_align(layout(4096, 4096)), (4096, 4096));
}

#[test]
fn size_align_of_the_largest_layouts() {
    let max = isize::MAX as usize;
    assert_eq!(LinkedListAllocator::size_align(layout(max, 1)), (max + 1, 8));
    assert_eq!(LinkedListAllocator::size_align(layout(max - 7, 8)), (max - 7, 8));
}

#[test]
fn free_list_without_heap_fails() {
    let mut allocator = LinkedListAllocator::new();
    assert!(allocator.free_regions().is_empty());
    assert_eq!(allocator.allocate(layout(1, 1)), None);
}

#[test]
fn init_makes_one_free_region() {
    let allocator = heap(0x1000, 4096);
    assert_eq!(allocator.free_regions(), &vec![ListNode { start: 0x1000, size: 4096 }]);
}

#[test]
fn allocation_splits_the_region() {
    let mut allocator = heap(0x1000, 4096);
    assert_eq!(allocator.allocate(layout(40, 8)), Some(0x1000));
    assert_eq!(allocator.free_regions(), &vec![ListNode { start: 0x1028, size: 4096 - 40 }]);
    assert_eq!(allocator.allocate(layout(1, 1)), Some(0x1028));
    assert_eq!(allocator.free_regions(), &vec![ListNode { start: 0x1038, size: 4096 - 56 }]);
}

#[test]
fn remainder_rule_on_a_region_of_64_bytes() {
    let mut allocator = heap(0x1000, 64);
    assert_eq!(allocator.allocate(layout(40, 8)), Some(0x1000));
    assert_eq!(allocator.free_regions(), &vec![ListNode { start: 0x1028, size: 24 }]);
    // 16 bytes would leave 8 behind, too few for a region of their own
    assert_eq!(allocator.allocate(layout(16, 8)), None);
    assert_eq!(allocator.free_regions(), &vec![ListNode { start: 0x1028, size: 24 }]);
    // 24 bytes leave nothing behind
    assert_eq!(allocator.allocate(layout(24, 8)), Some(0x1028));
    assert!(allocator.free_regions().is_empty());
}

#[test]
fn exact_fit_leaves_no_region() {
    let mut allocator = heap(0x1000, 64);
    assert_eq!(allocator.allocate(layout(64, 8)), Some(0x1000));
    assert!(allocator.free_regions().is_empty());
    assert_eq!(allocator.allocate(layout(1, 1)), None);
}

#[test]
fn oversized_request_fails_and_leaves_the_chain() {
    let mut allocator = heap(0x1000, 256);
    let a = allocator.allocate(layout(64, 8)).unwrap();
    let _b = allocator.allocate(layout(64, 8)).unwrap();
    allocator.deallocate(a, layout(64, 8));
    let before = allocator.free_regions().clone();
    assert_eq!(before, vec![ListNode { start: 0x1000, size: 64 }, ListNode { start: 0x1080, size: 128 }]);
    assert_eq!(allocator.allocate(layout(129, 1)), None);
    assert_eq!(allocator.allocate(layout(4096, 8)), None);
    assert_eq!(allocator.allocate(layout(isize::MAX as usize, 1)), None);
    assert_eq!(allocator.free_regions(), &before);
}

#[test]
fn first_fit_takes_the_first_region_that_hosts() {
    let mut allocator = heap(0x1000, 1024);
    let a = allocator.allocate(layout(32, 8)).unwrap();
    let b = allocator.allocate(layout(128, 8)).unwrap();
    let c = allocator.allocate(layout(64, 8)).unwrap();
    let _d = allocator.allocate(layout(800, 8)).unwrap();
    assert!(allocator.free_regions().is_empty());
    allocator.deallocate(b, layout(128, 8));
    allocator.deallocate(a, layout(32, 8));
    allocator.deallocate(c, layout(64, 8));
    // chain: c (64), a (32), b (128)
    assert_eq!(
        allocator.free_regions(),
        &vec![
            ListNode { start: c, size: 64 },
            ListNode { start: a, size: 32 },
            ListNode { start: b, size: 128 },
        ]
    );
    // 48 bytes: c hosts them (16 are left), though b would fit better
    assert_eq!(allocator.allocate(layout(48, 8)), Some(c));
    assert_eq!(
        allocator.free_regions(),
        &vec![
            ListNode { start: c + 48, size: 16 },
            ListNode { start: a, size: 32 },
            ListNode { start: b, size: 128 },
        ]
    );
    // 100 bytes: only b hosts them
    assert_eq!(allocator.allocate(layout(100, 4)), Some(b));
    assert_eq!(
        allocator.free_regions(),
        &vec![
            ListNode { start: b + 104, size: 24 },
            ListNode { start: c + 48, size: 16 },
            ListNode { start: a, size: 32 },
        ]
    );
}

#[test]
fn region_with_unusable_rest_is_passed_over() {
    let mut allocator = heap(0x1000, 128);
    let a = allocator.allocate(layout(40, 8)).unwrap();
    let _rest = allocator.allocate(layout(88, 8)).unwrap();
    allocator.deallocate(a, layout(40, 8));
    // 32 bytes would leave 8 of the 40
    assert_eq!(allocator.allocate(layout(32, 8)), None);
    assert_eq!(allocator.allocate(layout(24, 8)), Some(a));
    assert_eq!(allocator.free_regions(), &vec![ListNode { start: a + 24, size: 16 }]);
}

#[test]
fn freed_neighbours_are_not_merged() {
    let mut allocator = heap(0x1000, 128);
    let a = allocator.allocate(layout(64, 8)).unwrap();
    let b = allocator.allocate(layout(64, 8)).unwrap();
    assert_eq!(b, a + 64);
    allocator.deallocate(a, layout(64, 8));
    allocator.deallocate(b, layout(64, 8));
    assert_eq!(
        allocator.free_regions(),
        &vec![ListNode { start: b, size: 64 }, ListNode { start: a, size: 64 }]
    );
    assert_eq!(allocator.allocate(layout(128, 8)), None);
    assert_eq!(allocator.allocate(layout(64, 8)), Some(b));
}

#[test]
fn alignment_skips_the_front_of_a_region() {
    let mut allocator = heap(0x1008, 256);
    let addr = allocator.allocate(layout(32, 64)).unwrap();
    assert_eq!(addr, 0x1040);
    assert_eq!(addr % 64, 0);
    assert_eq!(allocator.free_regions(), &vec![ListNode { start: 0x1080, size: 0x1108 - 0x1080 }]);
}

#[test]
fn alignment_that_overflows_is_no_fit() {
    let start = usize::MAX - 255;
    let mut allocator = heap(start, 255);
    assert_eq!(allocator.allocate(layout(8, 512)), None);
    assert_eq!(allocator.allocate(layout(248, 8)), None);
    assert_eq!(allocator.allocate(layout(16, 8)), Some(start));
}

#[test]
fn free_list_blocks_are_aligned_and_apart() {
    let mut allocator = heap(0x10_0000, 8192);
    let requests = [(1usize, 1usize), (24, 8), (100, 16), (7, 4), (64, 64), (300, 32), (16, 128)];
    let mut blocks: Vec<(usize, usize)> = Vec::new();
    for (size, align) in requests {
        let addr = allocator.allocate(layout(size, align)).unwrap();
        assert_eq!(addr % align, 0);
        assert!(addr >= 0x10_0000 && addr + size <= 0x10_0000 + 8192);
        for (other, other_size) in &blocks {
            assert!(other + other_size <= addr || addr + size <= *other);
        }
        blocks.push((addr, size));
    }
    // give two back and ask again: what comes is apart from what is still out
    allocator.deallocate(blocks[1].0, layout(24, 8));
    allocator.deallocate(blocks[4].0, layout(64, 64));
    let kept = [blocks[0], blocks[2], blocks[3], blocks[5], blocks[6]];
    for (size, align) in [(24usize, 8usize), (40, 8), (8, 8)] {
        let addr = allocator.allocate(layout(size, align)).unwrap();
        for (other, other_size) in kept {
            assert!(other + other_size <= addr || addr + size <= other);
        }
    }
}

#[test]
fn deallocation_gives_back_the_adjusted_size() {
    let mut allocator = heap(0x1000, 64);
    let addr = allocator.allocate(layout(3, 1)).unwrap();
    assert_eq!(allocator.free_regions(), &vec![ListNode { start: 0x1010, size: 48 }]);
    allocator.deallocate(addr, layout(3, 1));
    assert_eq!(
        allocator.free_regions(),
        &vec![ListNode { start: 0x1000, size: 16 }, ListNode { start: 0x1010, size: 48 }]
    );
}
