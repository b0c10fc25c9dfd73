use rust_os::allocator::bump::BumpAllocator;
use rust_os::allocator::fixed_block::FixedBlockAllocator;
use rust_os::allocator::layout::Layout;
use rust_os::allocator::linked_list::LinkedListAllocator;
use rust_os::allocator::AllocationStrategy;

const HEAP: usize = 0x40_0000;
const SIZE: usize = 64 * 1024;

/// Asks `strategy` for blocks of many layouts, gives some of them back in between, and
/// checks every block that comes against all that are out.
fn churn<S: AllocationStrategy>(strategy: &mut S) -> usize {
    strategy.init(HEAP, SIZE);
    let mut out: Vec<(usize, Layout)> = Vec::new();
    let mut served = 0;
    for round in 0..400usize {
        let size = 1 + (round * 37) % 300;
        let align = 1usize << (round % 8);
        let layout = Layout::from_size_align(size, align).unwrap();
        if let Some(addr) = strategy.allocate(layout) {
            served += 1;
            assert_eq!(addr % align, 0);
            assert!(HEAP <= addr && addr + size <= HEAP + SIZE);
            for (other, other_layout) in &out {
                assert!(other + other_layout.size() <= addr || addr + size <= *other);
            }
            out.push((addr, layout));
        }
        if round % 3 == 2 && !out.is_empty() {
            let (addr, layout) = out.remove((round * 7) % out.len());
            strategy.deallocate(addr, layout);
        }
    }
    while let Some((addr, layout)) = out.pop() {
        strategy.deallocate(addr, layout);
    }
    served
}

#[test]
fn bump_strategy_keeps_its_blocks_apart() {
    let served = churn(&mut BumpAllocator::new());
    assert!(served > 100);
}

#[test]
fn free_list_strategy_keeps_its_blocks_apart() {
    let served = churn(&mut LinkedListAllocator::new());
    assert!(served > 100);
}

#[test]
fn fixed_block_strategy_keeps_its_blocks_apart() {
    let served = churn(&mut FixedBlockAllocator::new());
    assert!(served > 100);
}

#[test]
fn every_strategy_fails_when_the_heap_is_used_up() {
    fn fill<S: AllocationStrategy>(strategy: &mut S) {
        strategy.init(HEAP, 256);
        let layout = Layout::from_size_align(64, 64).unwrap();
        for i in 0..4 {
            assert_eq!(strategy.allocate(layout), Some(HEAP + i * 64));
        }
        assert_eq!(strategy.allocate(layout), None);
        assert_eq!(strategy.allocate(Layout::from_size_align(1, 1).unwrap()), None);
    }
    fill(&mut BumpAllocator::new());
    fill(&mut LinkedListAllocator::new());
    fill(&mut FixedBlockAllocator::new());
}
