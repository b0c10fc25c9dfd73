//! Heap configuration and the address arithmetic shared by the allocation strategies.

use vstd::arithmetic::div_mod::{
    lemma_fundamental_div_mod, lemma_mod_decreases, lemma_mod_multiples_basic, lemma_mod_self_0,
};
use vstd::arithmetic::mul::lemma_mul_is_distributive_add;
use crate::allocator::layout::Layout;
use vstd::arithmetic::power2::is_pow2;
use vstd::prelude::*;

pub mod bump;
pub mod fixed_block;
pub mod heap_mapper;
pub mod layout;
pub mod linked_list;

verus! {

/// Virtual address at which the kernel heap starts.
pub const HEAP_START: u64 = 0x_4444_4444_0000;

/// Size of the kernel heap in bytes (100 KiB).
pub const HEAP_SIZE: usize = 100 * 1024;

/// What every allocation strategy offers: blocks of a heap, handed out on request and
/// taken back, of which no two overlap while both are out.
pub trait AllocationStrategy {
    /// The invariant of the strategy.
    spec fn consistent(&self) -> bool;

    /// Whether no heap is set up yet.
    spec fn is_fresh(&self) -> bool;

    /// Whether the strategy can work on the heap `[heap_start, heap_start + heap_size)`.
    spec fn takes_heap(heap_start: usize, heap_size: usize) -> bool;

    /// The first address of the heap.
    spec fn heap_start(&self) -> int;

    /// The address behind the last byte of the heap.
    spec fn heap_end(&self) -> int;

    /// Whether the block of `layout` at `addr` is handed out and not yet returned.
    spec fn is_allocated(&self, addr: int, layout: Layout) -> bool;

    /// Sets up the heap `[heap_start, heap_start + heap_size)`. No block is handed out
    /// then.
    fn init(&mut self, heap_start: usize, heap_size: usize)
        requires
            old(self).is_fresh(),
            Self::takes_heap(heap_start, heap_size),
        ensures
            final(self).consistent(),
            final(self).heap_start() == heap_start,
            final(self).heap_end() == heap_start + heap_size,
            forall|addr: int, layout: Layout| !final(self).is_allocated(addr, layout),
    ;

    /// Hands out a block of `layout`, or fails. The block lies in the heap, at a
    /// multiple of the alignment. Every block that was handed out before still is.
    fn allocate(&mut self, layout: Layout) -> (result: Option<usize>)
        requires
            old(self).consistent(),
        ensures
            final(self).consistent(),
            final(self).heap_start() == old(self).heap_start(),
            final(self).heap_end() == old(self).heap_end(),
            result matches Some(addr) ==> {
                &&& addr as int % (layout.align() as int) == 0
                &&& final(self).heap_start() <= addr
                &&& addr + layout.size() <= final(self).heap_end()
                &&& final(self).is_allocated(addr as int, layout)
            },
            forall|addr: int, other: Layout|
                old(self).is_allocated(addr, other) ==> final(self).is_allocated(addr, other),
    ;

    /// Takes back the block that `allocate` handed out at `ptr` for `layout`. Every
    /// other block that was handed out still is, and no further one.
    fn deallocate(&mut self, ptr: usize, layout: Layout)
        requires
            old(self).consistent(),
            old(self).is_allocated(ptr as int, layout),
        ensures
            final(self).consistent(),
            final(self).heap_start() == old(self).heap_start(),
            final(self).heap_end() == old(self).heap_end(),
            forall|addr: int, other: Layout|
                final(self).is_allocated(addr, other) ==> old(self).is_allocated(addr, other),
            forall|addr: int, other: Layout|
                old(self).is_allocated(addr, other) && (addr != ptr || other != layout)
                    ==> final(self).is_allocated(addr, other),
    ;

    /// No two blocks that are handed out overlap, and each lies in the heap at a
    /// multiple of its alignment.
    proof fn lemma_blocks_apart(&self, a: int, a_layout: Layout, b: int, b_layout: Layout)
        requires
            self.consistent(),
            self.is_allocated(a, a_layout),
            self.is_allocated(b, b_layout),
            a != b || a_layout != b_layout,
        ensures
            ranges_disjoint(a, a_layout.size() as int, b, b_layout.size() as int),
            a % (a_layout.align() as int) == 0,
            self.heap_start() <= a,
            a + a_layout.size() <= self.heap_end(),
    ;
}

/// A strategy that has no memory to hand out. It hands out no block, so none can be
/// given back to it.
pub struct DummyAllocator;

impl DummyAllocator {
    /// Fails.
    pub fn allocate(&self, _layout: Layout) -> (result: Option<usize>)
        ensures
            result is None,
    {
        None
    }
}

/// `addr` rounded up to a multiple of `align`.
pub open spec fn round_up(addr: int, align: int) -> int
    recommends
        align > 0,
{
    if addr % align == 0 {
        addr
    } else {
        addr - addr % align + align
    }
}

/// `round_up(addr, align)` is a multiple of `align`, not below `addr` and less than
/// `align` above it.
pub proof fn lemma_round_up(addr: int, align: int)
    requires
        align > 0,
    ensures
        round_up(addr, align) % align == 0,
        addr <= round_up(addr, align) < addr + align,
{
    let q = addr / align;
    lemma_fundamental_div_mod(addr, align);
    lemma_mul_is_distributive_add(align, q, 1);
    lemma_mod_multiples_basic(q + 1, align);
}

/// No multiple of `align` lies between `addr` and `round_up(addr, align)`.
pub proof fn lemma_round_up_least(addr: int, align: int, m: int)
    requires
        align > 0,
        m % align == 0,
        addr <= m,
    ensures
        round_up(addr, align) <= m,
{
    if addr % align != 0 {
        let q = addr / align;
        let k = m / align;
        lemma_fundamental_div_mod(addr, align);
        lemma_fundamental_div_mod(m, align);
        lemma_mul_is_distributive_add(align, q, 1);
        if k <= q {
            assert(align * k <= align * q) by (nonlinear_arith)
                requires
                    k <= q,
                    align > 0,
            ;
        } else {
            assert(align * k >= align * (q + 1)) by (nonlinear_arith)
                requires
                    k >= q + 1,
                    align > 0,
            ;
        }
    }
}

/// An address that is a multiple of `big` is a multiple of every divisor `small` of `big`.
pub proof fn lemma_aligned_to_divisor(addr: int, big: int, small: int)
    requires
        small > 0,
        big > 0,
        big % small == 0,
        addr % big == 0,
    ensures
        addr % small == 0,
{
    lemma_fundamental_div_mod(addr, big);
    lemma_fundamental_div_mod(big, small);
    let k = addr / big;
    let j = big / small;
    assert(addr == (k * j) * small) by (nonlinear_arith)
        requires
            addr == big * k,
            big == small * j,
    ;
    lemma_mod_multiples_basic(k * j, small);
}

/// Of two distinct powers of two, the greater is at least twice the smaller.
proof fn lemma_pow2_gap(small: int, big: int)
    requires
        is_pow2(small),
        is_pow2(big),
        small < big,
    ensures
        2 * small <= big,
    decreases small,
{
    reveal(is_pow2);
    if small > 1 {
        lemma_pow2_gap(small / 2, big / 2);
    }
}

/// A power of two divides every power of two that is not smaller.
pub proof fn lemma_pow2_divides(small: int, big: int)
    requires
        is_pow2(small),
        is_pow2(big),
        small <= big,
    ensures
        small > 0,
        big % small == 0,
    decreases big,
{
    reveal(is_pow2);
    if small == big {
        lemma_mod_self_0(small);
    } else {
        lemma_pow2_gap(small, big);
        let half = big / 2;
        lemma_pow2_divides(small, half);
        lemma_fundamental_div_mod(half, small);
        let q = half / small;
        assert(big == (2 * q) * small) by (nonlinear_arith)
            requires
                big == 2 * half,
                half == small * q,
        ;
        lemma_mod_multiples_basic(2 * q, small);
    }
}

/// Whether `[a, a + a_len)` ends before `[b, b + b_len)` starts, or the other way round.
/// Two ranges of which neither is empty then share no byte.
pub open spec fn ranges_disjoint(a: int, a_len: int, b: int, b_len: int) -> bool {
    a + a_len <= b || b + b_len <= a
}

/// Aligns `addr` upwards to `align`.
pub fn align_up(addr: usize, align: usize) -> (aligned: usize)
    requires
        align > 0,
        round_up(addr as int, align as int) <= usize::MAX,
    ensures
        aligned == round_up(addr as int, align as int),
{
    let remainder: usize = addr % align;
    proof {
        lemma_mod_decreases(addr as nat, align as nat);
    }
    if remainder == 0 {
        addr
    } else {
        addr - remainder + align
    }
}

/// Aligns `addr` upwards to `align`, or reports that the result does not fit in `usize`.
pub fn checked_align_up(addr: usize, align: usize) -> (aligned: Option<usize>)
    requires
        align > 0,
    ensures
        match aligned {
            Some(a) => a == round_up(addr as int, align as int),
            None => round_up(addr as int, align as int) > usize::MAX,
        },
{
    let remainder: usize = addr % align;
    proof {
        lemma_mod_decreases(addr as nat, align as nat);
    }
    if remainder == 0 {
        Some(addr)
    } else {
        (addr - remainder).checked_add(align)
    }
}

} // verus!
