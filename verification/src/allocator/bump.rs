//! The bump strategy: a cursor that only moves forward, and goes back to the start of the
//! heap when the last outstanding block has come back.
//!
//! A request takes the bytes at the cursor. A block that comes back is only counted: its
//! bytes are handed out again when every block is back.

use crate::allocator::layout::Layout;
use crate::allocator::{
    checked_align_up, lemma_round_up, ranges_disjoint, round_up, AllocationStrategy,
};
use vstd::multiset::Multiset;
use vstd::prelude::*;

verus! {

/// The state of the bump strategy.
#[verifier::ext_equal]
pub struct BumpView {
    /// The first address of the heap.
    pub heap_start: int,
    /// The address behind the last byte of the heap.
    pub heap_end: int,
    /// The cursor: no byte from here on has been handed out since it was last reset.
    pub next: int,
    /// The blocks handed out and not yet returned, each with its address. The strategy
    /// counts them.
    pub allocated: Multiset<(int, Layout)>,
}

impl BumpView {
    /// The state before any heap is set up.
    pub open spec fn empty() -> BumpView {
        BumpView { heap_start: 0, heap_end: 0, next: 0, allocated: Multiset::empty() }
    }

    /// The state right after the heap `[heap_start, heap_start + heap_size)` is set up.
    pub open spec fn fresh(heap_start: usize, heap_size: usize) -> BumpView {
        BumpView {
            heap_start: heap_start as int,
            heap_end: heap_start + heap_size,
            next: heap_start as int,
            allocated: Multiset::empty(),
        }
    }

    /// The invariant of the strategy: the outstanding blocks lie between the start of the
    /// heap and the cursor, no two of them overlap, and the cursor is at the start of the
    /// heap while none is outstanding.
    pub open spec fn wf(self) -> bool {
        &&& 0 <= self.heap_start <= self.next <= self.heap_end <= usize::MAX
        &&& self.allocated.len() <= usize::MAX
        &&& self.allocated.len() == 0 ==> self.next == self.heap_start
        &&& forall|b: (int, Layout)| #[trigger]
            self.allocated.contains(b) ==> {
                &&& b.1.valid()
                &&& b.0 % (b.1.align() as int) == 0
                &&& self.heap_start <= b.0
                &&& b.0 + b.1.size() <= self.next
            }
        &&& forall|a: (int, Layout), b: (int, Layout)|
            #[trigger] self.allocated.contains(a) && #[trigger] self.allocated.contains(b) && (a
                != b || self.allocated.count(a) >= 2) ==> ranges_disjoint(
                a.0,
                a.1.size() as int,
                b.0,
                b.1.size() as int,
            )
    }

    /// The address at which a block of `layout` would start.
    pub open spec fn aligned_next(self, layout: Layout) -> int {
        round_up(self.next, layout.align() as int)
    }

    /// Whether a request for `layout` succeeds: the block ends within the heap, and the
    /// count of outstanding blocks can still grow.
    pub open spec fn fits(self, layout: Layout) -> bool {
        self.aligned_next(layout) + layout.size() <= self.heap_end && self.allocated.len()
            < usize::MAX
    }

    /// What a request for `layout` returns.
    pub open spec fn allocate_result(self, layout: Layout) -> Option<int> {
        if self.fits(layout) {
            Some(self.aligned_next(layout))
        } else {
            None
        }
    }

    /// The state after a request for `layout`: where it succeeds, the cursor stands behind
    /// the block; where it fails, nothing changes.
    pub open spec fn allocate(self, layout: Layout) -> BumpView {
        if self.fits(layout) {
            BumpView {
                next: self.aligned_next(layout) + layout.size(),
                allocated: self.allocated.insert((self.aligned_next(layout), layout)),
                ..self
            }
        } else {
            self
        }
    }

    /// The state after the block of `layout` at `addr` came back: the cursor moves only
    /// when this was the last outstanding block, and then to the start of the heap.
    pub open spec fn deallocate(self, addr: int, layout: Layout) -> BumpView {
        let rest = self.allocated.remove((addr, layout));
        BumpView {
            next: if rest.len() == 0 {
                self.heap_start
            } else {
                self.next
            },
            allocated: rest,
            ..self
        }
    }

    /// The state after `k` requests for `layout` in a row.
    pub open spec fn allocate_n(self, layout: Layout, k: nat) -> BumpView
        decreases k,
    {
        if k == 0 {
            self
        } else {
            self.allocate_n(layout, (k - 1) as nat).allocate(layout)
        }
    }

    /// Whether `k` requests for `layout` in a row all succeed.
    pub open spec fn all_fit(self, layout: Layout, k: nat) -> bool
        decreases k,
    {
        k == 0 || (self.all_fit(layout, (k - 1) as nat) && self.allocate_n(
            layout,
            (k - 1) as nat,
        ).fits(layout))
    }

    /// The state after the blocks of `order` came back one by one, the first first.
    pub open spec fn deallocate_all(self, order: Seq<(int, Layout)>) -> BumpView
        decreases order.len(),
    {
        if order.len() == 0 {
            self
        } else {
            self.deallocate(order[0].0, order[0].1).deallocate_all(order.drop_first())
        }
    }

    /// A request keeps the invariant, and a block that it hands out lies in the heap at a
    /// multiple of the requested alignment.
    pub proof fn lemma_allocate(self, layout: Layout)
        requires
            self.wf(),
            layout.valid(),
        ensures
            self.allocate(layout).wf(),
            self.next <= self.allocate(layout).next,
            self.allocate_result(layout) matches Some(addr) ==> {
                &&& addr % (layout.align() as int) == 0
                &&& self.next <= addr
                &&& addr + layout.size() == self.allocate(layout).next
            },
    {
        layout.lemma_valid();
        lemma_round_up(self.next, layout.align() as int);
        if self.fits(layout) {
            let post = self.allocate(layout);
            let block = (self.aligned_next(layout), layout);
            assert forall|b: (int, Layout)| #[trigger] post.allocated.contains(b) implies {
                &&& b.1.valid()
                &&& b.0 % (b.1.align() as int) == 0
                &&& post.heap_start <= b.0
                &&& b.0 + b.1.size() <= post.next
            } by {
                if b != block {
                    assert(self.allocated.contains(b));
                }
            }
            assert forall|a: (int, Layout), b: (int, Layout)|
                #[trigger] post.allocated.contains(a) && #[trigger] post.allocated.contains(b) && (a
                    != b || post.allocated.count(a) >= 2) implies ranges_disjoint(
                a.0,
                a.1.size() as int,
                b.0,
                b.1.size() as int,
            ) by {
                if a != block {
                    assert(self.allocated.contains(a));
                }
                if b != block {
                    assert(self.allocated.contains(b));
                }
                if a == block && b == block {
                    assert(self.allocated.contains(block));
                }
            }
        }
    }

    /// Taking a block back keeps the invariant.
    pub proof fn lemma_deallocate(self, addr: int, layout: Layout)
        requires
            self.wf(),
            self.allocated.contains((addr, layout)),
        ensures
            self.deallocate(addr, layout).wf(),
            self.deallocate(addr, layout).allocated.len() == self.allocated.len() - 1,
    {
        let post = self.deallocate(addr, layout);
        let block = (addr, layout);
        assert(Multiset::singleton(block).subset_of(self.allocated)) by {
            assert forall|b: (int, Layout)|
                Multiset::singleton(block).count(b) <= self.allocated.count(b) by {
                if b != block {
                    assert(Multiset::singleton(block).count(b) == 0);
                }
            }
        }
        assert forall|b: (int, Layout)| #[trigger] post.allocated.contains(b) implies {
            &&& b.1.valid()
            &&& b.0 % (b.1.align() as int) == 0
            &&& post.heap_start <= b.0
            &&& b.0 + b.1.size() <= post.next
        } by {
            assert(self.allocated.contains(b));
        }
        assert forall|a: (int, Layout), b: (int, Layout)|
            #[trigger] post.allocated.contains(a) && #[trigger] post.allocated.contains(b) && (a
                != b || post.allocated.count(a) >= 2) implies ranges_disjoint(
            a.0,
            a.1.size() as int,
            b.0,
            b.1.size() as int,
        ) by {
            assert(self.allocated.contains(a));
            assert(self.allocated.contains(b));
        }
    }

    /// Requests in a row that all succeed keep the invariant and the heap, add one
    /// outstanding block each, and move the cursor by the size of each block at least.
    pub proof fn lemma_allocate_n(self, layout: Layout, k: nat)
        requires
            self.wf(),
            layout.valid(),
            self.all_fit(layout, k),
        ensures
            self.allocate_n(layout, k).wf(),
            self.allocate_n(layout, k).heap_start == self.heap_start,
            self.allocate_n(layout, k).heap_end == self.heap_end,
            self.allocate_n(layout, k).allocated.len() == self.allocated.len() + k,
            self.next <= self.allocate_n(layout, k).next,
            k >= 1 ==> self.aligned_next(layout) + k * layout.size() <= self.allocate_n(
                layout,
                k,
            ).next,
        decreases k,
    {
        if k > 0 {
            let j = (k - 1) as nat;
            let before = self.allocate_n(layout, j);
            self.lemma_allocate_n(layout, j);
            before.lemma_allocate(layout);
            layout.lemma_valid();
            lemma_round_up(before.next, layout.align() as int);
            lemma_round_up(self.next, layout.align() as int);
            assert(k * layout.size() == j * layout.size() + layout.size()) by (nonlinear_arith)
                requires
                    k == j + 1,
            ;
        }
    }

    /// When every outstanding block has come back, in whatever order, none is outstanding
    /// and the cursor is at the start of the heap.
    pub proof fn lemma_deallocate_all(self, order: Seq<(int, Layout)>)
        requires
            self.wf(),
            order.to_multiset() =~= self.allocated,
        ensures
            self.deallocate_all(order) == (BumpView {
                next: self.heap_start,
                allocated: Multiset::empty(),
                ..self
            }),
        decreases order.len(),
    {
        broadcast use vstd::seq_lib::group_to_multiset_ensures;

        if order.len() == 0 {
            assert(self.allocated.len() == 0);
            assert(self.allocated =~= Multiset::empty());
        } else {
            let block = order[0];
            assert(order.contains(block));
            let rest = order.drop_first();
            assert(rest =~= order.remove(0));
            self.lemma_deallocate(block.0, block.1);
            let after = self.deallocate(block.0, block.1);
            after.lemma_deallocate_all(rest);
        }
    }

    /// The full cycle: from a state without outstanding blocks, `k` requests for `layout`
    /// that all succeed, and then the return of the `k` blocks in whatever order, lead back
    /// to the very same state; and there a request for all their bytes at once succeeds at
    /// the address that the first of them had, which is the start of the heap where that
    /// is a multiple of the alignment.
    pub proof fn lemma_full_cycle(
        self,
        layout: Layout,
        k: nat,
        order: Seq<(int, Layout)>,
        total: Layout,
    )
        requires
            self.wf(),
            self.allocated.len() == 0,
            layout.valid(),
            self.all_fit(layout, k),
            order.to_multiset() =~= self.allocate_n(layout, k).allocated,
            total.valid(),
            total.align() == layout.align(),
            total.size() == k * layout.size(),
        ensures
            self.allocate_n(layout, k).deallocate_all(order) == self,
            k >= 1 ==> self.allocate_result(total) == Some(
                round_up(self.heap_start, layout.align() as int),
            ),
            k >= 1 && self.heap_start % (layout.align() as int) == 0 ==> self.allocate_result(
                total,
            ) == Some(self.heap_start),
    {
        self.lemma_allocate_n(layout, k);
        self.allocate_n(layout, k).lemma_deallocate_all(order);
        assert(self.allocated =~= Multiset::empty());
    }

    /// No two outstanding blocks overlap.
    pub proof fn lemma_blocks_disjoint(self, a: (int, Layout), b: (int, Layout))
        requires
            self.wf(),
            self.allocated.contains(a),
            self.allocated.contains(b),
            a != b || self.allocated.count(a) >= 2,
        ensures
            ranges_disjoint(a.0, a.1.size() as int, b.0, b.1.size() as int),
    {
    }
}

/// The bump strategy.
pub struct BumpAllocator {
    heap_start: usize,
    heap_end: usize,
    next: usize,
    allocations: usize,
    allocated: Ghost<Multiset<(int, Layout)>>,
}

impl View for BumpAllocator {
    type V = BumpView;

    closed spec fn view(&self) -> BumpView {
        BumpView {
            heap_start: self.heap_start as int,
            heap_end: self.heap_end as int,
            next: self.next as int,
            allocated: self.allocated@,
        }
    }
}

impl BumpAllocator {
    /// What holds of every value: the count of the outstanding blocks is right.
    #[verifier::type_invariant]
    spec fn counted(self) -> bool {
        self.allocations == self.allocated@.len()
    }

    /// The invariant of the strategy.
    pub open spec fn wf(&self) -> bool {
        self@.wf()
    }

    /// A strategy without a heap: every request for a byte or more fails until `init` is
    /// called.
    pub fn new() -> (allocator: Self)
        ensures
            allocator@ == BumpView::empty(),
            allocator.wf(),
    {
        Self { heap_start: 0, heap_end: 0, next: 0, allocations: 0, allocated: Ghost(Multiset::empty()) }
    }

    /// Sets up the heap `[heap_start, heap_start + heap_size)`.
    pub fn init(&mut self, heap_start: usize, heap_size: usize)
        requires
            old(self).wf(),
            old(self)@.allocated.len() == 0,
            heap_start + heap_size <= usize::MAX,
        ensures
            final(self)@ == BumpView::fresh(heap_start, heap_size),
            final(self).wf(),
    {
        proof {
            use_type_invariant(&*self);
            assert(self.allocated@ =~= Multiset::empty());
        }
        self.heap_start = heap_start;
        self.heap_end = heap_start + heap_size;
        self.next = heap_start;
    }

    /// The cursor: no byte from here on has been handed out since it was last reset.
    pub fn next(&self) -> (next: usize)
        ensures
            next == self@.next,
    {
        self.next
    }

    /// How many blocks are handed out and not yet returned.
    pub fn allocations(&self) -> (count: usize)
        ensures
            count == self@.allocated.len(),
    {
        proof {
            use_type_invariant(self);
        }
        self.allocations
    }

    /// Hands out the block of `layout` that starts at the cursor, rounded up to the
    /// alignment, and moves the cursor behind it. Fails, and changes nothing, where the
    /// block would end behind the heap.
    pub fn allocate(&mut self, layout: Layout) -> (result: Option<usize>)
        requires
            old(self).wf(),
        ensures
            final(self).wf(),
            final(self)@ == old(self)@.allocate(layout),
            match result {
                Some(addr) => old(self)@.allocate_result(layout) == Some(addr as int),
                None => old(self)@.allocate_result(layout) is None,
            },
            result matches Some(addr) ==> {
                &&& addr as int % (layout.align() as int) == 0
                &&& old(self)@.next <= addr
                &&& addr + layout.size() <= final(self)@.heap_end
            },
    {
        proof {
            use_type_invariant(&layout);
            use_type_invariant(&*self);
            layout.lemma_valid();
            self@.lemma_allocate(layout);
        }
        let alloc_start: usize = match checked_align_up(self.next, layout.align()) {
            Some(addr) => addr,
            None => {
                return None;
            },
        };
        let alloc_end: usize = match alloc_start.checked_add(layout.size()) {
            Some(end) => end,
            None => {
                return None;
            },
        };
        if alloc_end > self.heap_end || self.allocations == usize::MAX {
            return None;
        }
        *self = BumpAllocator {
            heap_start: self.heap_start,
            heap_end: self.heap_end,
            next: alloc_end,
            allocations: self.allocations + 1,
            allocated: Ghost(self.allocated@.insert((alloc_start as int, layout))),
        };
        Some(alloc_start)
    }

    /// Takes back the block that `allocate` handed out at `ptr` for `layout`. The bytes
    /// can be handed out again once every outstanding block has come back.
    pub fn deallocate(&mut self, ptr: usize, layout: Layout)
        requires
            old(self).wf(),
            old(self)@.allocated.contains((ptr as int, layout)),
        ensures
            final(self).wf(),
            final(self)@ == old(self)@.deallocate(ptr as int, layout),
    {
        proof {
            use_type_invariant(&*self);
            self@.lemma_deallocate(ptr as int, layout);
        }
        let allocations: usize = self.allocations - 1;
        let next: usize = if allocations == 0 {
            self.heap_start
        } else {
            self.next
        };
        *self = BumpAllocator {
            heap_start: self.heap_start,
            heap_end: self.heap_end,
            next,
            allocations,
            allocated: Ghost(self.allocated@.remove((ptr as int, layout))),
        };
    }
}

impl AllocationStrategy for BumpAllocator {
    open spec fn consistent(&self) -> bool {
        self.wf()
    }

    open spec fn is_fresh(&self) -> bool {
        self.wf() && self@.allocated.len() == 0
    }

    open spec fn takes_heap(heap_start: usize, heap_size: usize) -> bool {
        heap_start + heap_size <= usize::MAX
    }

    open spec fn heap_start(&self) -> int {
        self@.heap_start
    }

    open spec fn heap_end(&self) -> int {
        self@.heap_end
    }

    open spec fn is_allocated(&self, addr: int, layout: Layout) -> bool {
        self@.allocated.contains((addr, layout))
    }

    fn init(&mut self, heap_start: usize, heap_size: usize)
        ensures
            final(self)@ == BumpView::fresh(heap_start, heap_size),
    {
        BumpAllocator::init(self, heap_start, heap_size)
    }

    fn allocate(&mut self, layout: Layout) -> (result: Option<usize>)
        ensures
            final(self)@ == old(self)@.allocate(layout),
            match result {
                Some(addr) => old(self)@.allocate_result(layout) == Some(addr as int),
                None => old(self)@.allocate_result(layout) is None,
            },
    {
        BumpAllocator::allocate(self, layout)
    }

    fn deallocate(&mut self, ptr: usize, layout: Layout)
        ensures
            final(self)@ == old(self)@.deallocate(ptr as int, layout),
    {
        BumpAllocator::deallocate(self, ptr, layout)
    }

    proof fn lemma_blocks_apart(&self, a: int, a_layout: Layout, b: int, b_layout: Layout) {
    }
}

} // verus!
