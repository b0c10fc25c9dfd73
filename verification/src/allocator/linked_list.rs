//! The free-list strategy: a chain of free regions, searched first-fit, never merged.
//!
//! A request is served from the first region of the chain that hosts it. What the block
//! leaves behind in the region becomes the head of the chain, and so does a block that
//! comes back. Regions that lie side by side stay two regions.
//!
//! Every region could hold the record of itself: it is at least `NODE_SIZE` bytes large
//! and starts at a multiple of `NODE_ALIGN`. The strategy keeps the records in a list of
//! its own all the same.

use crate::allocator::layout::Layout;
use crate::allocator::{
    checked_align_up, lemma_aligned_to_divisor, lemma_pow2_divides, lemma_round_up,
    ranges_disjoint, round_up, AllocationStrategy,
};
use vstd::arithmetic::div_mod::lemma_small_mod;
use vstd::arithmetic::power2::is_pow2;
use vstd::prelude::*;

verus! {

/// Bytes that the bookkeeping of one free region needs. No free region is smaller.
pub const NODE_SIZE: usize = 16;

/// Alignment of that bookkeeping. Every free region starts at a multiple of it.
pub const NODE_ALIGN: usize = 8;

/// A free region: `size` bytes from address `start`.
#[derive(Clone, Copy, Debug, PartialEq, Eq)]
pub struct ListNode {
    pub start: usize,
    pub size: usize,
}

impl ListNode {
    /// The region of `size` bytes that starts at `start`.
    pub fn new(start: usize, size: usize) -> (node: Self)
        ensures
            node.start == start,
            node.size == size,
    {
        Self { start, size }
    }

    /// The address behind the last byte of the region.
    pub open spec fn end(self) -> int {
        self.start + self.size
    }

    /// The first address of the region.
    pub fn start_addr(&self) -> (addr: usize)
        ensures
            addr == self.start,
    {
        self.start
    }

    /// The address behind the last byte of the region.
    pub fn end_addr(&self) -> (addr: usize)
        requires
            self.end() <= usize::MAX,
        ensures
            addr == self.end(),
    {
        self.start + self.size
    }

    /// Whether `size` bytes aligned to `align` can be carved out of the region: they fit
    /// behind the aligned start, and what is left behind them is nothing or enough for
    /// a region of its own.
    pub open spec fn hosts(self, size: int, align: int) -> bool {
        let alloc_end = round_up(self.start as int, align) + size;
        alloc_end <= self.end() && (alloc_end == self.end() || self.end() - alloc_end
            >= NODE_SIZE)
    }
}

/// The alignment that the strategy gives to a request: at least `NODE_ALIGN`.
pub open spec fn adjusted_align(layout: Layout) -> int {
    if layout.align() > NODE_ALIGN {
        layout.align() as int
    } else {
        NODE_ALIGN as int
    }
}

/// The size that the strategy gives to a request: rounded up to the adjusted alignment,
/// and at least `NODE_SIZE`.
pub open spec fn adjusted_size(layout: Layout) -> int {
    let padded = round_up(layout.size() as int, adjusted_align(layout));
    if padded > NODE_SIZE {
        padded
    } else {
        NODE_SIZE as int
    }
}

/// What holds of the adjusted size and alignment of a valid layout.
pub proof fn lemma_adjusted(layout: Layout)
    requires
        layout.valid(),
    ensures
        adjusted_align(layout) % (NODE_ALIGN as int) == 0,
        adjusted_align(layout) % (layout.align() as int) == 0,
        adjusted_size(layout) % (NODE_ALIGN as int) == 0,
        layout.align() > 0,
        NODE_SIZE <= adjusted_size(layout) <= usize::MAX,
        layout.size() <= adjusted_size(layout),
        NODE_ALIGN <= adjusted_align(layout) <= usize::MAX,
{
    layout.lemma_valid();
    let align = adjusted_align(layout);
    let size = layout.size() as int;
    assert(is_pow2(8)) by {
        reveal_with_fuel(is_pow2, 4);
    }
    if layout.align() > NODE_ALIGN {
        lemma_pow2_divides(8, align);
        lemma_pow2_divides(align, align);
    } else {
        lemma_pow2_divides(layout.align() as int, 8);
    }
    lemma_round_up(size, align);
    let padded = round_up(size, align);
    if padded > NODE_SIZE {
        lemma_aligned_to_divisor(padded, align, 8);
    }
    if size < align {
        lemma_small_mod(size as nat, align as nat);
    }
}

/// The state of the free-list strategy.
#[verifier::ext_equal]
pub struct FreeListView {
    /// The free regions in chain order: the head comes first.
    pub free: Seq<ListNode>,
    /// The blocks handed out and not yet returned, each under its address.
    pub allocated: Map<int, Layout>,
    /// The first address of the heap.
    pub heap_start: int,
    /// The address behind the last byte of the heap.
    pub heap_end: int,
}

impl FreeListView {
    /// The state before any heap is set up.
    pub open spec fn empty() -> FreeListView {
        FreeListView { free: Seq::empty(), allocated: Map::empty(), heap_start: 0, heap_end: 0 }
    }

    /// The state right after the heap `[heap_start, heap_start + heap_size)` is set up.
    pub open spec fn fresh(heap_start: usize, heap_size: usize) -> FreeListView {
        FreeListView {
            free: seq![ListNode { start: heap_start, size: heap_size }],
            allocated: Map::empty(),
            heap_start: heap_start as int,
            heap_end: heap_start + heap_size,
        }
    }

    /// Whether a region may stand in the chain.
    pub open spec fn region_ok(self, region: ListNode) -> bool {
        &&& region.start as int % (NODE_ALIGN as int) == 0
        &&& region.size >= NODE_SIZE
        &&& self.heap_start <= region.start
        &&& region.end() <= self.heap_end
    }

    /// Whether a block may be outstanding.
    pub open spec fn block_ok(self, addr: int, layout: Layout) -> bool {
        &&& layout.valid()
        &&& addr % adjusted_align(layout) == 0
        &&& self.heap_start <= addr
        &&& addr + adjusted_size(layout) <= self.heap_end
    }

    /// The invariant of the strategy: free regions and outstanding blocks lie in the heap,
    /// and no two of them overlap.
    pub open spec fn wf(self) -> bool {
        &&& 0 <= self.heap_start <= self.heap_end <= usize::MAX
        &&& forall|i: int| 0 <= i < self.free.len() ==> self.region_ok(#[trigger] self.free[i])
        &&& forall|i: int, j: int|
            0 <= i < j < self.free.len() ==> ranges_disjoint(
                (#[trigger] self.free[i]).start as int,
                self.free[i].size as int,
                (#[trigger] self.free[j]).start as int,
                self.free[j].size as int,
            )
        &&& forall|p: int| #[trigger]
            self.allocated.contains_key(p) ==> self.block_ok(p, self.allocated[p])
        &&& forall|p: int, q: int|
            #[trigger] self.allocated.contains_key(p) && #[trigger] self.allocated.contains_key(
                q,
            ) && p != q ==> ranges_disjoint(
                p,
                adjusted_size(self.allocated[p]),
                q,
                adjusted_size(self.allocated[q]),
            )
        &&& forall|i: int, p: int|
            0 <= i < self.free.len() && #[trigger] self.allocated.contains_key(p)
                ==> ranges_disjoint(
                (#[trigger] self.free[i]).start as int,
                self.free[i].size as int,
                p,
                adjusted_size(self.allocated[p]),
            )
    }

    /// Whether region `i` is the first of the chain that hosts `size` bytes aligned to
    /// `align`.
    pub open spec fn is_first_fit(self, size: int, align: int, i: int) -> bool {
        &&& 0 <= i < self.free.len()
        &&& self.free[i].hosts(size, align)
        &&& forall|j: int| 0 <= j < i ==> !(#[trigger] self.free[j]).hosts(size, align)
    }

    /// Whether no region of the chain hosts `size` bytes aligned to `align`.
    pub open spec fn no_fit(self, size: int, align: int) -> bool {
        forall|j: int| 0 <= j < self.free.len() ==> !(#[trigger] self.free[j]).hosts(size, align)
    }

    /// The state after region `i` has left the chain.
    pub open spec fn unlink(self, i: int) -> FreeListView {
        FreeListView { free: self.free.remove(i), ..self }
    }

    /// The state after a region has become the head of the chain.
    pub open spec fn link(self, region: ListNode) -> FreeListView {
        FreeListView { free: seq![region] + self.free, ..self }
    }

    /// The state after `layout` was served from region `i`: the region has left the
    /// chain, what is left behind the block is the new head, and the block is outstanding.
    pub open spec fn take(self, i: int, layout: Layout) -> FreeListView {
        let region = self.free[i];
        let addr = round_up(region.start as int, adjusted_align(layout));
        let end = addr + adjusted_size(layout);
        let rest = self.unlink(i);
        let chain = if end < region.end() {
            rest.link(ListNode { start: end as usize, size: (region.end() - end) as usize })
        } else {
            rest
        };
        FreeListView { allocated: self.allocated.insert(addr, layout), ..chain }
    }

    /// Whether a request for `layout` in this state ends in state `post` with result
    /// `result`: the first region that hosts the adjusted request serves it, and where
    /// there is none the request fails and nothing changes.
    pub open spec fn allocates(
        self,
        layout: Layout,
        post: FreeListView,
        result: Option<usize>,
    ) -> bool {
        let size = adjusted_size(layout);
        let align = adjusted_align(layout);
        match result {
            Some(addr) => exists|i: int|
                #![trigger self.free[i]]
                {
                    &&& self.is_first_fit(size, align, i)
                    &&& addr == round_up(self.free[i].start as int, align)
                    &&& post == self.take(i, layout)
                },
            None => self.no_fit(size, align) && post == self,
        }
    }

    /// The state after the block of `layout` at `addr` came back: it is the new head of
    /// the chain, whatever lies next to it.
    pub open spec fn release(self, addr: int, layout: Layout) -> FreeListView {
        let region = ListNode { start: addr as usize, size: adjusted_size(layout) as usize };
        FreeListView { allocated: self.allocated.remove(addr), ..self.link(region) }
    }

    /// Serving a request keeps the invariant, and the block lies in the heap at a multiple
    /// of the requested alignment.
    pub proof fn lemma_take(self, i: int, layout: Layout)
        requires
            self.wf(),
            layout.valid(),
            0 <= i < self.free.len(),
            self.free[i].hosts(adjusted_size(layout), adjusted_align(layout)),
        ensures
            self.take(i, layout).wf(),
            !self.allocated.contains_key(round_up(self.free[i].start as int, adjusted_align(layout))),
            round_up(self.free[i].start as int, adjusted_align(layout)) % (layout.align() as int)
                == 0,
            self.heap_start <= round_up(self.free[i].start as int, adjusted_align(layout)),
            round_up(self.free[i].start as int, adjusted_align(layout)) + adjusted_size(layout)
                <= self.heap_end,
    {
        let region = self.free[i];
        let align = adjusted_align(layout);
        let size = adjusted_size(layout);
        let addr = round_up(region.start as int, align);
        let end = addr + size;
        lemma_adjusted(layout);
        lemma_round_up(region.start as int, align);
        lemma_aligned_to_divisor(addr, align, layout.align() as int);
        lemma_aligned_to_divisor(addr, align, NODE_ALIGN as int);
        assert(self.region_ok(region));
        let post = self.take(i, layout);
        let rest = self.free.remove(i);
        assert forall|j: int| 0 <= j < rest.len() implies self.region_ok(#[trigger] rest[j])
            && ranges_disjoint(
            rest[j].start as int,
            rest[j].size as int,
            region.start as int,
            region.size as int,
        ) by {
            if j < i {
                assert(rest[j] == self.free[j]);
            } else {
                assert(rest[j] == self.free[j + 1]);
            }
        }
        assert forall|j: int, k: int| 0 <= j < k < rest.len() implies ranges_disjoint(
            (#[trigger] rest[j]).start as int,
            rest[j].size as int,
            (#[trigger] rest[k]).start as int,
            rest[k].size as int,
        ) by {
            let jj = if j < i { j } else { j + 1 };
            let kk = if k < i { k } else { k + 1 };
            assert(rest[j] == self.free[jj]);
            assert(rest[k] == self.free[kk]);
        }
        assert forall|j: int, p: int|
            0 <= j < rest.len() && #[trigger] self.allocated.contains_key(p) implies ranges_disjoint(
            (#[trigger] rest[j]).start as int,
            rest[j].size as int,
            p,
            adjusted_size(self.allocated[p]),
        ) by {
            let jj = if j < i { j } else { j + 1 };
            assert(rest[j] == self.free[jj]);
        }
        assert forall|p: int| #[trigger] self.allocated.contains_key(p) implies ranges_disjoint(
            region.start as int,
            region.size as int,
            p,
            adjusted_size(self.allocated[p]),
        ) && NODE_SIZE <= adjusted_size(self.allocated[p]) by {
            assert(self.block_ok(p, self.allocated[p]));
            lemma_adjusted(self.allocated[p]);
        }
        if end < region.end() {
            let left = ListNode { start: end as usize, size: (region.end() - end) as usize };
            lemma_aligned_to_divisor(size, NODE_ALIGN as int, NODE_ALIGN as int);
            assert(end % (NODE_ALIGN as int) == 0) by {
                assert(addr % 8 == 0);
                assert(size % 8 == 0);
            }
            assert(post.free == seq![left] + rest);
            assert forall|j: int| 0 <= j < post.free.len() implies post.region_ok(
                #[trigger] post.free[j],
            ) by {
                if j > 0 {
                    assert(post.free[j] == rest[j - 1]);
                }
            }
            assert forall|j: int, k: int| 0 <= j < k < post.free.len() implies ranges_disjoint(
                (#[trigger] post.free[j]).start as int,
                post.free[j].size as int,
                (#[trigger] post.free[k]).start as int,
                post.free[k].size as int,
            ) by {
                assert(post.free[k] == rest[k - 1]);
                if j > 0 {
                    assert(post.free[j] == rest[j - 1]);
                }
            }
            assert forall|j: int, p: int|
                0 <= j < post.free.len() && #[trigger] post.allocated.contains_key(
                    p,
                ) implies ranges_disjoint(
                (#[trigger] post.free[j]).start as int,
                post.free[j].size as int,
                p,
                adjusted_size(post.allocated[p]),
            ) by {
                if j > 0 {
                    assert(post.free[j] == rest[j - 1]);
                }
                if p != addr {
                    assert(self.allocated.contains_key(p));
                }
            }
        } else {
            assert(post.free == rest);
            assert forall|j: int, p: int|
                0 <= j < post.free.len() && #[trigger] post.allocated.contains_key(
                    p,
                ) implies ranges_disjoint(
                (#[trigger] post.free[j]).start as int,
                post.free[j].size as int,
                p,
                adjusted_size(post.allocated[p]),
            ) by {
                if p != addr {
                    assert(self.allocated.contains_key(p));
                }
            }
        }
        assert forall|p: int| #[trigger] post.allocated.contains_key(p) implies post.block_ok(
            p,
            post.allocated[p],
        ) by {
            if p != addr {
                assert(self.allocated.contains_key(p));
                assert(self.block_ok(p, self.allocated[p]));
            }
        }
        assert forall|p: int, q: int|
            #[trigger] post.allocated.contains_key(p) && #[trigger] post.allocated.contains_key(q)
                && p != q implies ranges_disjoint(
            p,
            adjusted_size(post.allocated[p]),
            q,
            adjusted_size(post.allocated[q]),
        ) by {
            if p != addr {
                assert(self.allocated.contains_key(p));
            }
            if q != addr {
                assert(self.allocated.contains_key(q));
            }
        }
    }

    /// A request keeps the invariant and the heap. A block that it hands out was not
    /// outstanding before, lies in the heap, and starts at a multiple of the requested
    /// alignment.
    pub proof fn lemma_allocates(self, layout: Layout, post: FreeListView, result: Option<usize>)
        requires
            self.wf(),
            layout.valid(),
            self.allocates(layout, post, result),
        ensures
            post.wf(),
            post.heap_start == self.heap_start,
            post.heap_end == self.heap_end,
            match result {
                Some(addr) => {
                    &&& !self.allocated.contains_key(addr as int)
                    &&& post.allocated == self.allocated.insert(addr as int, layout)
                    &&& addr as int % (layout.align() as int) == 0
                    &&& addr as int % adjusted_align(layout) == 0
                    &&& self.heap_start <= addr
                    &&& addr + adjusted_size(layout) <= self.heap_end
                },
                None => post == self,
            },
    {
        if let Some(addr) = result {
            let size = adjusted_size(layout);
            let align = adjusted_align(layout);
            let i = choose|i: int|
                #![trigger self.free[i]]
                {
                    &&& self.is_first_fit(size, align, i)
                    &&& addr == round_up(self.free[i].start as int, align)
                    &&& post == self.take(i, layout)
                };
            self.lemma_take(i, layout);
            lemma_adjusted(layout);
            lemma_round_up(self.free[i].start as int, align);
        }
    }

    /// Taking a block back keeps the invariant.
    pub proof fn lemma_release(self, addr: int, layout: Layout)
        requires
            self.wf(),
            self.allocated.contains_pair(addr, layout),
        ensures
            self.release(addr, layout).wf(),
    {
        let post = self.release(addr, layout);
        let region = ListNode { start: addr as usize, size: adjusted_size(layout) as usize };
        assert(self.allocated.contains_key(addr));
        assert(self.block_ok(addr, layout));
        lemma_adjusted(layout);
        lemma_aligned_to_divisor(addr, adjusted_align(layout), NODE_ALIGN as int);
        assert(post.free == seq![region] + self.free);
        assert forall|j: int| 0 <= j < post.free.len() implies post.region_ok(
            #[trigger] post.free[j],
        ) by {
            if j > 0 {
                assert(post.free[j] == self.free[j - 1]);
            }
        }
        assert forall|j: int, k: int| 0 <= j < k < post.free.len() implies ranges_disjoint(
            (#[trigger] post.free[j]).start as int,
            post.free[j].size as int,
            (#[trigger] post.free[k]).start as int,
            post.free[k].size as int,
        ) by {
            assert(post.free[k] == self.free[k - 1]);
            if j > 0 {
                assert(post.free[j] == self.free[j - 1]);
            }
        }
        assert forall|j: int, p: int|
            0 <= j < post.free.len() && #[trigger] post.allocated.contains_key(
                p,
            ) implies ranges_disjoint(
            (#[trigger] post.free[j]).start as int,
            post.free[j].size as int,
            p,
            adjusted_size(post.allocated[p]),
        ) by {
            assert(self.allocated.contains_key(p));
            if j > 0 {
                assert(post.free[j] == self.free[j - 1]);
            }
        }
        assert forall|p: int| #[trigger] post.allocated.contains_key(p) implies post.block_ok(
            p,
            post.allocated[p],
        ) by {
            assert(self.allocated.contains_key(p));
            assert(self.block_ok(p, self.allocated[p]));
        }
    }

    /// No two outstanding blocks overlap.
    pub proof fn lemma_blocks_disjoint(self, p: int, q: int)
        requires
            self.wf(),
            self.allocated.contains_key(p),
            self.allocated.contains_key(q),
            p != q,
        ensures
            ranges_disjoint(
                p,
                self.allocated[p].size() as int,
                q,
                self.allocated[q].size() as int,
            ),
    {
        assert(self.block_ok(p, self.allocated[p]));
        assert(self.block_ok(q, self.allocated[q]));
        lemma_adjusted(self.allocated[p]);
        lemma_adjusted(self.allocated[q]);
    }

    /// A request for more bytes than any free region holds finds no region.
    pub proof fn lemma_oversized(self, layout: Layout)
        requires
            layout.valid(),
            forall|i: int| 0 <= i < self.free.len() ==> (#[trigger] self.free[i]).size < layout.size(),
        ensures
            self.no_fit(adjusted_size(layout), adjusted_align(layout)),
    {
        lemma_adjusted(layout);
        assert forall|j: int| 0 <= j < self.free.len() implies !(#[trigger] self.free[j]).hosts(
            adjusted_size(layout),
            adjusted_align(layout),
        ) by {
            lemma_round_up(self.free[j].start as int, adjusted_align(layout));
        }
    }
}

/// The free-list strategy.
pub struct LinkedListAllocator {
    free: Vec<ListNode>,
    allocated: Ghost<Map<int, Layout>>,
    heap: Ghost<(int, int)>,
}

impl View for LinkedListAllocator {
    type V = FreeListView;

    closed spec fn view(&self) -> FreeListView {
        FreeListView {
            free: self.free@,
            allocated: self.allocated@,
            heap_start: self.heap@.0,
            heap_end: self.heap@.1,
        }
    }
}

impl LinkedListAllocator {
    /// The invariant of the strategy.
    pub open spec fn wf(&self) -> bool {
        self@.wf()
    }

    /// A strategy without a heap: every request fails until `init` is called.
    pub fn new() -> (allocator: Self)
        ensures
            allocator@ == FreeListView::empty(),
            allocator.wf(),
    {
        Self { free: Vec::new(), allocated: Ghost(Map::empty()), heap: Ghost((0, 0)) }
    }

    /// Sets up the heap `[heap_start, heap_start + heap_size)` as one free region.
    pub fn init(&mut self, heap_start: usize, heap_size: usize)
        requires
            old(self)@ == FreeListView::empty(),
            heap_start as int % (NODE_ALIGN as int) == 0,
            heap_size >= NODE_SIZE,
            heap_start + heap_size <= usize::MAX,
        ensures
            final(self)@ == FreeListView::fresh(heap_start, heap_size),
            final(self).wf(),
    {
        self.heap = Ghost((heap_start as int, heap_start + heap_size));
        self.add_free_region(heap_start, heap_size);
        assert(self@.free =~= seq![ListNode { start: heap_start, size: heap_size }]);
    }

    /// The free regions in chain order: the head comes first.
    pub fn free_regions(&self) -> (regions: &Vec<ListNode>)
        ensures
            regions@ == self@.free,
    {
        &self.free
    }

    /// Makes the region of `size` bytes at `addr` the head of the chain.
    fn add_free_region(&mut self, addr: usize, size: usize)
        requires
            addr as int % (NODE_ALIGN as int) == 0,
            size >= NODE_SIZE,
        ensures
            final(self)@ == old(self)@.link(ListNode { start: addr, size }),
    {
        let node = ListNode::new(addr, size);
        self.free.insert(0, node);
        assert(self@.free =~= seq![node] + old(self)@.free);
    }

    /// Takes the first region that hosts `size` bytes aligned to `align` out of the chain,
    /// and returns it with the address at which the bytes start.
    fn find_region(&mut self, size: usize, align: usize) -> (found: Option<(ListNode, usize)>)
        requires
            old(self).wf(),
            align > 0,
        ensures
            match found {
                Some((region, alloc_start)) => exists|i: int|
                    #![trigger old(self)@.free[i]]
                    {
                        &&& old(self)@.is_first_fit(size as int, align as int, i)
                        &&& region == old(self)@.free[i]
                        &&& alloc_start == round_up(region.start as int, align as int)
                        &&& final(self)@ == old(self)@.unlink(i)
                    },
                None => old(self)@.no_fit(size as int, align as int) && final(self)@ == old(
                    self,
                )@,
            },
    {
        let mut i: usize = 0;
        while i < self.free.len()
            invariant
                i <= self.free.len(),
                align > 0,
                self@ == old(self)@,
                self.wf(),
                forall|j: int| 0 <= j < i ==> !(#[trigger] self@.free[j]).hosts(size as int, align as int),
            decreases self.free.len() - i,
        {
            let region = self.free[i];
            assert(self@.region_ok(self@.free[i as int]));
            match Self::alloc_from_region(&region, size, align) {
                Ok(alloc_start) => {
                    self.free.remove(i);
                    assert(old(self)@.is_first_fit(size as int, align as int, i as int));
                    assert(self@ == old(self)@.unlink(i as int));
                    return Some((region, alloc_start));
                },
                Err(_) => {
                    i += 1;
                },
            }
        }
        None
    }

    /// Says where `size` bytes aligned to `align` start in `region`, if it hosts them.
    fn alloc_from_region(region: &ListNode, size: usize, align: usize) -> (r: Result<usize, ()>)
        requires
            align > 0,
            region.end() <= usize::MAX,
        ensures
            r is Ok <==> region.hosts(size as int, align as int),
            r matches Ok(alloc_start) ==> alloc_start == round_up(
                region.start as int,
                align as int,
            ),
    {
        proof {
            lemma_round_up(region.start as int, align as int);
        }
        let alloc_start: usize = match checked_align_up(region.start_addr(), align) {
            Some(addr) => addr,
            None => {
                return Err(());
            },
        };
        let alloc_end: usize = match alloc_start.checked_add(size) {
            Some(end) => end,
            None => {
                return Err(());
            },
        };
        if alloc_end > region.end_addr() {
            return Err(());
        }
        let excess_size: usize = region.end_addr() - alloc_end;
        if excess_size > 0 && excess_size < NODE_SIZE {
            return Err(());
        }
        Ok(alloc_start)
    }

    /// The size and the alignment that the strategy gives to a request.
    pub fn size_align(layout: Layout) -> (adjusted: (usize, usize))
        ensures
            adjusted.0 == adjusted_size(layout),
            adjusted.1 == adjusted_align(layout),
    {
        proof {
            use_type_invariant(&layout);
            lemma_adjusted(layout);
        }
        let align: usize = if layout.align() > NODE_ALIGN {
            layout.align()
        } else {
            NODE_ALIGN
        };
        let remainder: usize = layout.size() % align;
        proof {
            vstd::arithmetic::div_mod::lemma_mod_decreases(layout.size() as nat, align as nat);
        }
        let padded: usize = if remainder == 0 {
            layout.size()
        } else {
            layout.size() - remainder + align
        };
        let size: usize = if padded > NODE_SIZE {
            padded
        } else {
            NODE_SIZE
        };
        (size, align)
    }

    /// Serves a request from the first region of the chain that hosts it.
    ///
    /// The request fails, and nothing changes, where no region hosts it; so it does where
    /// every free region is smaller than the request.
    pub fn allocate(&mut self, layout: Layout) -> (result: Option<usize>)
        requires
            old(self).wf(),
        ensures
            final(self).wf(),
            old(self)@.allocates(layout, final(self)@, result),
            result matches Some(addr) ==> {
                &&& addr as int % (layout.align() as int) == 0
                &&& final(self)@.heap_start <= addr
                &&& addr + layout.size() <= final(self)@.heap_end
                &&& !old(self)@.allocated.contains_key(addr as int)
            },
            (forall|i: int|
                0 <= i < old(self)@.free.len() ==> (#[trigger] old(self)@.free[i]).size
                    < layout.size()) ==> result is None,
    {
        proof {
            use_type_invariant(&layout);
            lemma_adjusted(layout);
            if forall|i: int|
                0 <= i < self@.free.len() ==> (#[trigger] self@.free[i]).size < layout.size() {
                self@.lemma_oversized(layout);
            }
        }
        let (size, align) = Self::size_align(layout);
        match self.find_region(size, align) {
            Some((region, alloc_start)) => {
                let ghost i = choose|i: int|
                    #![trigger old(self)@.free[i]]
                    {
                        &&& old(self)@.is_first_fit(size as int, align as int, i)
                        &&& region == old(self)@.free[i]
                        &&& alloc_start == round_up(region.start as int, align as int)
                        &&& self@ == old(self)@.unlink(i)
                    };
                proof {
                    old(self)@.lemma_take(i, layout);
                    lemma_round_up(region.start as int, align as int);
                    assert(old(self)@.region_ok(region));
                }
                let alloc_end: usize = alloc_start + size;
                let excess_size: usize = region.end_addr() - alloc_end;
                if excess_size > 0 {
                    proof {
                        lemma_aligned_to_divisor(alloc_start as int, align as int, NODE_ALIGN as int);
                    }
                    self.add_free_region(alloc_end, excess_size);
                }
                self.allocated = Ghost(self.allocated@.insert(alloc_start as int, layout));
                assert(self@ == old(self)@.take(i, layout));
                Some(alloc_start)
            },
            None => None,
        }
    }

    /// Takes back the block that `allocate` handed out at `ptr` for `layout`. It becomes
    /// the head of the chain and is merged with no neighbour.
    pub fn deallocate(&mut self, ptr: usize, layout: Layout)
        requires
            old(self).wf(),
            old(self)@.allocated.contains_pair(ptr as int, layout),
        ensures
            final(self).wf(),
            final(self)@ == old(self)@.release(ptr as int, layout),
    {
        proof {
            assert(self@.allocated.contains_key(ptr as int));
            assert(self@.block_ok(ptr as int, layout));
            lemma_adjusted(layout);
            lemma_aligned_to_divisor(ptr as int, adjusted_align(layout), NODE_ALIGN as int);
            self@.lemma_release(ptr as int, layout);
        }
        let (size, _) = Self::size_align(layout);
        self.add_free_region(ptr, size);
        self.allocated = Ghost(self.allocated@.remove(ptr as int));
        assert(self@ == old(self)@.release(ptr as int, layout));
    }
}

impl AllocationStrategy for LinkedListAllocator {
    open spec fn consistent(&self) -> bool {
        self.wf()
    }

    open spec fn is_fresh(&self) -> bool {
        self@ == FreeListView::empty()
    }

    open spec fn takes_heap(heap_start: usize, heap_size: usize) -> bool {
        &&& heap_start as int % (NODE_ALIGN as int) == 0
        &&& heap_size >= NODE_SIZE
        &&& heap_start + heap_size <= usize::MAX
    }

    open spec fn heap_start(&self) -> int {
        self@.heap_start
    }

    open spec fn heap_end(&self) -> int {
        self@.heap_end
    }

    open spec fn is_allocated(&self, addr: int, layout: Layout) -> bool {
        self@.allocated.contains_pair(addr, layout)
    }

    fn init(&mut self, heap_start: usize, heap_size: usize)
        ensures
            final(self)@ == FreeListView::fresh(heap_start, heap_size),
    {
        LinkedListAllocator::init(self, heap_start, heap_size)
    }

    fn allocate(&mut self, layout: Layout) -> (result: Option<usize>)
        ensures
            old(self)@.allocates(layout, final(self)@, result),
    {
        proof {
            use_type_invariant(&layout);
        }
        let result = LinkedListAllocator::allocate(self, layout);
        proof {
            old(self)@.lemma_allocates(layout, self@, result);
        }
        result
    }

    fn deallocate(&mut self, ptr: usize, layout: Layout)
        ensures
            final(self)@ == old(self)@.release(ptr as int, layout),
    {
        LinkedListAllocator::deallocate(self, ptr, layout)
    }

    proof fn lemma_blocks_apart(&self, a: int, a_layout: Layout, b: int, b_layout: Layout) {
        assert(self@.allocated.contains_key(a));
        assert(self@.allocated.contains_key(b));
        self@.lemma_blocks_disjoint(a, b);
        assert(self@.block_ok(a, a_layout));
        lemma_adjusted(a_layout);
        lemma_aligned_to_divisor(a, adjusted_align(a_layout), a_layout.align() as int);
    }
}

} // verus!
