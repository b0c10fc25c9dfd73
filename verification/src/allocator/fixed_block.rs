//! The fixed-block strategy: one chain of free blocks for each size of a fixed table, and
//! a free-list strategy behind them for what the chains cannot serve.
//!
//! A request goes to the class of the smallest blocks that hold it. The head of the
//! chain of that class serves it; where the chain is empty, the free-list strategy
//! supplies a block of the class. A block that comes back becomes the head of the chain
//! of its class, and stays there: once the chains are filled, requests and returns take
//! no search. Requests that no class holds go to the free-list strategy as they are.

use crate::allocator::layout::Layout;
use crate::allocator::linked_list::{
    adjusted_align, adjusted_size, lemma_adjusted, FreeListView, LinkedListAllocator, NODE_ALIGN,
    NODE_SIZE,
};
use crate::allocator::{
    lemma_aligned_to_divisor, lemma_pow2_divides, ranges_disjoint, AllocationStrategy,
};
use vstd::arithmetic::div_mod::lemma_mod_bound;
use vstd::arithmetic::power2::is_pow2;
use vstd::layout::valid_layout;
use vstd::prelude::*;

verus! {

/// The block sizes, in ascending order. Each is a power of two, and is also the alignment
/// of the blocks of its class. A free block holds the link to the next block of its
/// chain, so no class is smaller than a link.
pub const BLOCK_SIZES: [usize; 10] = [8, 16, 32, 64, 128, 256, 512, 1024, 2048, 4096];

/// Bytes that the link of a free block needs.
pub const LINK_SIZE: usize = 8;

/// The size that a block must have to serve `layout`: the size or the alignment,
/// whichever is greater.
pub open spec fn required_block_size(layout: Layout) -> int {
    if layout.size() >= layout.align() {
        layout.size() as int
    } else {
        layout.align() as int
    }
}

/// Whether class `i` is the smallest whose blocks hold `required` bytes.
pub open spec fn is_class_of(required: int, i: int) -> bool {
    &&& 0 <= i < BLOCK_SIZES.len()
    &&& BLOCK_SIZES[i] >= required
    &&& forall|j: int| 0 <= j < i ==> #[trigger] BLOCK_SIZES[j] < required
}

/// The class that serves `layout`, if there is one.
pub open spec fn class_index(layout: Layout) -> Option<int> {
    let required = required_block_size(layout);
    if exists|i: int| is_class_of(required, i) {
        Some(choose|i: int| is_class_of(required, i))
    } else {
        None
    }
}

/// The layout of the blocks of class `i`.
pub open spec fn block_layout(i: int) -> Layout {
    Layout::spec_new(BLOCK_SIZES[i], BLOCK_SIZES[i])
}

/// The layout under which the free-list strategy behind the chains knows a block that
/// serves `layout`.
pub open spec fn backing_layout(layout: Layout) -> Layout {
    match class_index(layout) {
        Some(i) => block_layout(i),
        None => layout,
    }
}

/// The class of a layout is the one that `is_class_of` describes.
pub proof fn lemma_class_index(layout: Layout, i: int)
    requires
        is_class_of(required_block_size(layout), i),
    ensures
        class_index(layout) == Some(i),
{
    let required = required_block_size(layout);
    let c = choose|c: int| is_class_of(required, c);
    if c < i {
        assert(BLOCK_SIZES[c] < required);
    } else if i < c {
        assert(BLOCK_SIZES[i] < required);
    }
}

/// A layout has a class exactly when the largest block holds it.
pub proof fn lemma_class_exists(layout: Layout)
    ensures
        class_index(layout) is Some <==> required_block_size(layout) <= 4096,
        class_index(layout) matches Some(i) ==> is_class_of(required_block_size(layout), i),
{
    let required = required_block_size(layout);
    if required <= 4096 {
        let i: int = if required <= 8 {
            0
        } else if required <= 16 {
            1
        } else if required <= 32 {
            2
        } else if required <= 64 {
            3
        } else if required <= 128 {
            4
        } else if required <= 256 {
            5
        } else if required <= 512 {
            6
        } else if required <= 1024 {
            7
        } else if required <= 2048 {
            8
        } else {
            9
        };
        assert(is_class_of(required, i));
    }
}

/// The blocks of a class have a valid layout, which the free-list strategy leaves as it
/// is, but for the size of the smallest class.
pub proof fn lemma_block_layout(i: int)
    requires
        0 <= i < BLOCK_SIZES.len(),
    ensures
        is_pow2(BLOCK_SIZES[i] as int),
        valid_layout(BLOCK_SIZES[i], BLOCK_SIZES[i]),
        block_layout(i).valid(),
        block_layout(i).size() == BLOCK_SIZES[i],
        block_layout(i).align() == BLOCK_SIZES[i],
        adjusted_align(block_layout(i)) == BLOCK_SIZES[i],
        adjusted_size(block_layout(i)) >= BLOCK_SIZES[i],
        LINK_SIZE <= BLOCK_SIZES[i],
{
    let size = BLOCK_SIZES[i];
    Layout::lemma_spec_new_parts(size, size);
    assert(is_pow2(size as int)) by {
        reveal_with_fuel(is_pow2, 14);
    }
    lemma_mod_bound(isize::MAX as int, size as int);
    lemma_adjusted(block_layout(i));
}

/// A block of the class of a layout serves it: it is large enough, and its address is a
/// multiple of the alignment.
pub proof fn lemma_class_serves(layout: Layout, i: int, addr: int)
    requires
        layout.valid(),
        class_index(layout) == Some(i),
        addr % (BLOCK_SIZES[i] as int) == 0,
    ensures
        0 <= i < BLOCK_SIZES.len(),
        layout.size() <= BLOCK_SIZES[i],
        addr % (layout.align() as int) == 0,
{
    lemma_class_exists(layout);
    lemma_block_layout(i);
    layout.lemma_valid();
    lemma_pow2_divides(layout.align() as int, BLOCK_SIZES[i] as int);
    lemma_aligned_to_divisor(addr, BLOCK_SIZES[i] as int, layout.align() as int);
}

/// The state of the fixed-block strategy.
#[verifier::ext_equal]
pub struct FixedBlockView {
    /// The chain of free blocks of each class, by address: the head comes first.
    pub heads: Seq<Seq<usize>>,
    /// The free-list strategy behind the chains.
    pub fallback: FreeListView,
    /// The blocks handed out and not yet returned, each under its address.
    pub allocated: Map<int, Layout>,
}

impl FixedBlockView {
    /// The state before any heap is set up.
    pub open spec fn empty() -> FixedBlockView {
        FixedBlockView {
            heads: Seq::new(BLOCK_SIZES.len() as nat, |i: int| Seq::empty()),
            fallback: FreeListView::empty(),
            allocated: Map::empty(),
        }
    }

    /// The state right after the heap `[heap_start, heap_start + heap_size)` is set up.
    pub open spec fn fresh(heap_start: usize, heap_size: usize) -> FixedBlockView {
        FixedBlockView { fallback: FreeListView::fresh(heap_start, heap_size), ..Self::empty() }
    }

    /// Whether `j` is a place in chain `i`.
    pub open spec fn in_chain(self, i: int, j: int) -> bool {
        0 <= i < self.heads.len() && 0 <= j < self.heads[i].len()
    }

    /// The invariant of the strategy. The free-list strategy behind the chains keeps its
    /// own. To it every block of a chain is an outstanding block of that class, and every
    /// block handed out is an outstanding block of the class of its layout, or of that
    /// layout where it has no class. No block stands in the chains twice, and none that is
    /// handed out stands there.
    pub open spec fn wf(self) -> bool {
        &&& self.heads.len() == BLOCK_SIZES.len()
        &&& self.fallback.wf()
        &&& forall|i: int, j: int|
            self.in_chain(i, j) ==> self.fallback.allocated.contains_pair(
                #[trigger] self.heads[i][j] as int,
                block_layout(i),
            )
        &&& forall|i: int, j: int|
            self.in_chain(i, j) ==> !self.allocated.contains_key(#[trigger] self.heads[i][j] as int)
        &&& forall|i: int, j: int, k: int, l: int|
            self.in_chain(i, j) && self.in_chain(k, l) && (i != k || j != l)
                ==> #[trigger] self.heads[i][j] != #[trigger] self.heads[k][l]
        &&& forall|p: int| #[trigger]
            self.allocated.contains_key(p) ==> self.allocated[p].valid()
                && self.fallback.allocated.contains_pair(p, backing_layout(self.allocated[p]))
    }

    /// Whether a request for `layout` in this state ends in state `post` with result
    /// `result`. Where the layout has a class and the chain of the class holds a block,
    /// the head of the chain is handed out and the free-list strategy is left alone.
    /// Where the chain is empty, the free-list strategy is asked for a block of the class.
    /// Where the layout has no class, the free-list strategy is asked for the layout.
    pub open spec fn allocates(
        self,
        layout: Layout,
        post: FixedBlockView,
        result: Option<usize>,
    ) -> bool {
        &&& post.allocated == match result {
            Some(addr) => self.allocated.insert(addr as int, layout),
            None => self.allocated,
        }
        &&& match class_index(layout) {
            Some(i) => if self.heads[i].len() > 0 {
                &&& result == Some(self.heads[i][0])
                &&& post.heads == self.heads.update(i, self.heads[i].drop_first())
                &&& post.fallback == self.fallback
            } else {
                &&& self.fallback.allocates(block_layout(i), post.fallback, result)
                &&& post.heads == self.heads
            },
            None => {
                &&& self.fallback.allocates(layout, post.fallback, result)
                &&& post.heads == self.heads
            },
        }
    }

    /// The state after the block of `layout` at `addr` came back. Where the layout has a
    /// class, the block is the new head of the chain of the class; else the free-list
    /// strategy takes it back.
    pub open spec fn release(self, addr: int, layout: Layout) -> FixedBlockView {
        match class_index(layout) {
            Some(i) => FixedBlockView {
                heads: self.heads.update(i, seq![addr as usize] + self.heads[i]),
                allocated: self.allocated.remove(addr),
                ..self
            },
            None => FixedBlockView {
                fallback: self.fallback.release(addr, layout),
                allocated: self.allocated.remove(addr),
                ..self
            },
        }
    }

    /// A request keeps the invariant and the heap. A block that it hands out was not
    /// outstanding before, lies in the heap, and starts at a multiple of the requested
    /// alignment.
    pub proof fn lemma_allocates(
        self,
        layout: Layout,
        post: FixedBlockView,
        result: Option<usize>,
    )
        requires
            self.wf(),
            layout.valid(),
            self.allocates(layout, post, result),
        ensures
            post.wf(),
            post.fallback.heap_start == self.fallback.heap_start,
            post.fallback.heap_end == self.fallback.heap_end,
            match result {
                Some(addr) => {
                    &&& !self.allocated.contains_key(addr as int)
                    &&& addr as int % (layout.align() as int) == 0
                    &&& self.fallback.heap_start <= addr
                    &&& addr + layout.size() <= self.fallback.heap_end
                },
                None => post == self,
            },
    {
        lemma_class_exists(layout);
        match class_index(layout) {
            Some(i) => {
                lemma_block_layout(i);
                if self.heads[i].len() > 0 {
                    let head = self.heads[i][0];
                    assert(self.in_chain(i, 0));
                    assert(self.fallback.allocated.contains_key(head as int));
                    assert(self.fallback.block_ok(head as int, block_layout(i)));
                    lemma_class_serves(layout, i, head as int);
                    assert forall|k: int, l: int| post.in_chain(k, l) implies self.in_chain(
                        k,
                        if k == i {
                            l + 1
                        } else {
                            l
                        },
                    ) && #[trigger] post.heads[k][l] == self.heads[k][if k == i {
                        l + 1
                    } else {
                        l
                    }] by {}
                    assert forall|k: int, l: int|
                        post.in_chain(k, l) implies post.fallback.allocated.contains_pair(
                        #[trigger] post.heads[k][l] as int,
                        block_layout(k),
                    ) && !post.allocated.contains_key(post.heads[k][l] as int) by {
                        let m = if k == i {
                            l + 1
                        } else {
                            l
                        };
                        assert(self.in_chain(k, m));
                        assert(post.heads[k][l] == self.heads[k][m]);
                    }
                    assert forall|k: int, l: int, m: int, n: int|
                        post.in_chain(k, l) && post.in_chain(m, n) && (k != m || l
                            != n) implies #[trigger] post.heads[k][l] != #[trigger] post.heads[m][n] by {
                        let l0 = if k == i {
                            l + 1
                        } else {
                            l
                        };
                        let n0 = if m == i {
                            n + 1
                        } else {
                            n
                        };
                        assert(self.in_chain(k, l0));
                        assert(self.in_chain(m, n0));
                        assert(post.heads[k][l] == self.heads[k][l0]);
                        assert(post.heads[m][n] == self.heads[m][n0]);
                    }
                    assert forall|p: int| #[trigger]
                        post.allocated.contains_key(p) implies post.allocated[p].valid()
                        && post.fallback.allocated.contains_pair(
                        p,
                        backing_layout(post.allocated[p]),
                    ) by {
                        if p != head {
                            assert(self.allocated.contains_key(p));
                        }
                    }
                } else {
                    self.lemma_allocates_behind(layout, block_layout(i), post, result);
                    if let Some(addr) = result {
                        lemma_class_serves(layout, i, addr as int);
                    }
                }
            },
            None => {
                self.lemma_allocates_behind(layout, layout, post, result);
            },
        }
    }

    /// What `lemma_allocates` says, where the free-list strategy serves the request under
    /// the layout `backing`.
    proof fn lemma_allocates_behind(
        self,
        layout: Layout,
        backing: Layout,
        post: FixedBlockView,
        result: Option<usize>,
    )
        requires
            self.wf(),
            layout.valid(),
            backing.valid(),
            backing == backing_layout(layout),
            layout.size() <= adjusted_size(backing),
            self.fallback.allocates(backing, post.fallback, result),
            post.heads == self.heads,
            post.allocated == match result {
                Some(addr) => self.allocated.insert(addr as int, layout),
                None => self.allocated,
            },
        ensures
            post.wf(),
            post.fallback.heap_start == self.fallback.heap_start,
            post.fallback.heap_end == self.fallback.heap_end,
            match result {
                Some(addr) => {
                    &&& !self.allocated.contains_key(addr as int)
                    &&& addr as int % adjusted_align(backing) == 0
                    &&& addr as int % (backing.align() as int) == 0
                    &&& self.fallback.heap_start <= addr
                    &&& addr + layout.size() <= self.fallback.heap_end
                },
                None => post == self,
            },
    {
        self.fallback.lemma_allocates(backing, post.fallback, result);
        if let Some(addr) = result {
            assert forall|k: int, l: int|
                post.in_chain(k, l) implies post.fallback.allocated.contains_pair(
                #[trigger] post.heads[k][l] as int,
                block_layout(k),
            ) && !post.allocated.contains_key(post.heads[k][l] as int) by {
                assert(self.in_chain(k, l));
                assert(self.fallback.allocated.contains_key(self.heads[k][l] as int));
            }
            assert forall|p: int| #[trigger]
                post.allocated.contains_key(p) implies post.allocated[p].valid()
                && post.fallback.allocated.contains_pair(p, backing_layout(post.allocated[p])) by {
                if p != addr {
                    assert(self.allocated.contains_key(p));
                }
            }
            if self.allocated.contains_key(addr as int) {
                assert(self.fallback.allocated.contains_key(addr as int));
            }
        }
    }

    /// Taking a block back keeps the invariant.
    pub proof fn lemma_release(self, addr: int, layout: Layout)
        requires
            self.wf(),
            self.allocated.contains_pair(addr, layout),
            0 <= addr <= usize::MAX,
        ensures
            self.release(addr, layout).wf(),
    {
        let post = self.release(addr, layout);
        assert(self.allocated.contains_key(addr));
        lemma_class_exists(layout);
        match class_index(layout) {
            Some(i) => {
                assert forall|k: int, l: int| post.in_chain(k, l) implies (k == i && l == 0
                    && #[trigger] post.heads[k][l] == addr as usize) || (self.in_chain(
                    k,
                    if k == i {
                        l - 1
                    } else {
                        l
                    },
                ) && post.heads[k][l] == self.heads[k][if k == i {
                    l - 1
                } else {
                    l
                }]) by {}
                assert forall|k: int, l: int|
                    post.in_chain(k, l) implies post.fallback.allocated.contains_pair(
                    #[trigger] post.heads[k][l] as int,
                    block_layout(k),
                ) && !post.allocated.contains_key(post.heads[k][l] as int) by {
                    if !(k == i && l == 0) {
                        let m = if k == i {
                            l - 1
                        } else {
                            l
                        };
                        assert(self.in_chain(k, m));
                        assert(post.heads[k][l] == self.heads[k][m]);
                    }
                }
                assert forall|k: int, l: int, m: int, n: int|
                    post.in_chain(k, l) && post.in_chain(m, n) && (k != m || l
                        != n) implies #[trigger] post.heads[k][l] != #[trigger] post.heads[m][n] by {
                    let l0 = if k == i {
                        l - 1
                    } else {
                        l
                    };
                    let n0 = if m == i {
                        n - 1
                    } else {
                        n
                    };
                    if !(k == i && l == 0) {
                        assert(self.in_chain(k, l0));
                        assert(post.heads[k][l] == self.heads[k][l0]);
                    }
                    if !(m == i && n == 0) {
                        assert(self.in_chain(m, n0));
                        assert(post.heads[m][n] == self.heads[m][n0]);
                    }
                }
                assert forall|p: int| #[trigger]
                    post.allocated.contains_key(p) implies post.allocated[p].valid()
                    && post.fallback.allocated.contains_pair(
                    p,
                    backing_layout(post.allocated[p]),
                ) by {
                    assert(self.allocated.contains_key(p));
                }
            },
            None => {
                self.fallback.lemma_release(addr, layout);
                assert forall|k: int, l: int|
                    post.in_chain(k, l) implies post.fallback.allocated.contains_pair(
                    #[trigger] post.heads[k][l] as int,
                    block_layout(k),
                ) && !post.allocated.contains_key(post.heads[k][l] as int) by {
                    assert(self.in_chain(k, l));
                }
                assert forall|p: int| #[trigger]
                    post.allocated.contains_key(p) implies post.allocated[p].valid()
                    && post.fallback.allocated.contains_pair(
                    p,
                    backing_layout(post.allocated[p]),
                ) by {
                    assert(self.allocated.contains_key(p));
                }
            },
        }
    }

    /// No two outstanding blocks overlap.
    pub proof fn lemma_blocks_disjoint(self, p: int, q: int)
        requires
            self.wf(),
            self.allocated.contains_key(p),
            self.allocated.contains_key(q),
            p != q,
        ensures
            ranges_disjoint(
                p,
                self.allocated[p].size() as int,
                q,
                self.allocated[q].size() as int,
            ),
    {
        self.lemma_backing_holds(self.allocated[p]);
        self.lemma_backing_holds(self.allocated[q]);
        assert(self.fallback.allocated.contains_key(p));
        assert(self.fallback.allocated.contains_key(q));
    }

    /// Every block that is handed out lies in the heap, at a multiple of its alignment.
    pub proof fn lemma_block_served(self, p: int)
        requires
            self.wf(),
            self.allocated.contains_key(p),
        ensures
            p % (self.allocated[p].align() as int) == 0,
            self.fallback.heap_start <= p,
            p + self.allocated[p].size() <= self.fallback.heap_end,
    {
        let layout = self.allocated[p];
        let backing = backing_layout(layout);
        self.lemma_backing_holds(layout);
        assert(self.fallback.allocated.contains_key(p));
        assert(self.fallback.block_ok(p, backing));
        lemma_class_exists(layout);
        match class_index(layout) {
            Some(i) => {
                lemma_block_layout(i);
                lemma_class_serves(layout, i, p);
            },
            None => {
                lemma_adjusted(layout);
                lemma_aligned_to_divisor(p, adjusted_align(layout), layout.align() as int);
            },
        }
    }

    /// Every block of a chain is as large as the blocks of its class, lies in the heap,
    /// and starts at a multiple of the block size of its class.
    pub proof fn lemma_chain_block(self, i: int, j: int)
        requires
            self.wf(),
            self.in_chain(i, j),
        ensures
            self.heads[i][j] as int % (BLOCK_SIZES[i] as int) == 0,
            self.fallback.heap_start <= self.heads[i][j],
            self.heads[i][j] + BLOCK_SIZES[i] <= self.fallback.heap_end,
    {
        lemma_block_layout(i);
        assert(self.fallback.allocated.contains_key(self.heads[i][j] as int));
        assert(self.fallback.block_ok(self.heads[i][j] as int, block_layout(i)));
    }

    /// The block that backs a layout is not smaller than the layout.
    proof fn lemma_backing_holds(self, layout: Layout)
        requires
            layout.valid(),
        ensures
            layout.size() <= adjusted_size(backing_layout(layout)),
            backing_layout(layout).valid(),
    {
        lemma_class_exists(layout);
        match class_index(layout) {
            Some(i) => {
                lemma_block_layout(i);
            },
            None => {
                lemma_adjusted(layout);
            },
        }
    }

    /// The return of a block and a new request for its layout at once, where the layout
    /// has a class: the request hands out the very same block, and the state is again
    /// what it was while the block was out. The free-list strategy behind the chains is
    /// not asked.
    pub proof fn lemma_reuse(
        self,
        addr: usize,
        layout: Layout,
        post: FixedBlockView,
        result: Option<usize>,
    )
        requires
            self.wf(),
            self.allocated.contains_pair(addr as int, layout),
            class_index(layout) is Some,
            self.release(addr as int, layout).allocates(layout, post, result),
        ensures
            result == Some(addr),
            post == self,
            post.fallback == self.release(addr as int, layout).fallback,
    {
        let i = class_index(layout)->0;
        let mid = self.release(addr as int, layout);
        lemma_class_exists(layout);
        assert(mid.heads[i] =~= seq![addr] + self.heads[i]);
        assert(mid.heads[i].drop_first() =~= self.heads[i]);
        assert(post.heads =~= self.heads);
        assert(post.allocated =~= self.allocated);
    }

    /// Whether `before`, `held` and `blocks` record rounds of a request for `layout`
    /// followed at once by the return of its block: round `j` starts in `before[j]`, is
    /// handed `blocks[j]` and holds it in `held[j]`, and its return leads to the start of
    /// the next round.
    pub open spec fn is_churn(
        before: Seq<FixedBlockView>,
        held: Seq<FixedBlockView>,
        blocks: Seq<usize>,
        layout: Layout,
    ) -> bool {
        &&& before.len() == blocks.len()
        &&& held.len() == blocks.len()
        &&& forall|j: int|
            0 <= j < blocks.len() ==> (#[trigger] before[j]).allocates(
                layout,
                held[j],
                Some(blocks[j]),
            )
        &&& forall|j: int|
            0 < j < blocks.len() ==> #[trigger] before[j] == held[j - 1].release(
                blocks[j - 1] as int,
                layout,
            )
    }

    /// Steady state: in rounds of a request for a layout that has a class, each followed
    /// at once by the return of its block, every round after the first is handed the
    /// block of the first, and leaves the free-list strategy behind the chains as the
    /// first round left it.
    pub proof fn lemma_churn(
        before: Seq<FixedBlockView>,
        held: Seq<FixedBlockView>,
        blocks: Seq<usize>,
        layout: Layout,
        j: int,
    )
        requires
            layout.valid(),
            class_index(layout) is Some,
            Self::is_churn(before, held, blocks, layout),
            0 <= j < blocks.len(),
            before[0].wf(),
        ensures
            blocks[j] == blocks[0],
            held[j] == held[0],
            held[j].wf(),
            held[j].fallback == held[0].fallback,
            j >= 1 ==> before[j].fallback == held[0].fallback,
        decreases j,
    {
        if j == 0 {
            before[0].lemma_allocates(layout, held[0], Some(blocks[0]));
        } else {
            Self::lemma_churn(before, held, blocks, layout, j - 1);
            assert(before[j - 1].allocates(layout, held[j - 1], Some(blocks[j - 1])));
            assert(held[0].allocated.contains_pair(blocks[0] as int, layout));
            assert(before[j].allocates(layout, held[j], Some(blocks[j])));
            held[0].lemma_reuse(blocks[0], layout, held[j], Some(blocks[j]));
        }
    }
}

/// The class that serves `layout`, if there is one: the first of the table whose blocks
/// are not smaller than the size and the alignment.
pub fn list_index(layout: &Layout) -> (index: Option<usize>)
    ensures
        match index {
            Some(i) => class_index(*layout) == Some(i as int) && is_class_of(
                required_block_size(*layout),
                i as int,
            ),
            None => class_index(*layout) is None && required_block_size(*layout) > 4096,
        },
{
    let required: usize = if layout.size() >= layout.align() {
        layout.size()
    } else {
        layout.align()
    };
    let mut i: usize = 0;
    while i < BLOCK_SIZES.len()
        invariant
            i <= BLOCK_SIZES.len(),
            required == required_block_size(*layout),
            forall|j: int| 0 <= j < i ==> #[trigger] BLOCK_SIZES[j] < required,
        decreases BLOCK_SIZES.len() - i,
    {
        if BLOCK_SIZES[i] >= required {
            proof {
                lemma_class_index(*layout, i as int);
            }
            return Some(i);
        }
        i += 1;
    }
    proof {
        lemma_class_exists(*layout);
        assert(BLOCK_SIZES[9] < required);
    }
    None
}

/// The fixed-block strategy.
pub struct FixedBlockAllocator {
    list_heads: [Vec<usize>; 10],
    fallback_allocator: LinkedListAllocator,
    allocated: Ghost<Map<int, Layout>>,
}

impl View for FixedBlockAllocator {
    type V = FixedBlockView;

    closed spec fn view(&self) -> FixedBlockView {
        FixedBlockView {
            heads: Seq::new(BLOCK_SIZES.len() as nat, |i: int| self.list_heads@[i]@),
            fallback: self.fallback_allocator@,
            allocated: self.allocated@,
        }
    }
}

impl FixedBlockAllocator {
    /// The invariant of the strategy.
    pub open spec fn wf(&self) -> bool {
        self@.wf()
    }

    /// A strategy without a heap: every request fails until `init` is called.
    pub fn new() -> (allocator: Self)
        ensures
            allocator@ == FixedBlockView::empty(),
            allocator.wf(),
    {
        let allocator = Self {
            list_heads: [
                Vec::new(),
                Vec::new(),
                Vec::new(),
                Vec::new(),
                Vec::new(),
                Vec::new(),
                Vec::new(),
                Vec::new(),
                Vec::new(),
                Vec::new(),
            ],
            fallback_allocator: LinkedListAllocator::new(),
            allocated: Ghost(Map::empty()),
        };
        assert(allocator@.heads =~= FixedBlockView::empty().heads);
        allocator
    }

    /// Sets up the heap `[heap_start, heap_start + heap_size)`: all of it goes to the
    /// free-list strategy behind the chains.
    pub fn init(&mut self, heap_start: usize, heap_size: usize)
        requires
            old(self)@ == FixedBlockView::empty(),
            heap_start as int % (NODE_ALIGN as int) == 0,
            heap_size >= NODE_SIZE,
            heap_start + heap_size <= usize::MAX,
        ensures
            final(self)@ == FixedBlockView::fresh(heap_start, heap_size),
            final(self).wf(),
    {
        self.fallback_allocator.init(heap_start, heap_size);
        assert(self@.heads =~= old(self)@.heads);
    }

    /// The chain of free blocks of class `index`, by address: the head comes first.
    pub fn chain(&self, index: usize) -> (chain: &Vec<usize>)
        requires
            index < BLOCK_SIZES.len(),
        ensures
            chain@ == self@.heads[index as int],
    {
        &self.list_heads[index]
    }

    /// The free-list strategy behind the chains.
    pub fn fallback(&self) -> (fallback: &LinkedListAllocator)
        ensures
            fallback@ == self@.fallback,
    {
        &self.fallback_allocator
    }

    /// Asks the free-list strategy behind the chains for a block.
    fn fallback_alloc(&mut self, layout: Layout) -> (result: Option<usize>)
        requires
            old(self)@.fallback.wf(),
        ensures
            old(self)@.fallback.allocates(layout, final(self)@.fallback, result),
            final(self)@.heads == old(self)@.heads,
            final(self)@.allocated == old(self)@.allocated,
    {
        let result = self.fallback_allocator.allocate(layout);
        assert(self@.heads =~= old(self)@.heads);
        result
    }

    /// Gives a block back to the free-list strategy behind the chains.
    fn fallback_dealloc(&mut self, layout: Layout, pointer: usize)
        requires
            old(self)@.fallback.wf(),
            old(self)@.fallback.allocated.contains_pair(pointer as int, layout),
        ensures
            final(self)@.fallback == old(self)@.fallback.release(pointer as int, layout),
            final(self)@.heads == old(self)@.heads,
            final(self)@.allocated == old(self)@.allocated,
    {
        self.fallback_allocator.deallocate(pointer, layout);
        assert(self@.heads =~= old(self)@.heads);
    }

    /// Serves a request: from the chain of the class of the layout where that holds a
    /// block, else from the free-list strategy behind the chains.
    pub fn allocate(&mut self, layout: Layout) -> (result: Option<usize>)
        requires
            old(self).wf(),
        ensures
            final(self).wf(),
            old(self)@.allocates(layout, final(self)@, result),
            result matches Some(addr) ==> {
                &&& addr as int % (layout.align() as int) == 0
                &&& final(self)@.fallback.heap_start <= addr
                &&& addr + layout.size() <= final(self)@.fallback.heap_end
                &&& !old(self)@.allocated.contains_key(addr as int)
            },
    {
        proof {
            use_type_invariant(&layout);
        }
        let result = match list_index(&layout) {
            Some(index) => {
                if self.list_heads[index].len() > 0 {
                    let node = self.list_heads[index].remove(0);
                    proof {
                        let chain = old(self)@.heads[index as int];
                        assert(self.list_heads@[index as int]@ =~= chain.drop_first());
                        assert(self@.heads =~= old(self)@.heads.update(
                            index as int,
                            chain.drop_first(),
                        ));
                    }
                    Some(node)
                } else {
                    let block_size: usize = BLOCK_SIZES[index];
                    let block_align: usize = block_size;
                    proof {
                        lemma_block_layout(index as int);
                    }
                    let block = Layout::from_size_align(block_size, block_align).unwrap();
                    self.fallback_alloc(block)
                }
            },
            None => self.fallback_alloc(layout),
        };
        if let Some(addr) = result {
            self.allocated = Ghost(self.allocated@.insert(addr as int, layout));
        }
        proof {
            old(self)@.lemma_allocates(layout, self@, result);
        }
        result
    }

    /// Takes back the block that `allocate` handed out at `pointer` for `layout`: into the
    /// chain of the class of the layout, or into the free-list strategy behind the chains
    /// where the layout has no class.
    pub fn deallocate(&mut self, pointer: usize, layout: Layout)
        requires
            old(self).wf(),
            old(self)@.allocated.contains_pair(pointer as int, layout),
        ensures
            final(self).wf(),
            final(self)@ == old(self)@.release(pointer as int, layout),
    {
        proof {
            old(self)@.lemma_release(pointer as int, layout);
            assert(self@.allocated.contains_key(pointer as int));
        }
        match list_index(&layout) {
            Some(index) => {
                proof {
                    lemma_block_layout(index as int);
                }
                self.list_heads[index].insert(0, pointer);
                proof {
                    let chain = old(self)@.heads[index as int];
                    assert(self.list_heads@[index as int]@ =~= seq![pointer] + chain);
                    assert(self@.heads =~= old(self)@.heads.update(
                        index as int,
                        seq![pointer] + chain,
                    ));
                }
            },
            None => {
                self.fallback_dealloc(layout, pointer);
            },
        }
        self.allocated = Ghost(self.allocated@.remove(pointer as int));
    }
}

impl AllocationStrategy for FixedBlockAllocator {
    open spec fn consistent(&self) -> bool {
        self.wf()
    }

    open spec fn is_fresh(&self) -> bool {
        self@ == FixedBlockView::empty()
    }

    open spec fn takes_heap(heap_start: usize, heap_size: usize) -> bool {
        &&& heap_start as int % (NODE_ALIGN as int) == 0
        &&& heap_size >= NODE_SIZE
        &&& heap_start + heap_size <= usize::MAX
    }

    open spec fn heap_start(&self) -> int {
        self@.fallback.heap_start
    }

    open spec fn heap_end(&self) -> int {
        self@.fallback.heap_end
    }

    open spec fn is_allocated(&self, addr: int, layout: Layout) -> bool {
        self@.allocated.contains_pair(addr, layout)
    }

    fn init(&mut self, heap_start: usize, heap_size: usize)
        ensures
            final(self)@ == FixedBlockView::fresh(heap_start, heap_size),
    {
        FixedBlockAllocator::init(self, heap_start, heap_size)
    }

    fn allocate(&mut self, layout: Layout) -> (result: Option<usize>)
        ensures
            old(self)@.allocates(layout, final(self)@, result),
    {
        proof {
            use_type_invariant(&layout);
        }
        let result = FixedBlockAllocator::allocate(self, layout);
        proof {
            old(self)@.lemma_allocates(layout, self@, result);
        }
        result
    }

    fn deallocate(&mut self, ptr: usize, layout: Layout)
        ensures
            final(self)@ == old(self)@.release(ptr as int, layout),
    {
        FixedBlockAllocator::deallocate(self, ptr, layout);
        proof {
            lemma_class_exists(layout);
        }
    }

    proof fn lemma_blocks_apart(&self, a: int, a_layout: Layout, b: int, b_layout: Layout) {
        assert(self@.allocated.contains_key(a));
        assert(self@.allocated.contains_key(b));
        self@.lemma_blocks_disjoint(a, b);
        self@.lemma_block_served(a);
    }
}

} // verus!
