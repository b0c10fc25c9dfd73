//! Setting up the heap: which pages are mapped, in which order, and how it ends.
//!
//! A page is mapped by whoever owns the page tables, and backed by a frame from whoever
//! owns the frames. `HeapMapper` keeps neither. It says what is to be done next, is told
//! how that went, and decides how to go on.

use crate::memory::{
    frames_from, lemma_frames_from, lemma_frames_from_len, PhysicalFrame, FRAME_SIZE,
};
use vstd::arithmetic::div_mod::{
    lemma_fundamental_div_mod, lemma_mod_decreases, lemma_mod_multiples_basic,
};
use vstd::prelude::*;

verus! {

/// Bytes in a page: as many as in a frame.
pub const PAGE_SIZE: u64 = FRAME_SIZE;

/// Why a page could not be mapped.
#[derive(Clone, Copy, Debug, PartialEq, Eq)]
pub enum MapToError {
    /// A frame was needed, and there was none.
    FrameAllocationFailed,
    /// The page is part of a huge page that is mapped already.
    ParentEntryHugePage,
    /// The page is mapped already, to this frame.
    PageAlreadyMapped(PhysicalFrame),
}

/// How a page is mapped.
#[derive(Clone, Copy, Debug, PartialEq, Eq)]
pub struct PageTableFlags {
    pub present: bool,
    pub writable: bool,
}

/// What the mapper is told.
#[derive(Clone, Copy, Debug, PartialEq, Eq)]
pub enum HeapInitEvent {
    /// Nothing has happened yet.
    Start,
    /// The frame that was asked for, or that there is none left.
    FrameAllocated(Option<PhysicalFrame>),
    /// How the mapping of the page went.
    PageMapped(Result<(), MapToError>),
}

/// What the mapper asks for.
#[derive(Clone, Copy, Debug, PartialEq, Eq)]
pub enum HeapInitAction {
    /// Ask the frame supplier for a frame, and tell with `FrameAllocated`.
    AllocateFrame,
    /// Map the page that starts at `page` to `frame`, and tell with `PageMapped`.
    MapPage { page: u64, frame: PhysicalFrame, flags: PageTableFlags },
    /// Nothing is left to do. With `Ok((heap_start, heap_size))`, every page is mapped,
    /// and the allocation strategy is to be set up on that heap. With `Err`, it is not to
    /// be set up.
    Finish(Result<(usize, usize), MapToError>),
}

/// How far the mapper has come.
#[derive(Clone, Copy, Debug, PartialEq, Eq)]
pub enum HeapInitPhase {
    /// A frame for the next page is asked for.
    AwaitingFrame,
    /// The next page is being mapped to this frame.
    AwaitingMapping(PhysicalFrame),
    /// Every page is mapped.
    Ready,
    /// A frame was missing, or a page could not be mapped.
    Failed(MapToError),
}

/// The addresses of the pages that cover the heap `[heap_start, heap_start + heap_size)`,
/// in ascending order.
pub open spec fn heap_pages(heap_start: int, heap_size: int) -> Seq<int> {
    if heap_size <= 0 {
        Seq::empty()
    } else {
        frames_from(heap_start - heap_start % (PAGE_SIZE as int), heap_start + heap_size)
    }
}

/// The state of the mapper.
pub struct HeapMapperView {
    /// The first address of the heap.
    pub heap_start: usize,
    /// The size of the heap in bytes.
    pub heap_size: usize,
    /// How many pages are mapped. They are the first of `pages()`.
    pub mapped: nat,
    /// How far the mapper has come.
    pub phase: HeapInitPhase,
}

impl HeapMapperView {
    /// The pages to map, in the order in which they are mapped.
    pub open spec fn pages(self) -> Seq<int> {
        heap_pages(self.heap_start as int, self.heap_size as int)
    }

    /// The state in which the mapper starts: no page is mapped yet.
    pub open spec fn start(heap_start: usize, heap_size: usize) -> HeapMapperView {
        HeapMapperView {
            heap_start,
            heap_size,
            mapped: 0,
            phase: if heap_pages(heap_start as int, heap_size as int).len() == 0 {
                HeapInitPhase::Ready
            } else {
                HeapInitPhase::AwaitingFrame
            },
        }
    }

    /// The mapping that is asked for while the mapper waits for it: of the first page
    /// that is not mapped yet, present and writable.
    pub open spec fn mapping(self, frame: PhysicalFrame) -> HeapInitAction {
        HeapInitAction::MapPage {
            page: self.pages()[self.mapped as int] as u64,
            frame,
            flags: PageTableFlags { present: true, writable: true },
        }
    }

    /// The state and the request that follow when the mapper is told `event`.
    ///
    /// The pages are mapped one by one in ascending order, each to a frame that is asked
    /// for just before. A missing frame or a failed mapping ends it at once with that
    /// error; the mapping of the last page ends it with the heap. Once it has ended,
    /// nothing changes any more. An event that does not tell what was asked for changes
    /// nothing either: the request is made again.
    pub open spec fn step(self, event: HeapInitEvent) -> (HeapMapperView, HeapInitAction) {
        match self.phase {
            HeapInitPhase::Ready => (
                self,
                HeapInitAction::Finish(Ok((self.heap_start, self.heap_size))),
            ),
            HeapInitPhase::Failed(error) => (self, HeapInitAction::Finish(Err(error))),
            HeapInitPhase::AwaitingFrame => match event {
                HeapInitEvent::FrameAllocated(Some(frame)) => (
                    HeapMapperView { phase: HeapInitPhase::AwaitingMapping(frame), ..self },
                    self.mapping(frame),
                ),
                HeapInitEvent::FrameAllocated(None) => (
                    HeapMapperView {
                        phase: HeapInitPhase::Failed(MapToError::FrameAllocationFailed),
                        ..self
                    },
                    HeapInitAction::Finish(Err(MapToError::FrameAllocationFailed)),
                ),
                _ => (self, HeapInitAction::AllocateFrame),
            },
            HeapInitPhase::AwaitingMapping(frame) => match event {
                HeapInitEvent::PageMapped(Ok(())) => if self.mapped + 1 == self.pages().len() {
                    (
                        HeapMapperView {
                            mapped: self.mapped + 1,
                            phase: HeapInitPhase::Ready,
                            ..self
                        },
                        HeapInitAction::Finish(Ok((self.heap_start, self.heap_size))),
                    )
                } else {
                    (
                        HeapMapperView {
                            mapped: self.mapped + 1,
                            phase: HeapInitPhase::AwaitingFrame,
                            ..self
                        },
                        HeapInitAction::AllocateFrame,
                    )
                },
                HeapInitEvent::PageMapped(Err(error)) => (
                    HeapMapperView { phase: HeapInitPhase::Failed(error), ..self },
                    HeapInitAction::Finish(Err(error)),
                ),
                _ => (self, self.mapping(frame)),
            },
        }
    }

    /// Whether the state can be reached: the heap fits in the address space, the mapper
    /// is ready exactly when every page is mapped, and while it works a page is left.
    pub open spec fn wf(self) -> bool {
        &&& self.heap_start + self.heap_size <= usize::MAX
        &&& self.mapped <= self.pages().len()
        &&& match self.phase {
            HeapInitPhase::AwaitingFrame => self.mapped < self.pages().len(),
            HeapInitPhase::AwaitingMapping(_) => self.mapped < self.pages().len(),
            HeapInitPhase::Ready => self.mapped == self.pages().len(),
            HeapInitPhase::Failed(_) => true,
        }
    }

    /// The mapper asks for the set-up of the strategy only when every page is mapped,
    /// and after a failure never.
    pub proof fn lemma_finish(self, event: HeapInitEvent)
        requires
            self.wf(),
        ensures
            self.step(event).0.wf(),
            self.step(event).1 matches HeapInitAction::Finish(Ok(heap)) ==> heap == (
                self.heap_start,
                self.heap_size,
            ) && self.step(event).0.mapped == self.pages().len() && self.step(event).0.phase
                is Ready,
            self.phase is Failed ==> self.step(event) == (
                self,
                HeapInitAction::Finish(Err::<(usize, usize), MapToError>(self.phase->Failed_0)),
            ),
            self.step(event).1 matches HeapInitAction::MapPage { page, .. } ==> page
                == self.pages()[self.mapped as int] && self.step(event).0.mapped == self.mapped,
            self.mapped <= self.step(event).0.mapped <= self.mapped + 1,
    {
        self.lemma_pages(self.mapped as int);
    }

    /// The state after the next page got the frame `frame` and was mapped to it.
    pub open spec fn map_next(self, frame: PhysicalFrame) -> HeapMapperView {
        self.step(HeapInitEvent::FrameAllocated(Some(frame))).0.step(
            HeapInitEvent::PageMapped(Ok(())),
        ).0
    }

    /// The state after one page after the other got a frame of `frames` and was mapped
    /// to it.
    pub open spec fn map_all(self, frames: Seq<PhysicalFrame>) -> HeapMapperView
        decreases frames.len(),
    {
        if frames.len() == 0 {
            self
        } else {
            self.map_all(frames.drop_last()).map_next(frames.last())
        }
    }

    /// As long as frames come and mappings succeed, the pages of the heap are mapped in
    /// ascending order, each once and each present and writable. When the last is
    /// mapped, and not before, the mapper is ready and names the heap for the strategy.
    pub proof fn lemma_maps_in_order(
        heap_start: usize,
        heap_size: usize,
        frames: Seq<PhysicalFrame>,
        next: PhysicalFrame,
        event: HeapInitEvent,
    )
        requires
            heap_start + heap_size <= usize::MAX,
            frames.len() <= heap_pages(heap_start as int, heap_size as int).len(),
        ensures
            ({
                let pages = heap_pages(heap_start as int, heap_size as int);
                let state = Self::start(heap_start, heap_size).map_all(frames);
                &&& state.wf()
                &&& state.heap_start == heap_start
                &&& state.heap_size == heap_size
                &&& state.mapped == frames.len()
                &&& frames.len() < pages.len() ==> state.phase is AwaitingFrame && state.step(
                    HeapInitEvent::FrameAllocated(Some(next)),
                ).1 == (HeapInitAction::MapPage {
                    page: pages[frames.len() as int] as u64,
                    frame: next,
                    flags: PageTableFlags { present: true, writable: true },
                })
                &&& frames.len() == pages.len() ==> state.phase is Ready && state.step(event).1
                    == HeapInitAction::Finish(Ok((heap_start, heap_size)))
            }),
        decreases frames.len(),
    {
        let first = Self::start(heap_start, heap_size);
        first.lemma_pages(frames.len() as int);
        if frames.len() > 0 {
            Self::lemma_maps_in_order(heap_start, heap_size, frames.drop_last(), next, event);
            let before = first.map_all(frames.drop_last());
            let got = before.step(HeapInitEvent::FrameAllocated(Some(frames.last()))).0;
            before.lemma_finish(HeapInitEvent::FrameAllocated(Some(frames.last())));
            got.lemma_finish(HeapInitEvent::PageMapped(Ok(())));
            assert(first.map_all(frames) == got.step(HeapInitEvent::PageMapped(Ok(()))).0);
        }
    }

    /// Page `k` of the heap lies `k` pages behind the first, starts at a multiple of
    /// `PAGE_SIZE`, and holds a byte of the heap.
    pub proof fn lemma_pages(self, k: int)
        requires
            self.heap_start + self.heap_size <= usize::MAX,
        ensures
            0 <= k < self.pages().len() ==> {
                &&& self.pages()[k] == self.pages()[0] + PAGE_SIZE * k
                &&& self.pages()[0] == self.heap_start - self.heap_start % (PAGE_SIZE as usize)
                &&& self.pages()[k] < self.heap_start + self.heap_size
                &&& self.heap_start < self.pages()[k] + PAGE_SIZE
                &&& self.pages()[k] % (PAGE_SIZE as int) == 0
                &&& 0 <= self.pages()[k] <= u64::MAX
            },
            0 <= k && self.heap_size > 0 && self.heap_start - self.heap_start % (
            PAGE_SIZE as usize) + PAGE_SIZE * k < self.heap_start + self.heap_size ==> k
                < self.pages().len(),
    {
        let first = self.heap_start - self.heap_start % (PAGE_SIZE as usize);
        let end = self.heap_start + self.heap_size;
        lemma_mod_decreases(self.heap_start as nat, PAGE_SIZE as nat);
        if 0 <= k < self.pages().len() {
            lemma_frames_from(first, end, k);
            lemma_frames_from(first, end, 0);
            assert(PAGE_SIZE * k >= 0) by (nonlinear_arith)
                requires
                    k >= 0,
            ;
            lemma_fundamental_div_mod(self.heap_start as int, PAGE_SIZE as int);
            let q = self.heap_start as int / (PAGE_SIZE as int);
            assert(first + PAGE_SIZE * k == (q + k) * PAGE_SIZE) by (nonlinear_arith)
                requires
                    first == PAGE_SIZE * q,
            ;
            lemma_mod_multiples_basic(q + k, PAGE_SIZE as int);
        }
        if 0 <= k && self.heap_size > 0 && first + PAGE_SIZE * k < end {
            lemma_frames_from_len(first, end, k);
        }
    }
}

/// The mapper of the heap.
pub struct HeapMapper {
    heap_start: usize,
    heap_size: usize,
    page: u64,
    mapped: Ghost<nat>,
    phase: HeapInitPhase,
}

impl View for HeapMapper {
    type V = HeapMapperView;

    closed spec fn view(&self) -> HeapMapperView {
        HeapMapperView {
            heap_start: self.heap_start,
            heap_size: self.heap_size,
            mapped: self.mapped@,
            phase: self.phase,
        }
    }
}

impl HeapMapper {
    /// What holds of every mapper: its state can be reached, and while it works it knows
    /// the address of the page that is mapped next.
    #[verifier::type_invariant]
    spec fn well_formed(self) -> bool {
        &&& self@.wf()
        &&& (self.phase is AwaitingFrame || self.phase is AwaitingMapping) ==> self.page
            == self@.pages()[self.mapped@ as int]
    }

    /// A mapper for the heap `[heap_start, heap_start + heap_size)`.
    pub fn new(heap_start: usize, heap_size: usize) -> (mapper: Self)
        requires
            heap_start + heap_size <= usize::MAX,
        ensures
            mapper@ == HeapMapperView::start(heap_start, heap_size),
            mapper@.wf(),
    {
        let ghost view = HeapMapperView::start(heap_start, heap_size);
        proof {
            view.lemma_pages(0);
            lemma_mod_decreases(heap_start as nat, PAGE_SIZE as nat);
        }
        let start: u64 = heap_start as u64;
        let page: u64 = start - start % PAGE_SIZE;
        let phase = if heap_size == 0 {
            HeapInitPhase::Ready
        } else {
            HeapInitPhase::AwaitingFrame
        };
        HeapMapper { heap_start, heap_size, page, mapped: Ghost(0), phase }
    }

    /// Takes `event` and says what is to be done next.
    pub fn step(&mut self, event: HeapInitEvent) -> (action: HeapInitAction)
        ensures
            final(self)@ == old(self)@.step(event).0,
            action == old(self)@.step(event).1,
            old(self)@.wf(),
            final(self)@.wf(),
    {
        proof {
            use_type_invariant(&*self);
            self@.lemma_pages(self.mapped@ as int);
            self@.lemma_pages(self.mapped@ as int + 1);
            assert(PAGE_SIZE * (self.mapped@ + 1) == PAGE_SIZE * self.mapped@ + PAGE_SIZE)
                by (nonlinear_arith);
        }
        let flags = PageTableFlags { present: true, writable: true };
        match self.phase {
            HeapInitPhase::Ready => HeapInitAction::Finish(Ok((self.heap_start, self.heap_size))),
            HeapInitPhase::Failed(error) => HeapInitAction::Finish(Err(error)),
            HeapInitPhase::AwaitingFrame => match event {
                HeapInitEvent::FrameAllocated(Some(frame)) => {
                    self.phase = HeapInitPhase::AwaitingMapping(frame);
                    HeapInitAction::MapPage { page: self.page, frame, flags }
                },
                HeapInitEvent::FrameAllocated(None) => {
                    self.phase = HeapInitPhase::Failed(MapToError::FrameAllocationFailed);
                    HeapInitAction::Finish(Err(MapToError::FrameAllocationFailed))
                },
                _ => HeapInitAction::AllocateFrame,
            },
            HeapInitPhase::AwaitingMapping(frame) => match event {
                HeapInitEvent::PageMapped(Ok(())) => {
                    let end: u64 = self.heap_start as u64 + self.heap_size as u64;
                    let next: Option<u64> = self.page.checked_add(PAGE_SIZE);
                    match next {
                        Some(page) if page < end => {
                            *self = HeapMapper {
                                heap_start: self.heap_start,
                                heap_size: self.heap_size,
                                page,
                                mapped: Ghost((self.mapped@ + 1) as nat),
                                phase: HeapInitPhase::AwaitingFrame,
                            };
                            HeapInitAction::AllocateFrame
                        },
                        _ => {
                            *self = HeapMapper {
                                heap_start: self.heap_start,
                                heap_size: self.heap_size,
                                page: self.page,
                                mapped: Ghost((self.mapped@ + 1) as nat),
                                phase: HeapInitPhase::Ready,
                            };
                            HeapInitAction::Finish(Ok((self.heap_start, self.heap_size)))
                        },
                    }
                },
                HeapInitEvent::PageMapped(Err(error)) => {
                    self.phase = HeapInitPhase::Failed(error);
                    HeapInitAction::Finish(Err(error))
                },
                _ => HeapInitAction::MapPage { page: self.page, frame, flags },
            },
        }
    }
}

} // verus!
