//! Where the interrupts of the two interrupt controllers stand in the interrupt table.

use vstd::prelude::*;

verus! {

/// The place of the first interrupt of the first controller: right behind the 32
/// exceptions of the processor.
pub const PIC_1_OFFSET: u8 = 32;

/// The place of the first interrupt of the second controller.
pub const PIC_2_OFFSET: u8 = 47;

/// A hardware interrupt, known by its place in the interrupt table.
#[derive(Copy, Debug, Clone)]
pub enum InterruptIndex {
    /// The timer, on line 0 of the first controller.
    Timer,
    /// The keyboard, on line 1 of the first controller.
    Keyboard,
}

impl InterruptIndex {
    /// The place of the interrupt in the interrupt table.
    pub open spec fn index(self) -> int {
        match self {
            InterruptIndex::Timer => PIC_1_OFFSET as int,
            InterruptIndex::Keyboard => PIC_1_OFFSET + 1,
        }
    }

    /// The place of the interrupt in the interrupt table.
    pub fn as_u8(self) -> (index: u8)
        ensures
            index == self.index(),
    {
        match self {
            InterruptIndex::Timer => PIC_1_OFFSET,
            InterruptIndex::Keyboard => PIC_1_OFFSET + 1,
        }
    }

    /// The place of the interrupt in the interrupt table.
    pub fn as_usize(self) -> (index: usize)
        ensures
            index == self.index(),
    {
        self.as_u8() as usize
    }
}

} // verus!
