//! The dynamic-memory subsystem of a small kernel: the supplier of physical frames, the
//! mapper of the heap, and three allocation strategies for the heap.
//!
//! The library keeps the books on memory and never touches it: an address is a number
//! here. The frame supplier says which frame to use next, the heap mapper says which page
//! to map next, and a strategy says where a block lies. Whoever owns the page tables and
//! the memory acts on that.
//!
//! Every function is verified against its contract. The contracts speak of the state of
//! a value through its view (`@`), and the laws that hold of all states are proof
//! functions beside the views.

use vstd::prelude::*;

pub mod allocator;
pub mod interrupts;
pub mod key;
pub mod memory;
pub mod vga_buffer;

verus! {

/// A test that can be run.
pub trait Testable {
    /// Whether the test may be run.
    spec fn ready(&self) -> bool;

    /// What the test has shown when it has come back.
    spec fn passed(&self) -> bool;

    /// Runs the test. It comes back only if the test passed.
    fn run(&self)
        requires
            self.ready(),
        ensures
            self.passed(),
    ;
}

impl<T> Testable for T where T: Fn() {
    open spec fn ready(&self) -> bool {
        call_requires(*self, ())
    }

    open spec fn passed(&self) -> bool {
        call_ensures(*self, (), ())
    }

    fn run(&self) {
        self();
    }
}

/// Runs `tests` one after the other, the first first. It comes back only if all passed.
pub fn test_runner(tests: &[&dyn Testable])
    requires
        forall|i: int| 0 <= i < tests@.len() ==> (#[trigger] tests@[i]).ready(),
    ensures
        forall|i: int| 0 <= i < tests@.len() ==> (#[trigger] tests@[i]).passed(),
{
    let mut i: usize = 0;
    while i < tests.len()
        invariant
            i <= tests.len(),
            forall|j: int| 0 <= j < tests@.len() ==> (#[trigger] tests@[j]).ready(),
            forall|j: int| 0 <= j < i ==> (#[trigger] tests@[j]).passed(),
        decreases tests.len() - i,
    {
        tests[i].run();
        i += 1;
    }
}

} // verus!
