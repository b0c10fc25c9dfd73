//! Allocation requests: a size and a power-of-two alignment.

use vstd::arithmetic::div_mod::lemma_mod_decreases;
use vstd::arithmetic::power2::is_pow2;
use vstd::layout::valid_layout;
use vstd::prelude::*;

verus! {

/// Why a size and an alignment do not make a layout.
#[derive(Clone, Copy, Debug, PartialEq, Eq)]
pub struct LayoutError;

/// A request for `size` bytes at an address that is a multiple of `align`.
///
/// Every value of this type is valid: `align` is a power of two, and `size` rounded up
/// to a multiple of `align` does not exceed `isize::MAX`.
#[derive(Clone, Copy, Debug)]
pub struct Layout {
    size: usize,
    align: usize,
}

/// Tells whether `n` is a power of two.
pub fn is_power_of_two(n: usize) -> (b: bool)
    ensures
        b == is_pow2(n as int),
{
    proof {
        lemma_single_bit(n as u64);
    }
    n != 0 && n & (n - 1) == 0
}

/// A positive number is a power of two exactly when it shares no bit with its predecessor.
proof fn lemma_single_bit(n: u64)
    ensures
        is_pow2(n as int) <==> (n != 0 && n & ((n - 1) as u64) == 0),
    decreases n,
{
    reveal(is_pow2);
    if n >= 2 {
        if n % 2 == 0 {
            let h: u64 = n / 2;
            lemma_single_bit(h);
            assert((n & ((n - 1) as u64) == 0) <==> (h & ((h - 1) as u64) == 0)) by (bit_vector)
                requires
                    n >= 2,
                    n % 2 == 0,
                    h == n / 2,
            ;
        } else {
            assert(n & ((n - 1) as u64) != 0) by (bit_vector)
                requires
                    n >= 2,
                    n % 2 != 0,
            ;
        }
    } else if n == 1 {
        assert(1u64 & ((1u64 - 1) as u64) == 0) by (bit_vector);
    }
}

impl Layout {
    /// The requested number of bytes, in specifications.
    pub closed spec fn spec_size(&self) -> usize {
        self.size
    }

    /// The requested alignment, in specifications.
    pub closed spec fn spec_align(&self) -> usize {
        self.align
    }

    /// The layout of `size` bytes aligned to `align`, in specifications.
    pub closed spec fn spec_new(size: usize, align: usize) -> Layout {
        Layout { size, align }
    }

    /// What holds of every layout.
    #[verifier::type_invariant]
    pub open spec fn valid(self) -> bool {
        valid_layout(self.spec_size(), self.spec_align())
    }

    /// Makes a layout of `size` bytes aligned to `align`, if the pair is valid.
    pub fn from_size_align(size: usize, align: usize) -> (r: Result<Layout, LayoutError>)
        ensures
            r is Ok <==> valid_layout(size, align),
            r matches Ok(l) ==> l == Layout::spec_new(size, align) && l.size() == size
                && l.align() == align,
    {
        if !is_power_of_two(align) {
            return Err(LayoutError);
        }
        let max: usize = isize::MAX as usize;
        proof {
            reveal(is_pow2);
            lemma_mod_decreases(max as nat, align as nat);
        }
        if size > max - (max % align) {
            return Err(LayoutError);
        }
        Ok(Layout { size, align })
    }

    /// The requested number of bytes.
    #[verifier::when_used_as_spec(spec_size)]
    pub fn size(&self) -> (s: usize)
        ensures
            s == self.spec_size(),
    {
        self.size
    }

    /// The requested alignment.
    #[verifier::when_used_as_spec(spec_align)]
    pub fn align(&self) -> (a: usize)
        ensures
            a == self.spec_align(),
    {
        self.align
    }

    /// The size and the alignment of the layout that is made of them.
    pub proof fn lemma_spec_new_parts(size: usize, align: usize)
        ensures
            Layout::spec_new(size, align).size() == size,
            Layout::spec_new(size, align).align() == align,
    {
    }

    /// A valid layout has a positive alignment and a size within `isize::MAX`.
    pub proof fn lemma_valid(self)
        requires
            self.valid(),
        ensures
            is_pow2(self.align() as int),
            self.align() > 0,
            self.size() <= isize::MAX,
    {
        reveal(is_pow2);
    }
}

} // verus!
