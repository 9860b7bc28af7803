use vstd::prelude::*;

verus! {

/// An address in the fake machine.
///
/// Arithmetic on pointers saturates at `usize::MAX` instead of wrapping.
#[derive(Debug, Clone, Copy, PartialEq, Eq, Structural, PartialOrd, Ord, Hash)]
pub struct Pointer(pub usize);

impl Pointer {
    /// Offset this pointer by `n` bytes, stopping at the largest address.
    pub fn saturating_add(self, n: usize) -> (r: Pointer)
        ensures
            r.0 == self.0.saturating_add(n),
    {
        Pointer(self.0.saturating_add(n))
    }

    /// Test if this pointer is a multiple of `align`.
    pub fn is_aligned_with(self, align: usize) -> (r: bool)
        requires
            align > 0,
        ensures
            r == (self.0 % align == 0),
    {
        self.0 % align == 0
    }
}

impl From<usize> for Pointer {
    fn from(addr: usize) -> (r: Pointer)
        ensures
            r.0 == addr,
    {
        Pointer(addr)
    }
}

impl vstd::std_specs::convert::FromSpecImpl<usize> for Pointer {
    open spec fn obeys_from_spec() -> bool {
        true
    }

    open spec fn from_spec(addr: usize) -> Pointer {
        Pointer(addr)
    }
}

} // verus!
