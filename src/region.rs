use vstd::prelude::*;

use vstd::string::*;

use crate::pointer::Pointer;
use crate::text::{decimal, decimal_text};

verus! {

/// A contiguous span of bytes `[ptr, ptr + size)` believed to be owned by one
/// allocation, together with the alignment it was requested with.
#[derive(Debug, Clone, Copy, PartialEq, Eq, Structural, PartialOrd, Ord, Hash)]
pub struct Region {
    /// The pointer of the allocation.
    pub ptr: Pointer,
    /// The size of the allocation.
    pub size: usize,
    /// The alignment of the allocation.
    pub align: usize,
}

impl Region {
    /// One past the last address of the span, clamped at the largest address.
    pub open spec fn end(self) -> int {
        self.ptr.0.saturating_add(self.size) as int
    }

    /// The span of `self` contains the start address of `other`.
    pub open spec fn holds_start_of(self, other: Region) -> bool {
        self.ptr.0 <= other.ptr.0 && other.ptr.0 < self.end()
    }

    /// Both regions name the same span: same start and same size.
    pub open spec fn same_span(self, other: Region) -> bool {
        self.ptr == other.ptr && self.size == other.size
    }

    /// The start address is a multiple of the region's own alignment.
    pub open spec fn is_aligned(self) -> bool {
        self.ptr.0 % self.align == 0
    }

    /// `start-end (size: S, align: A)`, all numbers in decimal.
    pub open spec fn text(self) -> Seq<char> {
        decimal_text(self.ptr.0 as nat) + "-"@ + decimal_text(self.end() as nat) + " (size: "@
            + decimal_text(self.size as nat) + ", align: "@ + decimal_text(self.align as nat) + ")"@
    }

    pub fn new(ptr: Pointer, size: usize, align: usize) -> (r: Self)
        ensures
            r == (Region { ptr, size, align }),
    {
        Self { ptr, size, align }
    }

    /// Test if this region overlaps with another region, that is whether the
    /// span of `self` contains the start of `other`.
    pub fn overlaps(self, other: Self) -> (r: bool)
        ensures
            r == self.holds_start_of(other),
    {
        self.ptr.0 <= other.ptr.0 && other.ptr.0 < self.ptr.saturating_add(self.size).0
    }

    /// Test if regions are the same (minus alignment).
    pub fn is_same_region_as(self, other: Self) -> (r: bool)
        ensures
            r == self.same_span(other),
    {
        self.ptr.0 == other.ptr.0 && self.size == other.size
    }

    /// A one-line description of the span, its size and its alignment.
    pub fn describe(self) -> (r: String)
        ensures
            r@ == self.text(),
    {
        let mut s = decimal(self.ptr.0);
        s.append("-");
        s.append(decimal(self.ptr.saturating_add(self.size).0).as_str());
        s.append(" (size: ");
        s.append(decimal(self.size).as_str());
        s.append(", align: ");
        s.append(decimal(self.align).as_str());
        s.append(")");
        s
    }
}

} // verus!
