use vstd::prelude::*;

use vstd::string::*;

use crate::region::Region;

verus! {

/// A defect found while replaying an allocation history.
#[derive(Debug, Clone, Copy, PartialEq, Eq, Structural)]
pub enum Violation {
    /// A new allocation overlaps a live region.
    ConflictingAlloc { requested: Region, existing: Region },
    /// A new allocation starts at an address that violates its own alignment.
    MisalignedAlloc { requested: Region },
    /// A free names the start of a live region but not its size.
    IncompleteFree { requested: Region, existing: Region },
    /// A free matches a live region's span but not its alignment.
    MisalignedFree { requested: Region, existing: Region },
    /// A free names an address where no live region starts.
    MissingFree { requested: Region },
    /// A region that was still live when leaks were checked for.
    Leaked { region: Region },
}

/// `lead`, the description of `r`, then `tail`.
pub open spec fn framed(lead: Seq<char>, r: Region, tail: Seq<char>) -> Seq<char> {
    lead + r.text() + tail
}

fn frame(lead: &str, r: Region, tail: &str) -> (s: String)
    ensures
        s@ == framed(lead@, r, tail@),
{
    let mut s = lead.to_owned();
    s.append(r.describe().as_str());
    s.append(tail);
    s
}

impl Violation {
    /// The one-line description of the violation.
    pub open spec fn text(self) -> Seq<char> {
        match self {
            Violation::ConflictingAlloc { requested, existing } => framed(
                "Requested allocation ("@,
                requested,
                ") overlaps with existing "@,
            ) + framed("("@, existing, ")"@),
            Violation::MisalignedAlloc { requested } => framed(
                "Allocated region ("@,
                requested,
                ") is misaligned."@,
            ),
            Violation::IncompleteFree { requested, existing } => framed(
                "Freed ("@,
                requested,
                ") only part of existing region "@,
            ) + framed("("@, existing, ")"@),
            Violation::MisalignedFree { requested, existing } => framed(
                "Freed region ("@,
                requested,
                ") has different alignment from existing "@,
            ) + framed("("@, existing, ")"@),
            Violation::MissingFree { requested } => framed(
                "Freed missing region ("@,
                requested,
                ")"@,
            ),
            Violation::Leaked { region } => framed("Dangling region ("@, region, ")"@),
        }
    }

    /// A one-line human-readable description, naming the span, size and
    /// alignment of each region involved.
    pub fn describe(&self) -> (r: String)
        ensures
            r@ == self.text(),
    {
        match *self {
            Violation::ConflictingAlloc { requested, existing } => {
                let mut s = frame("Requested allocation (", requested, ") overlaps with existing ");
                s.append(frame("(", existing, ")").as_str());
                s
            },
            Violation::MisalignedAlloc { requested } => {
                frame("Allocated region (", requested, ") is misaligned.")
            },
            Violation::IncompleteFree { requested, existing } => {
                let mut s = frame("Freed (", requested, ") only part of existing region ");
                s.append(frame("(", existing, ")").as_str());
                s
            },
            Violation::MisalignedFree { requested, existing } => {
                let mut s = frame(
                    "Freed region (",
                    requested,
                    ") has different alignment from existing ",
                );
                s.append(frame("(", existing, ")").as_str());
                s
            },
            Violation::MissingFree { requested } => frame("Freed missing region (", requested, ")"),
            Violation::Leaked { region } => frame("Dangling region (", region, ")"),
        }
    }

    /// Test that this violation refers to a dangling region and that it matches
    /// the given predicate.
    pub fn is_leaked_with<F>(&self, f: F) -> (r: bool) where F: FnOnce(Region) -> bool
        requires
            *self matches Violation::Leaked { region } ==> call_requires(f, (region,)),
        ensures
            *self matches Violation::Leaked { region } ==> call_ensures(f, (region,), r),
            !(*self is Leaked) ==> !r,
    {
        match *self {
            Violation::Leaked { region } => f(region),
            _ => false,
        }
    }
}

} // verus!
