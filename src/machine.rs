use vstd::prelude::*;

use crate::region::Region;
use crate::violation::Violation;

verus! {

/// One observed allocator call.
#[derive(Debug, Clone, Copy, PartialEq, Eq, Structural)]
pub enum Event {
    /// A region was handed out by the allocator.
    Alloc(Region),
    /// A region was handed back to the allocator.
    Free(Region),
}

/// `a` and `b` cannot both be live: the span of one holds the start of the
/// other, or both start at the same address.
pub open spec fn conflicts(a: Region, b: Region) -> bool {
    a.holds_start_of(b) || b.holds_start_of(a) || a.ptr == b.ptr
}

/// Regions in strictly ascending address order, each ending at or before the
/// start of every later one.
pub open spec fn well_ordered(live: Seq<Region>) -> bool {
    forall|i: int, j: int|
        #![trigger live[i], live[j]]
        0 <= i < j < live.len() ==> live[i].ptr.0 < live[j].ptr.0 && live[i].end() <= live[j].ptr.0
}

/// Some live region conflicts with `r`.
pub open spec fn has_conflict(live: Seq<Region>, r: Region) -> bool {
    exists|k: int| 0 <= k < live.len() && #[trigger] conflicts(live[k], r)
}

/// `k` is the lowest-addressed live region that conflicts with `r`.
pub open spec fn is_first_conflict(live: Seq<Region>, r: Region, k: int) -> bool {
    &&& 0 <= k < live.len()
    &&& conflicts(live[k], r)
    &&& forall|j: int| 0 <= j < k ==> !#[trigger] conflicts(live[j], r)
}

/// The index of the lowest-addressed live region that conflicts with `r`.
pub open spec fn first_conflict(live: Seq<Region>, r: Region) -> int {
    choose|k: int| is_first_conflict(live, r, k)
}

/// `i` splits `live` into the regions starting below `p` and the rest.
pub open spec fn is_split_at(live: Seq<Region>, p: usize, i: int) -> bool {
    &&& 0 <= i <= live.len()
    &&& forall|j: int| 0 <= j < i ==> #[trigger] live[j].ptr.0 < p
    &&& forall|j: int| i <= j < live.len() ==> #[trigger] live[j].ptr.0 >= p
}

/// Where a region starting at `p` goes in the ordered live set.
pub open spec fn insertion_point(live: Seq<Region>, p: usize) -> int {
    choose|i: int| is_split_at(live, p, i)
}

/// Some live region starts exactly at `p`.
pub open spec fn has_start(live: Seq<Region>, p: usize) -> bool {
    exists|k: int| 0 <= k < live.len() && #[trigger] live[k].ptr.0 == p
}

/// The index of the live region that starts at `p`.
pub open spec fn index_at(live: Seq<Region>, p: usize) -> int {
    choose|k: int| 0 <= k < live.len() && #[trigger] live[k].ptr.0 == p
}

/// What allocating `r` reports against the live set.
pub open spec fn alloc_outcome(live: Seq<Region>, r: Region) -> Result<(), Violation> {
    if !r.is_aligned() {
        Err(Violation::MisalignedAlloc { requested: r })
    } else if has_conflict(live, r) {
        Err(Violation::ConflictingAlloc { requested: r, existing: live[first_conflict(live, r)] })
    } else {
        Ok(())
    }
}

/// What freeing `r` reports against the live set.
pub open spec fn free_outcome(live: Seq<Region>, r: Region) -> Result<(), Violation> {
    if !has_start(live, r.ptr.0) {
        Err(Violation::MissingFree { requested: r })
    } else {
        let existing = live[index_at(live, r.ptr.0)];
        if !existing.same_span(r) {
            Err(Violation::IncompleteFree { requested: r, existing })
        } else if existing.align != r.align {
            Err(Violation::MisalignedFree { requested: r, existing })
        } else {
            Ok(())
        }
    }
}

/// What pushing `e` reports against the live set.
pub open spec fn outcome(live: Seq<Region>, e: Event) -> Result<(), Violation> {
    match e {
        Event::Alloc(r) => alloc_outcome(live, r),
        Event::Free(r) => free_outcome(live, r),
    }
}

/// The live set after pushing `e`: unchanged on a violation.
pub open spec fn live_after(live: Seq<Region>, e: Event) -> Seq<Region> {
    if outcome(live, e) is Err {
        live
    } else {
        match e {
            Event::Alloc(r) => live.insert(insertion_point(live, r.ptr.0), r),
            Event::Free(r) => live.remove(index_at(live, r.ptr.0)),
        }
    }
}

/// The byte counter after pushing `e`: unchanged on a violation.
pub open spec fn used_after(live: Seq<Region>, used: usize, e: Event) -> usize {
    if outcome(live, e) is Err {
        used
    } else {
        match e {
            Event::Alloc(r) => used.saturating_add(r.size),
            Event::Free(r) => used.saturating_sub(r.size),
        }
    }
}

/// Fake machine implementation to validate an allocation history.
pub struct Machine {
    /// Live regions, in ascending address order.
    regions: Vec<Region>,
    /// Current memory used according to allocations.
    pub memory_used: usize,
}

impl View for Machine {
    type V = Seq<Region>;

    /// The live regions, in ascending address order.
    closed spec fn view(&self) -> Seq<Region> {
        self.regions@
    }
}

/// The index of the first region that starts at or above `p`.
fn lower_bound(regions: &Vec<Region>, p: usize) -> (i: usize)
    requires
        well_ordered(regions@),
    ensures
        is_split_at(regions@, p, i as int),
{
    let mut lo: usize = 0;
    let mut hi: usize = regions.len();
    while lo < hi
        invariant
            0 <= lo <= hi <= regions@.len(),
            well_ordered(regions@),
            forall|j: int| 0 <= j < lo ==> #[trigger] regions@[j].ptr.0 < p,
            forall|j: int| hi <= j < regions@.len() ==> #[trigger] regions@[j].ptr.0 >= p,
        decreases hi - lo,
    {
        let mid = lo + (hi - lo) / 2;
        if regions[mid].ptr.0 < p {
            lo = mid + 1;
        } else {
            hi = mid;
        }
    }
    lo
}

impl Machine {
    /// The running byte counter, `memory_used`.
    pub closed spec fn used(&self) -> usize {
        self.memory_used
    }

    /// The live regions are ordered and pairwise apart.
    pub open spec fn wf(&self) -> bool {
        well_ordered(self@)
    }

    /// Push an event into the machine.
    ///
    /// An allocation is checked for alignment first, then against the live
    /// regions; a free is checked for a live region at its start address,
    /// then for the same size, then for the same alignment. On a violation
    /// nothing changes.
    pub fn push(&mut self, event: Event) -> (r: Result<(), Violation>)
        requires
            old(self).wf(),
            event matches Event::Alloc(a) ==> a.align > 0,
        ensures
            final(self).wf(),
            r == outcome(old(self)@, event),
            final(self)@ == live_after(old(self)@, event),
            final(self).used() == used_after(old(self)@, old(self).used(), event),
    {
        match event {
            Event::Alloc(requested) => self.push_alloc(requested),
            Event::Free(requested) => self.push_free(requested),
        }
    }

    /// Record `requested` as live unless it is misaligned or conflicts with
    /// a live region.
    fn push_alloc(&mut self, requested: Region) -> (r: Result<(), Violation>)
        requires
            old(self).wf(),
            requested.align > 0,
        ensures
            final(self).wf(),
            r == outcome(old(self)@, Event::Alloc(requested)),
            final(self)@ == live_after(old(self)@, Event::Alloc(requested)),
            final(self).memory_used == used_after(
                old(self)@,
                old(self).memory_used,
                Event::Alloc(requested),
            ),
    {
        let ghost live = self@;
        if !requested.ptr.is_aligned_with(requested.align) {
            return Err(Violation::MisalignedAlloc { requested });
        }
        let i = lower_bound(&self.regions, requested.ptr.0);
        if i > 0 {
            let prev = self.regions[i - 1];
            if prev.overlaps(requested) {
                proof {
                    assert(is_first_conflict(live, requested, i - 1));
                    let k = first_conflict(live, requested);
                    assert(k == i - 1);
                }
                return Err(Violation::ConflictingAlloc { requested, existing: prev });
            }
        }
        if i < self.regions.len() {
            let next = self.regions[i];
            if next.ptr.0 == requested.ptr.0 || requested.overlaps(next) {
                proof {
                    assert(is_first_conflict(live, requested, i as int));
                    let k = first_conflict(live, requested);
                    assert(k == i);
                }
                return Err(Violation::ConflictingAlloc { requested, existing: next });
            }
        }
        proof {
            assert(!has_conflict(live, requested));
            assert(insertion_point(live, requested.ptr.0) == i);
        }
        self.memory_used = self.memory_used.saturating_add(requested.size);
        self.regions.insert(i, requested);
        proof {
            assert(well_ordered(self@));
        }
        Ok(())
    }

    /// Drop the live region that `requested` names exactly.
    fn push_free(&mut self, requested: Region) -> (r: Result<(), Violation>)
        requires
            old(self).wf(),
        ensures
            final(self).wf(),
            r == outcome(old(self)@, Event::Free(requested)),
            final(self)@ == live_after(old(self)@, Event::Free(requested)),
            final(self).memory_used == used_after(
                old(self)@,
                old(self).memory_used,
                Event::Free(requested),
            ),
    {
        let ghost live = self@;
        let i = lower_bound(&self.regions, requested.ptr.0);
        if i < self.regions.len() && self.regions[i].ptr.0 == requested.ptr.0 {
            let existing = self.regions[i];
            proof {
                assert(has_start(live, requested.ptr.0));
                assert(index_at(live, requested.ptr.0) == i);
            }
            if !existing.is_same_region_as(requested) {
                return Err(Violation::IncompleteFree { requested, existing });
            }
            if existing.align != requested.align {
                return Err(Violation::MisalignedFree { requested, existing });
            }
            let region = self.regions.remove(i);
            self.memory_used = self.memory_used.saturating_sub(region.size);
            proof {
                assert(well_ordered(self@));
            }
            return Ok(());
        }
        proof {
            assert(!has_start(live, requested.ptr.0));
        }
        Err(Violation::MissingFree { requested })
    }

    /// Access all trailing regions (ones which have not been deallocated).
    pub fn trailing_regions(&self) -> (r: Vec<Region>)
        ensures
            r@ == self@,
    {
        let mut out: Vec<Region> = Vec::new();
        let mut i: usize = 0;
        while i < self.regions.len()
            invariant
                i <= self.regions@.len(),
                out@ == self.regions@.subrange(0, i as int),
            decreases self.regions@.len() - i,
        {
            out.push(self.regions[i]);
            i = i + 1;
        }
        out
    }
}

impl Default for Machine {
    fn default() -> (m: Self)
        ensures
            m@ == Seq::<Region>::empty(),
            m.used() == 0,
            m.wf(),
    {
        Machine { regions: Vec::new(), memory_used: 0 }
    }
}

} // verus!
