use checkers::Event::{Alloc, Free};
use checkers::{Machine, Pointer, Region, Violation};

fn region(ptr: usize, size: usize, align: usize) -> Region {
    Region::new(Pointer::from(ptr), size, align)
}

fn live_total(machine: &Machine) -> usize {
    machine.trailing_regions().iter().map(|r| r.size).sum()
}

#[test]
fn double_free_is_missing() {
    let mut machine = Machine::default();
    let r = region(0, 2, 1);
    assert!(machine.push(Alloc(r)).is_ok());
    assert!(machine.push(Free(r)).is_ok());
    assert_eq!(Err(Violation::MissingFree { requested: r }), machine.push(Free(r)));
    assert_eq!(0, machine.memory_used);
}

#[test]
fn double_free_after_other_allocations() {
    let mut machine = Machine::default();
    let other = region(64, 16, 8);
    let r = region(8, 8, 8);
    assert!(machine.push(Alloc(other)).is_ok());
    assert!(machine.push(Alloc(r)).is_ok());
    assert!(machine.push(Free(r)).is_ok());
    assert_eq!(Err(Violation::MissingFree { requested: r }), machine.push(Free(r)));
    assert_eq!(vec![other], machine.trailing_regions());
}

#[test]
fn misaligned_alloc_is_rejected() {
    let mut machine = Machine::default();
    let requested = region(5, 2, 4);
    assert_eq!(Err(Violation::MisalignedAlloc { requested }), machine.push(Alloc(requested)));
    assert!(machine.trailing_regions().is_empty());
    assert_eq!(0, machine.memory_used);
}

#[test]
fn partial_free_is_detected() {
    let mut machine = Machine::default();
    let existing = region(100, 100, 1);
    assert!(machine.push(Alloc(existing)).is_ok());

    let requested = region(150, 50, 1);
    assert_eq!(Err(Violation::MissingFree { requested }), machine.push(Free(requested)));

    let requested = region(100, 50, 1);
    assert_eq!(
        Err(Violation::IncompleteFree { requested, existing }),
        machine.push(Free(requested))
    );
    assert_eq!(vec![existing], machine.trailing_regions());
    assert_eq!(100, machine.memory_used);
}

#[test]
fn oversized_free_is_incomplete() {
    let mut machine = Machine::default();
    let existing = region(100, 100, 1);
    assert!(machine.push(Alloc(existing)).is_ok());
    let requested = region(100, 200, 1);
    assert_eq!(
        Err(Violation::IncompleteFree { requested, existing }),
        machine.push(Free(requested))
    );
}

#[test]
fn free_with_other_alignment_is_misaligned() {
    let mut machine = Machine::default();
    let existing = region(64, 32, 8);
    assert!(machine.push(Alloc(existing)).is_ok());
    let requested = region(64, 32, 16);
    assert_eq!(
        Err(Violation::MisalignedFree { requested, existing }),
        machine.push(Free(requested))
    );
    assert_eq!(vec![existing], machine.trailing_regions());
    assert_eq!(32, machine.memory_used);
}

#[test]
fn free_of_never_allocated_is_missing() {
    let mut machine = Machine::default();
    let requested = region(10, 4, 1);
    assert_eq!(Err(Violation::MissingFree { requested }), machine.push(Free(requested)));
}

#[test]
fn apart_allocations_succeed_in_either_order() {
    let a = region(0, 16, 8);
    let b = region(16, 16, 8);

    let mut machine = Machine::default();
    assert!(machine.push(Alloc(a)).is_ok());
    assert!(machine.push(Alloc(b)).is_ok());

    let mut machine = Machine::default();
    assert!(machine.push(Alloc(b)).is_ok());
    assert!(machine.push(Alloc(a)).is_ok());
    assert_eq!(vec![a, b], machine.trailing_regions());
}

#[test]
fn empty_region_beside_another_succeeds() {
    let mut machine = Machine::default();
    let a = region(0, 16, 1);
    let b = region(16, 0, 1);
    assert!(machine.push(Alloc(a)).is_ok());
    assert!(machine.push(Alloc(b)).is_ok());
}

#[test]
fn overlap_is_reported_in_either_order() {
    let a = region(0, 10, 1);
    let b = region(5, 10, 1);

    let mut machine = Machine::default();
    assert!(machine.push(Alloc(a)).is_ok());
    assert_eq!(
        Err(Violation::ConflictingAlloc { requested: b, existing: a }),
        machine.push(Alloc(b))
    );

    let mut machine = Machine::default();
    assert!(machine.push(Alloc(b)).is_ok());
    assert_eq!(
        Err(Violation::ConflictingAlloc { requested: a, existing: b }),
        machine.push(Alloc(a))
    );
    assert_eq!(vec![b], machine.trailing_regions());
    assert_eq!(10, machine.memory_used);
}

#[test]
fn candidate_enclosing_a_live_region_conflicts() {
    let mut machine = Machine::default();
    let inner = region(20, 4, 4);
    let outer = region(16, 32, 16);
    assert!(machine.push(Alloc(inner)).is_ok());
    assert_eq!(
        Err(Violation::ConflictingAlloc { requested: outer, existing: inner }),
        machine.push(Alloc(outer))
    );
}

#[test]
fn same_start_conflicts() {
    let mut machine = Machine::default();
    let a = region(32, 8, 8);
    let b = region(32, 16, 8);
    assert!(machine.push(Alloc(a)).is_ok());
    assert_eq!(
        Err(Violation::ConflictingAlloc { requested: b, existing: a }),
        machine.push(Alloc(b))
    );
}

#[test]
fn empty_regions_at_one_address_conflict() {
    let mut machine = Machine::default();
    let a = region(32, 0, 8);
    let b = region(32, 0, 1);
    assert!(machine.push(Alloc(a)).is_ok());
    assert_eq!(
        Err(Violation::ConflictingAlloc { requested: b, existing: a }),
        machine.push(Alloc(b))
    );
}

#[test]
fn lowest_conflicting_region_is_reported() {
    let mut machine = Machine::default();
    let low = region(0, 10, 1);
    let mid = region(12, 4, 1);
    let high = region(20, 4, 1);
    assert!(machine.push(Alloc(high)).is_ok());
    assert!(machine.push(Alloc(mid)).is_ok());
    assert!(machine.push(Alloc(low)).is_ok());

    let requested = region(5, 20, 1);
    assert_eq!(
        Err(Violation::ConflictingAlloc { requested, existing: low }),
        machine.push(Alloc(requested))
    );
    let requested = region(11, 20, 1);
    assert_eq!(
        Err(Violation::ConflictingAlloc { requested, existing: mid }),
        machine.push(Alloc(requested))
    );
}

#[test]
fn misalignment_takes_precedence_over_overlap() {
    let mut machine = Machine::default();
    let existing = region(0, 64, 8);
    assert!(machine.push(Alloc(existing)).is_ok());
    let requested = region(3, 4, 4);
    assert_eq!(Err(Violation::MisalignedAlloc { requested }), machine.push(Alloc(requested)));
}

#[test]
fn balanced_round_trip_empties_machine() {
    let regions = [
        region(0, 16, 8),
        region(64, 32, 32),
        region(16, 8, 8),
        region(128, 1, 1),
        region(200, 0, 4),
    ];
    let mut machine = Machine::default();
    for r in regions.iter() {
        assert!(machine.push(Alloc(*r)).is_ok());
    }
    assert_eq!(57, machine.memory_used);
    for i in [3usize, 0, 4, 2, 1].iter() {
        assert!(machine.push(Free(regions[*i])).is_ok());
    }
    assert_eq!(0, machine.memory_used);
    assert!(machine.trailing_regions().is_empty());
}

#[test]
fn leaked_region_is_trailing() {
    let mut machine = Machine::default();
    let r = region(4096, 24, 8);
    assert!(machine.push(Alloc(r)).is_ok());
    let trailing = machine.trailing_regions();
    assert_eq!(vec![r], trailing);

    let leaks: Vec<Violation> =
        trailing.into_iter().map(|region| Violation::Leaked { region }).collect();
    assert_eq!(vec![Violation::Leaked { region: r }], leaks);
    assert!(leaks[0].is_leaked_with(|l| l.size == 24 && l.align == 8));
}

#[test]
fn trailing_regions_are_in_address_order() {
    let mut machine = Machine::default();
    let a = region(300, 1, 1);
    let b = region(100, 1, 1);
    let c = region(200, 1, 1);
    for r in [a, b, c].iter() {
        assert!(machine.push(Alloc(*r)).is_ok());
    }
    assert_eq!(vec![b, c, a], machine.trailing_regions());
    assert_eq!(3, machine.memory_used);
}

#[test]
fn memory_used_tracks_live_sizes() {
    let events = [
        Alloc(region(0, 10, 1)),
        Alloc(region(10, 20, 2)),
        Free(region(0, 10, 1)),
        Alloc(region(64, 64, 64)),
        Free(region(10, 20, 2)),
        Alloc(region(0, 5, 1)),
    ];
    let expected = [10usize, 30, 20, 84, 64, 69];
    let mut machine = Machine::default();
    for (event, want) in events.iter().zip(expected.iter()) {
        assert!(machine.push(*event).is_ok());
        assert_eq!(*want, machine.memory_used);
        assert_eq!(live_total(&machine), machine.memory_used);
    }
}

#[test]
fn failed_pushes_change_nothing() {
    let mut machine = Machine::default();
    let a = region(0, 16, 8);
    assert!(machine.push(Alloc(a)).is_ok());
    assert!(machine.push(Alloc(region(8, 8, 8))).is_err());
    assert!(machine.push(Alloc(region(33, 8, 8))).is_err());
    assert!(machine.push(Free(region(0, 8, 8))).is_err());
    assert!(machine.push(Free(region(0, 16, 4))).is_err());
    assert!(machine.push(Free(region(40, 8, 8))).is_err());
    assert_eq!(vec![a], machine.trailing_regions());
    assert_eq!(16, machine.memory_used);
}

#[test]
fn span_end_saturates_at_largest_address() {
    let mut machine = Machine::default();
    let top = region(usize::MAX - 4, 100, 1);
    assert!(machine.push(Alloc(top)).is_ok());
    let last = region(usize::MAX, 1, 1);
    assert!(machine.push(Alloc(last)).is_ok());
    let inside = region(usize::MAX - 1, 1, 1);
    assert_eq!(
        Err(Violation::ConflictingAlloc { requested: inside, existing: top }),
        machine.push(Alloc(inside))
    );
    assert_eq!(101, machine.memory_used);
}

#[test]
fn memory_used_saturates() {
    let mut machine = Machine::default();
    assert!(machine.push(Alloc(region(0, usize::MAX, 1))).is_ok());
    assert!(machine.push(Alloc(region(usize::MAX, 10, 1))).is_ok());
    assert_eq!(usize::MAX, machine.memory_used);
    assert!(machine.push(Free(region(usize::MAX, 10, 1))).is_ok());
    assert_eq!(usize::MAX - 10, machine.memory_used);
}

#[test]
fn is_leaked_with_checks_variant_and_predicate() {
    let violation = Violation::Leaked { region: Region::new(42.into(), 20, 4) };
    assert!(violation.is_leaked_with(|r| r.size == 20 && r.align == 4));
    assert!(!violation.is_leaked_with(|r| r.size == 21));

    let requested = Region::new(10.into(), 10, 1);
    let violation = Violation::MisalignedAlloc { requested };
    assert!(!violation.is_leaked_with(|_| true));
}
