use checkers::{Pointer, Region, Violation};

fn region(ptr: usize, size: usize, align: usize) -> Region {
    Region::new(Pointer::from(ptr), size, align)
}

#[test]
fn pointer_add_saturates() {
    assert_eq!(Pointer(15), Pointer(10).saturating_add(5));
    assert_eq!(Pointer(usize::MAX), Pointer(usize::MAX - 1).saturating_add(5));
}

#[test]
fn pointer_alignment() {
    assert!(Pointer(0).is_aligned_with(8));
    assert!(Pointer(24).is_aligned_with(8));
    assert!(!Pointer(5).is_aligned_with(4));
    assert!(Pointer(5).is_aligned_with(1));
}

#[test]
fn pointer_from_integer() {
    let p: Pointer = 42.into();
    assert_eq!(Pointer(42), p);
}

#[test]
fn overlaps_is_directional() {
    let a = region(0, 10, 1);
    let b = region(5, 10, 1);
    assert!(a.overlaps(b));
    assert!(!b.overlaps(a));
    assert!(!a.overlaps(region(10, 1, 1)));
    assert!(!region(3, 0, 1).overlaps(region(3, 0, 1)));
    assert!(region(usize::MAX - 1, 5, 1).overlaps(region(usize::MAX - 1, 1, 1)));
    assert!(!region(usize::MAX - 1, 5, 1).overlaps(region(usize::MAX, 1, 1)));
}

#[test]
fn same_region_ignores_alignment() {
    assert!(region(8, 8, 8).is_same_region_as(region(8, 8, 1)));
    assert!(!region(8, 8, 8).is_same_region_as(region(8, 4, 8)));
    assert!(!region(8, 8, 8).is_same_region_as(region(16, 8, 8)));
}

#[test]
fn region_description() {
    assert_eq!("100-150 (size: 50, align: 1)", region(100, 50, 1).describe());
    assert_eq!("0-0 (size: 0, align: 8)", region(0, 0, 8).describe());
    let top = format!("{}-{} (size: 9, align: 1)", usize::MAX - 2, usize::MAX);
    assert_eq!(top, region(usize::MAX - 2, 9, 1).describe());
}

#[test]
fn violation_descriptions() {
    let a = region(100, 100, 1);
    let b = region(150, 50, 2);
    assert_eq!(
        "Requested allocation (150-200 (size: 50, align: 2)) overlaps with existing (100-200 (size: 100, align: 1))",
        Violation::ConflictingAlloc { requested: b, existing: a }.describe()
    );
    assert_eq!(
        "Allocated region (150-200 (size: 50, align: 2)) is misaligned.",
        Violation::MisalignedAlloc { requested: b }.describe()
    );
    assert_eq!(
        "Freed (150-200 (size: 50, align: 2)) only part of existing region (100-200 (size: 100, align: 1))",
        Violation::IncompleteFree { requested: b, existing: a }.describe()
    );
    assert_eq!(
        "Freed region (150-200 (size: 50, align: 2)) has different alignment from existing (100-200 (size: 100, align: 1))",
        Violation::MisalignedFree { requested: b, existing: a }.describe()
    );
    assert_eq!(
        "Freed missing region (100-200 (size: 100, align: 1))",
        Violation::MissingFree { requested: a }.describe()
    );
    assert_eq!(
        "Dangling region (100-200 (size: 100, align: 1))",
        Violation::Leaked { region: a }.describe()
    );
}
