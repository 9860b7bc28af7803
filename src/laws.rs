//! Properties of the machine's event model, stated over the spec functions
//! that `Machine::push` and `Machine::trailing_regions` are specified with.
use vstd::prelude::*;

use crate::machine::{
    alloc_outcome, conflicts, has_conflict, has_start, index_at, insertion_point,
    is_first_conflict, is_split_at, live_after, outcome, used_after, well_ordered, Event,
};
use crate::region::Region;
use crate::violation::Violation;

verus! {

/// The spans `[ptr, ptr + size)` of `a` and `b` are disjoint and the two
/// regions start at different addresses.
pub open spec fn apart(a: Region, b: Region) -> bool {
    &&& a.ptr.0 + a.size <= b.ptr.0 || b.ptr.0 + b.size <= a.ptr.0
    &&& a.ptr != b.ptr
}

/// The live set and byte counter after pushing `evs` in order, starting
/// from `live` and `used`.
pub open spec fn replay(live: Seq<Region>, used: usize, evs: Seq<Event>) -> (Seq<Region>, usize)
    decreases evs.len(),
{
    if evs.len() == 0 {
        (live, used)
    } else {
        let (l, u) = replay(live, used, evs.drop_last());
        (live_after(l, evs.last()), used_after(l, u, evs.last()))
    }
}

/// Every push of `evs`, in order from `live` and `used`, succeeds.
pub open spec fn replay_ok(live: Seq<Region>, used: usize, evs: Seq<Event>) -> bool
    decreases evs.len(),
{
    evs.len() == 0 || (replay_ok(live, used, evs.drop_last()) && outcome(
        replay(live, used, evs.drop_last()).0,
        evs.last(),
    ) is Ok)
}

/// The sum of the sizes of `live`.
pub open spec fn total_size(live: Seq<Region>) -> nat
    decreases live.len(),
{
    if live.len() == 0 {
        0
    } else {
        live[0].size as nat + total_size(live.subrange(1, live.len() as int))
    }
}

proof fn lemma_total_insert(live: Seq<Region>, i: int, r: Region)
    requires
        0 <= i <= live.len(),
    ensures
        total_size(live.insert(i, r)) == total_size(live) + r.size,
    decreases live.len(),
{
    let s = live.insert(i, r);
    if i == 0 {
        assert(s.subrange(1, s.len() as int) =~= live);
    } else {
        let rest = live.subrange(1, live.len() as int);
        assert(s.subrange(1, s.len() as int) =~= rest.insert(i - 1, r));
        lemma_total_insert(rest, i - 1, r);
    }
}

proof fn lemma_total_remove(live: Seq<Region>, i: int)
    requires
        0 <= i < live.len(),
    ensures
        total_size(live.remove(i)) + live[i].size == total_size(live),
    decreases live.len(),
{
    let rest = live.subrange(1, live.len() as int);
    if i == 0 {
        assert(live.remove(0) =~= rest);
    } else {
        let s = live.remove(i);
        assert(s.subrange(1, s.len() as int) =~= rest.remove(i - 1));
        lemma_total_remove(rest, i - 1);
    }
}

proof fn lemma_apart_no_conflict(a: Region, b: Region)
    requires
        apart(a, b),
    ensures
        !conflicts(a, b),
        !conflicts(b, a),
{
}

/// An ordered live set can be split at any address.
proof fn lemma_split_exists(live: Seq<Region>, p: usize)
    requires
        well_ordered(live),
    ensures
        is_split_at(live, p, insertion_point(live, p)),
    decreases live.len(),
{
    if live.len() == 0 {
        assert(is_split_at(live, p, 0));
    } else {
        let init = live.drop_last();
        assert(well_ordered(init));
        lemma_split_exists(init, p);
        let i = insertion_point(init, p);
        if live.last().ptr.0 < p {
            assert(is_split_at(live, p, live.len() as int)) by {
                assert forall|j: int| 0 <= j < live.len() implies #[trigger] live[j].ptr.0 < p by {
                    if j < live.len() - 1 {
                        assert(init[j] == live[j]);
                    }
                }
            }
        } else {
            assert(is_split_at(live, p, i)) by {
                assert forall|j: int| i <= j < live.len() implies #[trigger] live[j].ptr.0 >= p by {
                    if j < live.len() - 1 {
                        assert(init[j] == live[j]);
                    }
                }
                assert forall|j: int| 0 <= j < i implies #[trigger] live[j].ptr.0 < p by {
                    assert(init[j] == live[j]);
                }
            }
        }
    }
}

/// In an ordered live set at most one region starts at a given address.
proof fn lemma_start_unique(live: Seq<Region>, k: int)
    requires
        well_ordered(live),
        0 <= k < live.len(),
    ensures
        has_start(live, live[k].ptr.0),
        index_at(live, live[k].ptr.0) == k,
{
    let p = live[k].ptr.0;
    assert(0 <= k < live.len() && live[k].ptr.0 == p);
    let m = index_at(live, p);
    if m < k {
        assert(live[m].ptr.0 < live[k].ptr.0);
    } else if m > k {
        assert(live[k].ptr.0 < live[m].ptr.0);
    }
}

/// A successful allocation keeps the live set ordered, and lands where the
/// region's address puts it.
proof fn lemma_alloc_keeps_order(live: Seq<Region>, r: Region)
    requires
        well_ordered(live),
        alloc_outcome(live, r) is Ok,
    ensures
        is_split_at(live, r.ptr.0, insertion_point(live, r.ptr.0)),
        well_ordered(live_after(live, Event::Alloc(r))),
        live_after(live, Event::Alloc(r)) == live.insert(insertion_point(live, r.ptr.0), r),
{
    lemma_split_exists(live, r.ptr.0);
    let i = insertion_point(live, r.ptr.0);
    let s = live.insert(i, r);
    assert forall|a: int, b: int| 0 <= a < b < s.len() implies s[a].ptr.0 < s[b].ptr.0 && s[a].end()
        <= s[b].ptr.0 by {
        if a < i {
            assert(!conflicts(live[a], r));
        }
        if b > i {
            assert(!conflicts(live[b - 1], r));
        }
        if a < i && b <= i {
            if b < i {
                assert(s[a] == live[a] && s[b] == live[b]);
            }
        } else if a < i && b > i {
            assert(live[a].ptr.0 < r.ptr.0);
            assert(s[a] == live[a] && s[b] == live[b - 1]);
        } else if a == i {
            assert(s[b] == live[b - 1]);
        } else {
            assert(s[a] == live[a - 1] && s[b] == live[b - 1]);
        }
    }
}

/// Removing a region keeps the live set ordered.
proof fn lemma_remove_keeps_order(live: Seq<Region>, m: int)
    requires
        well_ordered(live),
        0 <= m < live.len(),
    ensures
        well_ordered(live.remove(m)),
{
    let s = live.remove(m);
    assert forall|a: int, b: int| 0 <= a < b < s.len() implies s[a].ptr.0 < s[b].ptr.0 && s[a].end()
        <= s[b].ptr.0 by {
        let a0 = if a < m { a } else { a + 1 };
        let b0 = if b < m { b } else { b + 1 };
        assert(s[a] == live[a0] && s[b] == live[b0]);
    }
}

/// Two aligned regions whose spans are apart can both be allocated on a fresh
/// machine, in either order.
pub proof fn lemma_apart_allocs_succeed(a: Region, b: Region)
    requires
        a.align > 0 && a.is_aligned(),
        b.align > 0 && b.is_aligned(),
        apart(a, b),
    ensures
        outcome(Seq::empty(), Event::Alloc(a)) is Ok,
        outcome(live_after(Seq::empty(), Event::Alloc(a)), Event::Alloc(b)) is Ok,
        outcome(Seq::empty(), Event::Alloc(b)) is Ok,
        outcome(live_after(Seq::empty(), Event::Alloc(b)), Event::Alloc(a)) is Ok,
{
    lemma_apart_no_conflict(a, b);
    lemma_alloc_keeps_order(Seq::empty(), a);
    lemma_alloc_keeps_order(Seq::empty(), b);
    assert(live_after(Seq::empty(), Event::Alloc(a)) =~= seq![a]);
    assert(live_after(Seq::empty(), Event::Alloc(b)) =~= seq![b]);
}

/// When the span of one of two aligned regions holds the start of the other,
/// allocating both on a fresh machine, in either order, reports the second as
/// conflicting with the first.
pub proof fn lemma_overlapping_allocs_conflict(a: Region, b: Region)
    requires
        a.align > 0 && a.is_aligned(),
        b.align > 0 && b.is_aligned(),
        a.holds_start_of(b) || b.holds_start_of(a),
    ensures
        outcome(Seq::empty(), Event::Alloc(a)) is Ok,
        outcome(live_after(Seq::empty(), Event::Alloc(a)), Event::Alloc(b)) == Err::<(), Violation>(
            Violation::ConflictingAlloc { requested: b, existing: a },
        ),
        outcome(Seq::empty(), Event::Alloc(b)) is Ok,
        outcome(live_after(Seq::empty(), Event::Alloc(b)), Event::Alloc(a)) == Err::<(), Violation>(
            Violation::ConflictingAlloc { requested: a, existing: b },
        ),
{
    lemma_alloc_keeps_order(Seq::empty(), a);
    lemma_alloc_keeps_order(Seq::empty(), b);
    let la = live_after(Seq::empty(), Event::Alloc(a));
    let lb = live_after(Seq::empty(), Event::Alloc(b));
    assert(la =~= seq![a]);
    assert(lb =~= seq![b]);
    assert(is_first_conflict(la, b, 0));
    assert(is_first_conflict(lb, a, 0));
}

/// A misaligned allocation is reported as misaligned, also where it overlaps
/// a live region.
pub proof fn lemma_alignment_checked_first(live: Seq<Region>, r: Region)
    requires
        r.align > 0,
        !r.is_aligned(),
        has_conflict(live, r),
    ensures
        alloc_outcome(live, r) == Err::<(), Violation>(Violation::MisalignedAlloc { requested: r }),
{
}

/// After `Alloc(r)` succeeds, `Free(r)` succeeds and a second `Free(r)` is
/// reported as missing.
pub proof fn lemma_double_free_missing(live: Seq<Region>, r: Region)
    requires
        well_ordered(live),
        r.align > 0,
        alloc_outcome(live, r) is Ok,
    ensures
        ({
            let once = live_after(live, Event::Alloc(r));
            let freed = live_after(once, Event::Free(r));
            &&& outcome(once, Event::Free(r)) is Ok
            &&& freed == live
            &&& outcome(freed, Event::Free(r)) == Err::<(), Violation>(
                Violation::MissingFree { requested: r },
            )
        }),
{
    lemma_alloc_keeps_order(live, r);
    let i = insertion_point(live, r.ptr.0);
    let once = live.insert(i, r);
    lemma_start_unique(once, i);
    assert(once.remove(i) =~= live);
    assert forall|k: int| 0 <= k < live.len() implies #[trigger] live[k].ptr.0 != r.ptr.0 by {
        assert(!conflicts(live[k], r));
    }
}

/// On a fresh machine, one aligned allocation leaves exactly that region live.
pub proof fn lemma_single_alloc_leaks(r: Region)
    requires
        r.align > 0 && r.is_aligned(),
    ensures
        outcome(Seq::empty(), Event::Alloc(r)) is Ok,
        live_after(Seq::empty(), Event::Alloc(r)) == seq![r],
{
    lemma_alloc_keeps_order(Seq::empty(), r);
    assert(live_after(Seq::empty(), Event::Alloc(r)) =~= seq![r]);
}

proof fn lemma_replay_keeps_order(live: Seq<Region>, used: usize, evs: Seq<Event>)
    requires
        well_ordered(live),
    ensures
        well_ordered(replay(live, used, evs).0),
    decreases evs.len(),
{
    if evs.len() > 0 {
        lemma_replay_keeps_order(live, used, evs.drop_last());
        let l = replay(live, used, evs.drop_last()).0;
        if outcome(l, evs.last()) is Ok {
            match evs.last() {
                Event::Alloc(r) => lemma_alloc_keeps_order(l, r),
                Event::Free(r) => lemma_remove_keeps_order(l, index_at(l, r.ptr.0)),
            }
        }
    }
}

proof fn lemma_ok_prefix(live: Seq<Region>, used: usize, evs: Seq<Event>, k: int)
    requires
        replay_ok(live, used, evs),
        0 <= k <= evs.len(),
    ensures
        replay_ok(live, used, evs.take(k)),
    decreases evs.len(),
{
    if k == evs.len() {
        assert(evs.take(k) =~= evs);
    } else {
        assert(evs.drop_last().take(k) =~= evs.take(k));
        lemma_ok_prefix(live, used, evs.drop_last(), k);
    }
}

proof fn lemma_counter_exact(evs: Seq<Event>)
    requires
        replay_ok(Seq::empty(), 0, evs),
        forall|k: int|
            0 <= k <= evs.len() ==> total_size(#[trigger] replay(Seq::empty(), 0, evs.take(k)).0)
                <= usize::MAX,
    ensures
        replay(Seq::empty(), 0, evs).1 == total_size(replay(Seq::empty(), 0, evs).0),
    decreases evs.len(),
{
    if evs.len() == 0 {
        assert(total_size(Seq::<Region>::empty()) == 0);
    } else {
        let init = evs.drop_last();
        assert forall|k: int| 0 <= k <= init.len() implies total_size(
            #[trigger] replay(Seq::empty(), 0, init.take(k)).0,
        ) <= usize::MAX by {
            assert(init.take(k) =~= evs.take(k));
            assert(total_size(replay(Seq::empty(), 0, evs.take(k)).0) <= usize::MAX);
        }
        lemma_counter_exact(init);
        let (l, u) = replay(Seq::empty(), 0, init);
        lemma_replay_keeps_order(Seq::empty(), 0, init);
        assert(evs.take(evs.len() as int) =~= evs);
        assert(total_size(replay(Seq::empty(), 0, evs.take(evs.len() as int)).0) <= usize::MAX);
        match evs.last() {
            Event::Alloc(r) => {
                lemma_alloc_keeps_order(l, r);
                lemma_total_insert(l, insertion_point(l, r.ptr.0), r);
            },
            Event::Free(r) => {
                lemma_total_remove(l, index_at(l, r.ptr.0));
            },
        }
    }
}

/// As long as every push succeeds and the sizes of the live regions never
/// sum past `usize::MAX`, `memory_used` equals the sum of the sizes of the
/// live regions after every prefix of the events, starting from a fresh
/// machine.
pub proof fn lemma_counter_matches_live(evs: Seq<Event>)
    requires
        replay_ok(Seq::empty(), 0, evs),
        forall|k: int|
            0 <= k <= evs.len() ==> total_size(#[trigger] replay(Seq::empty(), 0, evs.take(k)).0)
                <= usize::MAX,
    ensures
        forall|k: int|
            0 <= k <= evs.len() ==> #[trigger] replay(Seq::empty(), 0, evs.take(k)).1 == total_size(
                replay(Seq::empty(), 0, evs.take(k)).0,
            ),
{
    assert forall|k: int| 0 <= k <= evs.len() implies #[trigger] replay(
        Seq::empty(),
        0,
        evs.take(k),
    ).1 == total_size(replay(Seq::empty(), 0, evs.take(k)).0) by {
        let pre = evs.take(k);
        lemma_ok_prefix(Seq::empty(), 0, evs, k);
        assert forall|j: int| 0 <= j <= pre.len() implies total_size(
            #[trigger] replay(Seq::empty(), 0, pre.take(j)).0,
        ) <= usize::MAX by {
            assert(pre.take(j) =~= evs.take(j));
            assert(total_size(replay(Seq::empty(), 0, evs.take(j)).0) <= usize::MAX);
        }
        lemma_counter_exact(pre);
    }
}

/// Allocating each of `allocs` in order, then freeing each of `frees` in
/// order.
pub open spec fn round_trip_events(allocs: Seq<Region>, frees: Seq<Region>) -> Seq<Event> {
    allocs.map_values(|r: Region| Event::Alloc(r)) + frees.map_values(|r: Region| Event::Free(r))
}

/// The regions are aligned and pairwise apart; `frees` lists each of them
/// once, in some order.
pub open spec fn balanced(allocs: Seq<Region>, frees: Seq<Region>) -> bool {
    &&& forall|i: int| 0 <= i < allocs.len() ==> #[trigger] allocs[i].align > 0 && allocs[i].is_aligned()
    &&& forall|i: int, j: int|
        0 <= i < j < allocs.len() ==> apart(#[trigger] allocs[i], #[trigger] allocs[j])
    &&& frees.len() == allocs.len()
    &&& frees.no_duplicates()
    &&& forall|j: int| 0 <= j < frees.len() ==> allocs.contains(#[trigger] frees[j])
}

/// What holds of the live set `l` and counter `u` after the first `k`
/// events of a round trip.
spec fn round_trip_inv(allocs: Seq<Region>, frees: Seq<Region>, k: int, l: Seq<Region>, u: usize) -> bool {
    let n = allocs.len() as int;
    &&& well_ordered(l)
    &&& u <= total_size(l)
    &&& k <= n ==> {
        &&& l.len() == k
        &&& forall|i: int| 0 <= i < k ==> l.contains(#[trigger] allocs[i])
        &&& forall|m: int|
            0 <= m < l.len() ==> exists|i: int| 0 <= i < k && #[trigger] l[m] == #[trigger] allocs[i]
    }
    &&& k >= n ==> {
        &&& l.len() == 2 * n - k
        &&& forall|i: int|
            0 <= i < n && !frees.take(k - n).contains(#[trigger] allocs[i]) ==> l.contains(allocs[i])
    }
}

proof fn lemma_round_trip_alloc(allocs: Seq<Region>, frees: Seq<Region>, k: int, l: Seq<Region>, u: usize)
    requires
        balanced(allocs, frees),
        0 <= k < allocs.len(),
        round_trip_inv(allocs, frees, k, l, u),
    ensures
        alloc_outcome(l, allocs[k]) is Ok,
        round_trip_inv(
            allocs,
            frees,
            k + 1,
            live_after(l, Event::Alloc(allocs[k])),
            used_after(l, u, Event::Alloc(allocs[k])),
        ),
{
    let n = allocs.len() as int;
    let r = allocs[k];
    assert forall|m: int| 0 <= m < l.len() implies !#[trigger] conflicts(l[m], r) by {
        let i = choose|i: int| 0 <= i < k && l[m] == allocs[i];
        lemma_apart_no_conflict(allocs[i], allocs[k]);
    }
    assert(alloc_outcome(l, r) is Ok);
    lemma_alloc_keeps_order(l, r);
    let ip = insertion_point(l, r.ptr.0);
    let l2 = l.insert(ip, r);
    lemma_total_insert(l, ip, r);
    assert forall|i: int| 0 <= i < k + 1 implies l2.contains(#[trigger] allocs[i]) by {
        if i == k {
            assert(l2[ip] == r);
        } else {
            assert(l.contains(allocs[i]));
            let m = choose|m: int| 0 <= m < l.len() && l[m] == allocs[i];
            if m < ip {
                assert(l2[m] == allocs[i]);
            } else {
                assert(l2[m + 1] == allocs[i]);
            }
        }
    }
    assert forall|m: int| 0 <= m < l2.len() implies exists|i: int|
        0 <= i < k + 1 && #[trigger] l2[m] == #[trigger] allocs[i] by {
        if m == ip {
            assert(l2[m] == allocs[k]);
        } else {
            let m0 = if m < ip { m } else { m - 1 };
            assert(l2[m] == l[m0]);
            let i = choose|i: int| 0 <= i < k && l[m0] == allocs[i];
            assert(l2[m] == allocs[i]);
        }
    }
    if k + 1 == n {
        assert(frees.take(0) =~= Seq::<Region>::empty());
    }
}

proof fn lemma_round_trip_free(allocs: Seq<Region>, frees: Seq<Region>, k: int, l: Seq<Region>, u: usize)
    requires
        balanced(allocs, frees),
        allocs.len() <= k < 2 * allocs.len(),
        round_trip_inv(allocs, frees, k, l, u),
    ensures
        outcome(l, Event::Free(frees[k - allocs.len()])) is Ok,
        round_trip_inv(
            allocs,
            frees,
            k + 1,
            live_after(l, Event::Free(frees[k - allocs.len()])),
            used_after(l, u, Event::Free(frees[k - allocs.len()])),
        ),
{
    let n = allocs.len() as int;
    let j = k - n;
    let f = frees[j];
    assert(allocs.contains(f));
    assert(!frees.take(j).contains(f)) by {
        if frees.take(j).contains(f) {
            let q = choose|q: int| 0 <= q < j && frees.take(j)[q] == f;
            assert(frees[q] == frees[j]);
        }
    }
    let i0 = choose|i: int| 0 <= i < n && allocs[i] == f;
    assert(l.contains(allocs[i0]));
    let m = choose|m: int| 0 <= m < l.len() && l[m] == f;
    lemma_start_unique(l, m);
    lemma_remove_keeps_order(l, m);
    lemma_total_remove(l, m);
    let l2 = l.remove(m);
    assert forall|i: int|
        0 <= i < n && !frees.take(j + 1).contains(#[trigger] allocs[i]) implies l2.contains(
        allocs[i],
    ) by {
        if frees.take(j).contains(allocs[i]) {
            let q = choose|q: int| 0 <= q < j && frees.take(j)[q] == allocs[i];
            assert(frees.take(j + 1)[q] == allocs[i]);
        }
        assert(frees.take(j + 1)[j] == f);
        let q = choose|q: int| 0 <= q < l.len() && l[q] == allocs[i];
        if q < m {
            assert(l2[q] == allocs[i]);
        } else {
            assert(l2[q - 1] == allocs[i]);
        }
    }
}

proof fn lemma_round_trip_step(allocs: Seq<Region>, frees: Seq<Region>, k: int)
    requires
        balanced(allocs, frees),
        0 <= k < 2 * allocs.len(),
        replay_ok(Seq::empty(), 0, round_trip_events(allocs, frees).take(k)),
        round_trip_inv(
            allocs,
            frees,
            k,
            replay(Seq::empty(), 0, round_trip_events(allocs, frees).take(k)).0,
            replay(Seq::empty(), 0, round_trip_events(allocs, frees).take(k)).1,
        ),
    ensures
        replay_ok(Seq::empty(), 0, round_trip_events(allocs, frees).take(k + 1)),
        round_trip_inv(
            allocs,
            frees,
            k + 1,
            replay(Seq::empty(), 0, round_trip_events(allocs, frees).take(k + 1)).0,
            replay(Seq::empty(), 0, round_trip_events(allocs, frees).take(k + 1)).1,
        ),
{
    let n = allocs.len() as int;
    let evs = round_trip_events(allocs, frees);
    let pre = evs.take(k);
    assert(evs.take(k + 1).drop_last() =~= pre);
    assert(evs.take(k + 1).last() == evs[k]);
    let (l, u) = replay(Seq::empty(), 0, pre);
    if k < n {
        assert(evs[k] == Event::Alloc(allocs[k]));
        lemma_round_trip_alloc(allocs, frees, k, l, u);
    } else {
        assert(evs[k] == Event::Free(frees[k - n]));
        lemma_round_trip_free(allocs, frees, k, l, u);
    }
}

proof fn lemma_round_trip_upto(allocs: Seq<Region>, frees: Seq<Region>, k: int)
    requires
        balanced(allocs, frees),
        0 <= k <= 2 * allocs.len(),
    ensures
        replay_ok(Seq::empty(), 0, round_trip_events(allocs, frees).take(k)),
        round_trip_inv(
            allocs,
            frees,
            k,
            replay(Seq::empty(), 0, round_trip_events(allocs, frees).take(k)).0,
            replay(Seq::empty(), 0, round_trip_events(allocs, frees).take(k)).1,
        ),
    decreases k,
{
    if k == 0 {
        assert(round_trip_events(allocs, frees).take(0) =~= Seq::<Event>::empty());
        if allocs.len() == 0 {
            assert(frees.take(0) =~= Seq::<Region>::empty());
        }
    } else {
        lemma_round_trip_upto(allocs, frees, k - 1);
        lemma_round_trip_step(allocs, frees, k - 1);
    }
}

/// Allocating regions that are aligned and pairwise apart on a fresh machine,
/// then freeing each of them once, in any order: every push succeeds, and the
/// machine ends with no live region and `memory_used` at zero.
pub proof fn lemma_balanced_round_trip(allocs: Seq<Region>, frees: Seq<Region>)
    requires
        balanced(allocs, frees),
    ensures
        replay_ok(Seq::empty(), 0, round_trip_events(allocs, frees)),
        replay(Seq::empty(), 0, round_trip_events(allocs, frees)) == (Seq::<Region>::empty(), 0usize),
{
    let evs = round_trip_events(allocs, frees);
    let n = allocs.len() as int;
    lemma_round_trip_upto(allocs, frees, 2 * n);
    assert(evs.take(2 * n) =~= evs);
    let (l, u) = replay(Seq::empty(), 0, evs);
    assert(l =~= Seq::<Region>::empty());
}

} // verus!
