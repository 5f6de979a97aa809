//! The linear-scan allocator: intervals in start order, expiring those that
//! ended, spilling the active interval that ends last when registers run out.
use vstd::prelude::*;
use crate::ir::VReg;
use crate::intervals::{LiveInterval, LiveIntervals, spec_overlaps, interval_key_le};
use crate::sorting::{sort_intervals, sort_by_end, insertion_sorted, end_le, interval_le};
use crate::regalloc::{Allocator, PhysReg, PhysRegSet, Location, StackSlot, Assignment, AssignmentError, stack_count, highest_slot, slots_needed, verify_assignment, assignment_valid, entries_valid, interval_values, spec_allowed, conflict_free};
use crate::collections::{
    location_entries, location_map_new, location_map_insert, has_key, value_at, keys_distinct,
    entries_insert, key_index, lemma_key_index, lemma_key_index_distinct, lemma_entries_insert,
};

verus! {


/// The active registers are distinct and none of them is free.
pub open spec fn expire_pre(act: Seq<(LiveInterval, PhysReg)>, free: Seq<PhysReg>) -> bool {
    &&& regs_distinct(act)
    &&& free.no_duplicates()
    &&& forall|i: int, r: PhysReg| 0 <= i < act.len() && free.contains(r) ==> act[i].1 != r
}

/// A permutation of a sequence without duplicates has none and holds the same items.
pub proof fn lemma_permutation<T>(a: Seq<T>, b: Seq<T>)
    requires
        a.to_multiset() == b.to_multiset(),
        a.no_duplicates(),
    ensures
        b.no_duplicates(),
        b.len() == a.len(),
        forall|x: T| b.contains(x) <==> a.contains(x),
{
    a.to_multiset_ensures();
    b.to_multiset_ensures();
    a.lemma_multiset_has_no_duplicates();
    b.lemma_multiset_has_no_duplicates_conv();
    assert forall|x: T| b.contains(x) <==> a.contains(x) by {
        broadcast use vstd::seq_lib::group_to_multiset_ensures;
        assert(b.to_multiset().count(x) == a.to_multiset().count(x));
        assert(b.contains(x) <==> b.to_multiset().count(x) > 0);
        assert(a.contains(x) <==> a.to_multiset().count(x) > 0);
    }
}

/// The active intervals hold pairwise distinct registers.
pub open spec fn regs_distinct(act: Seq<(LiveInterval, PhysReg)>) -> bool {
    forall|i: int, j: int| 0 <= i < j < act.len() ==> act[i].1 != act[j].1
}

pub proof fn lemma_regs_distinct_no_dup(act: Seq<(LiveInterval, PhysReg)>)
    requires
        regs_distinct(act),
    ensures
        act.no_duplicates(),
{
}

pub proof fn lemma_permutation_regs(a: Seq<(LiveInterval, PhysReg)>, b: Seq<(LiveInterval, PhysReg)>)
    requires
        a.to_multiset() == b.to_multiset(),
        regs_distinct(a),
    ensures
        regs_distinct(b),
        b.len() == a.len(),
        forall|x: (LiveInterval, PhysReg)| b.contains(x) <==> a.contains(x),
{
    lemma_permutation(a, b);
    assert forall|i: int, j: int| 0 <= i < j < b.len() implies b[i].1 != b[j].1 by {
        assert(a.contains(b[i]));
        assert(a.contains(b[j]));
        let p = choose|p: int| 0 <= p < a.len() && a[p] == b[i];
        let q = choose|q: int| 0 <= q < a.len() && a[q] == b[j];
        if p == q {
            assert(b[i] == b[j]);
        } else if p < q {
        } else {
        }
    }
}

pub proof fn lemma_counts_push(e: Seq<(VReg, Location)>, x: (VReg, Location))
    ensures
        stack_count(e.push(x)) == stack_count(e) + if x.1 is Stack { 1nat } else { 0nat },
        highest_slot(e.push(x)) == match x.1 {
            Location::Stack(s) => match highest_slot(e) {
                Some(h) => Some(if h < s.index { s.index } else { h }),
                None => Some(s.index),
            },
            Location::Reg(_) => highest_slot(e),
        },
{
    assert(e.push(x).drop_last() == e);
}

/// Every stack slot the entries use is below `s`.
pub open spec fn slots_below(e: Seq<(VReg, Location)>, s: u32) -> bool {
    forall|j: int| 0 <= j < e.len() ==> (#[trigger] e[j].1 matches Location::Stack(t) ==> t.index < s)
}

pub proof fn lemma_highest_below(e: Seq<(VReg, Location)>, s: u32)
    requires
        slots_below(e, s),
    ensures
        highest_slot(e) matches Some(h) ==> h < s,
    decreases e.len(),
{
    if e.len() > 0 {
        assert(slots_below(e.drop_last(), s)) by {
            assert forall|j: int| 0 <= j < e.drop_last().len() implies
                (#[trigger] e.drop_last()[j].1 matches Location::Stack(t) ==> t.index < s) by {
                assert(e.drop_last()[j] == e[j]);
            }
        }
        lemma_highest_below(e.drop_last(), s);
        assert(e.last() == e[e.len() - 1]);
    }
}

pub proof fn lemma_counts_update(e: Seq<(VReg, Location)>, i: int, x: (VReg, Location), s: u32)
    requires
        0 <= i < e.len(),
        e[i].1 is Reg,
        x.1 == Location::Stack(StackSlot { index: s }),
        slots_below(e, s),
    ensures
        stack_count(e.update(i, x)) == stack_count(e) + 1,
        highest_slot(e.update(i, x)) == Some(s),
    decreases e.len(),
{
    let u = e.update(i, x);
    if i == e.len() - 1 {
        assert(u.drop_last() == e.drop_last());
        assert(slots_below(e.drop_last(), s)) by {
            assert forall|j: int| 0 <= j < e.drop_last().len() implies
                (#[trigger] e.drop_last()[j].1 matches Location::Stack(t) ==> t.index < s) by {
                assert(e.drop_last()[j] == e[j]);
            }
        }
        lemma_highest_below(e.drop_last(), s);
    } else {
        assert(u.drop_last() == e.drop_last().update(i, x));
        assert(slots_below(e.drop_last(), s)) by {
            assert forall|j: int| 0 <= j < e.drop_last().len() implies
                (#[trigger] e.drop_last()[j].1 matches Location::Stack(t) ==> t.index < s) by {
                assert(e.drop_last()[j] == e[j]);
            }
        }
        lemma_counts_update(e.drop_last(), i, x, s);
        assert(u.last() == e.last());
        assert(e.last() == e[e.len() - 1]);
    }
}

/// No value has two intervals.
/// The stack slots of the entries are numbered densely from zero, each used
/// once: every slot index is below `slots`, no two entries share a slot, and
/// `slots` entries are on the stack.
pub open spec fn slots_dense(e: Seq<(VReg, Location)>, slots: u32) -> bool {
    &&& slots_below(e, slots)
    &&& stack_count(e) == slots
    &&& forall|i: int, j: int| 0 <= i < j < e.len() && e[i].1 is Stack ==> e[i].1 != e[j].1
}

/// The slot indices the entries use.
pub open spec fn used_slots(e: Seq<(VReg, Location)>) -> Set<int> {
    Set::new(|i: int| exists|j: int| 0 <= j < e.len() && #[trigger] e[j].1 == Location::Stack(StackSlot { index: i as u32 })
        && 0 <= i <= u32::MAX)
}

proof fn lemma_used_slots_len(e: Seq<(VReg, Location)>)
    requires
        forall|i: int, j: int| 0 <= i < j < e.len() && e[i].1 is Stack ==> e[i].1 != e[j].1,
    ensures
        used_slots(e).finite(),
        used_slots(e).len() == stack_count(e),
    decreases e.len(),
{
    if e.len() == 0 {
        assert(used_slots(e) =~= Set::<int>::empty());
    } else {
        let p = e.drop_last();
        assert forall|i: int, j: int| 0 <= i < j < p.len() && p[i].1 is Stack implies p[i].1 != p[j].1 by {
            assert(p[i] == e[i] && p[j] == e[j]);
        }
        lemma_used_slots_len(p);
        match e.last().1 {
            Location::Stack(t) => {
                let ti = t.index as int;
                assert(used_slots(e) =~= used_slots(p).insert(ti)) by {
                    assert forall|i: int| used_slots(e).contains(i) implies used_slots(p).insert(ti).contains(i) by {
                        let j = choose|j: int| 0 <= j < e.len() && #[trigger] e[j].1 == Location::Stack(StackSlot { index: i as u32 })
                            && 0 <= i <= u32::MAX;
                        if j < p.len() {
                            assert(p[j] == e[j]);
                        }
                    }
                    assert forall|i: int| used_slots(p).insert(ti).contains(i) implies used_slots(e).contains(i) by {
                        if i == ti {
                            assert(e[e.len() - 1].1 == Location::Stack(StackSlot { index: i as u32 }));
                        } else {
                            let j = choose|j: int| 0 <= j < p.len() && #[trigger] p[j].1 == Location::Stack(StackSlot { index: i as u32 })
                                && 0 <= i <= u32::MAX;
                            assert(e[j] == p[j]);
                        }
                    }
                }
                assert(!used_slots(p).contains(ti)) by {
                    if used_slots(p).contains(ti) {
                        let j = choose|j: int| 0 <= j < p.len() && #[trigger] p[j].1 == Location::Stack(StackSlot { index: ti as u32 })
                            && 0 <= ti <= u32::MAX;
                        assert(e[j] == p[j]);
                        assert(e[j].1 != e[e.len() - 1].1);
                    }
                }
            },
            Location::Reg(_) => {
                assert(used_slots(e) =~= used_slots(p)) by {
                    assert forall|i: int| used_slots(e).contains(i) implies used_slots(p).contains(i) by {
                        let j = choose|j: int| 0 <= j < e.len() && #[trigger] e[j].1 == Location::Stack(StackSlot { index: i as u32 })
                            && 0 <= i <= u32::MAX;
                        assert(j < p.len());
                        assert(p[j] == e[j]);
                    }
                    assert forall|i: int| used_slots(p).contains(i) implies used_slots(e).contains(i) by {
                        let j = choose|j: int| 0 <= j < p.len() && #[trigger] p[j].1 == Location::Stack(StackSlot { index: i as u32 })
                            && 0 <= i <= u32::MAX;
                        assert(e[j] == p[j]);
                    }
                }
            },
        }
    }
}

/// Densely numbered slots are exactly `0 .. slots`, each used once.
pub proof fn lemma_slots_dense_cover(e: Seq<(VReg, Location)>, slots: u32)
    requires
        slots_dense(e, slots),
    ensures
        forall|i: int| 0 <= i < slots <==> #[trigger] used_slots(e).contains(i),
        forall|j1: int, j2: int| 0 <= j1 < j2 < e.len() && e[j1].1 is Stack ==> e[j1].1 != e[j2].1,
{
    lemma_used_slots_len(e);
    vstd::set_lib::lemma_int_range(0, slots as int);
    assert(used_slots(e).subset_of(vstd::set_lib::set_int_range(0, slots as int))) by {
        assert forall|i: int| used_slots(e).contains(i) implies vstd::set_lib::set_int_range(0, slots as int).contains(i) by {
            let j = choose|j: int| 0 <= j < e.len() && #[trigger] e[j].1 == Location::Stack(StackSlot { index: i as u32 })
                && 0 <= i <= u32::MAX;
            assert(e[j].1 matches Location::Stack(t) ==> t.index < slots);
        }
    }
    vstd::set_lib::lemma_subset_equality(used_slots(e), vstd::set_lib::set_int_range(0, slots as int));
    assert forall|i: int| 0 <= i < slots <==> #[trigger] used_slots(e).contains(i) by {
        assert(vstd::set_lib::set_int_range(0, slots as int).contains(i) == (0 <= i < slots));
    }
}

pub open spec fn values_distinct(ivs: Seq<LiveInterval>) -> bool {
    forall|i: int, j: int| 0 <= i < j < ivs.len() ==> ivs[i].v != ivs[j].v
}

/// The inputs on which an allocation by register choice and fresh slots always
/// passes the verifier: one interval per value, distinct allocatable registers,
/// none of them scratch.
pub open spec fn allocation_ready(ivs: Seq<LiveInterval>, regs: PhysRegSet) -> bool {
    &&& values_distinct(ivs)
    &&& regs.regs@.no_duplicates()
    &&& forall|r: PhysReg| regs.regs@.contains(r) ==> !regs.scratch@.contains(r)
}

pub open spec fn starts_sorted(ord: Seq<LiveInterval>) -> bool {
    forall|i: int, j: int| 0 <= i <= j < ord.len() ==> ord[i].start.0 <= ord[j].start.0
}

/// The linear-scan allocator.
pub struct LinearScan;

/// `v` is the value of one of the first `k` sorted intervals.
pub open spec fn is_processed(ord: Seq<LiveInterval>, k: int, v: VReg) -> bool {
    exists|a: int| 0 <= a < k && ord[a].v == v
}

/// The state the allocation loop keeps: `ord` are the sorted intervals, the first
/// `k` of them processed, `e` the entries built so far.
pub open spec fn scan_state(
    ord: Seq<LiveInterval>, k: int, e: Seq<(VReg, Location)>, act: Seq<(LiveInterval, PhysReg)>,
    free: Seq<PhysReg>, allowed: Seq<PhysReg>, scratch: Seq<PhysReg>, slots: u32,
) -> bool {
    &&& 0 <= k <= ord.len()
    &&& keys_distinct(e)
    &&& e.len() == k
    &&& forall|a: int| 0 <= a < k ==> has_key(e, #[trigger] ord[a].v)
    &&& forall|j: int| 0 <= j < e.len() ==> is_processed(ord, k, #[trigger] e[j].0)
    // registers come from the allowed set and never from scratch
    &&& forall|j: int| 0 <= j < e.len() ==> (#[trigger] e[j].1 matches Location::Reg(r) ==> allowed.contains(r) && !scratch.contains(r))
    &&& forall|r: PhysReg| free.contains(r) ==> allowed.contains(r)
    &&& free.no_duplicates()
    &&& regs_distinct(act)
    &&& forall|i: int, r: PhysReg| 0 <= i < act.len() && free.contains(r) ==> act[i].1 != r
    &&& forall|i: int| 0 <= i < act.len() ==> has_key(e, (#[trigger] act[i]).0.v)
        && value_at(e, act[i].0.v) == Location::Reg(act[i].1)
        && exists|a: int| 0 <= a < k && ord[a] == act[i].0
    // a register not held by an active interval was last used by an interval that ended
    &&& forall|a: int| 0 <= a < k && (value_at(e, #[trigger] ord[a].v) matches Location::Reg(r)
        && !act.contains((ord[a], r)))
        ==> forall|m: int| k <= m < ord.len() ==> ord[a].end.0 < #[trigger] ord[m].start.0
    // no two processed overlapping intervals share a register
    &&& forall|a: int, b: int| 0 <= a < k && 0 <= b < k && a != b
        && spec_overlaps(ord[a], ord[b]) && value_at(e, ord[a].v) is Reg
        ==> value_at(e, ord[a].v) != value_at(e, ord[b].v)
    // stack slots are distinct and numbered densely from zero
    &&& slots_below(e, slots)
    &&& stack_count(e) == slots
    &&& highest_slot(e) == if slots == 0 { None } else { Some((slots - 1) as u32) }
    &&& forall|i: int, j: int| 0 <= i < j < e.len() && e[i].1 is Stack ==> e[i].1 != e[j].1
}

/// The entries of `s` whose interval has not ended before `start`, in order.
pub open spec fn still_active(s: Seq<(LiveInterval, PhysReg)>, start: u32) -> Seq<(LiveInterval, PhysReg)>
    decreases s.len(),
{
    if s.len() == 0 {
        s
    } else {
        let t = still_active(s.drop_last(), start);
        if s.last().0.end.0 < start { t } else { t.push(s.last()) }
    }
}

/// The registers of the entries of `s` whose interval ended before `start`, in order.
pub open spec fn expired_regs(s: Seq<(LiveInterval, PhysReg)>, start: u32) -> Seq<PhysReg>
    decreases s.len(),
{
    if s.len() == 0 {
        seq![]
    } else {
        let t = expired_regs(s.drop_last(), start);
        if s.last().0.end.0 < start { t.push(s.last().1) } else { t }
    }
}

/// One step of the scan on interval `iv`, from the map entries, the active
/// intervals with their registers, the free registers and the slots used: the
/// active intervals are sorted by end and those that ended before `iv` starts
/// free their registers; then `iv` takes the last free register, or a fresh
/// slot when nothing is active, or else the register of the active interval
/// that ends last when that one ends after `iv` (which moves to a fresh slot),
/// or a fresh slot.
pub open spec fn scan_step(
    st: (Seq<(VReg, Location)>, Seq<(LiveInterval, PhysReg)>, Seq<PhysReg>, nat),
    iv: LiveInterval,
) -> (Seq<(VReg, Location)>, Seq<(LiveInterval, PhysReg)>, Seq<PhysReg>, nat) {
    let (e, act0, free0, slots) = st;
    let sorted = insertion_sorted(act0, end_le());
    let act = still_active(sorted, iv.start.0);
    let free = free0 + expired_regs(sorted, iv.start.0);
    let fresh = Location::Stack(StackSlot { index: slots as u32 });
    if free.len() > 0 {
        (entries_insert(e, iv.v, Location::Reg(free.last())), act.push((iv, free.last())), free.drop_last(), slots)
    } else if act.len() == 0 {
        (entries_insert(e, iv.v, fresh), act, free, slots + 1)
    } else {
        let s = insertion_sorted(act, end_le());
        let last = s.last();
        if last.0.end.0 > iv.end.0 {
            (entries_insert(entries_insert(e, last.0.v, fresh), iv.v, Location::Reg(last.1)),
                s.drop_last().push((iv, last.1)), free, slots + 1)
        } else {
            (entries_insert(e, iv.v, fresh), s, free, slots + 1)
        }
    }
}

/// The scan state after the first `k` of the sorted intervals, starting from
/// no entries, nothing active and the `allowed` registers free.
pub open spec fn scan_run(ord: Seq<LiveInterval>, allowed: Seq<PhysReg>, k: int)
    -> (Seq<(VReg, Location)>, Seq<(LiveInterval, PhysReg)>, Seq<PhysReg>, nat)
    decreases k,
{
    if k <= 0 || k > ord.len() {
        (seq![], seq![], allowed, 0)
    } else {
        scan_step(scan_run(ord, allowed, k - 1), ord[k - 1])
    }
}

/// What linear scan produces: the scan over the intervals sorted by start,
/// end and value number, with the first `max_regs` registers free.
pub open spec fn linear_scan_result(ivs: Seq<LiveInterval>, regs: PhysRegSet, max_regs: usize)
    -> (Seq<(VReg, Location)>, Seq<(LiveInterval, PhysReg)>, Seq<PhysReg>, nat)
{
    let ord = insertion_sorted(ivs, interval_le());
    scan_run(ord, spec_allowed(regs, max_regs), ord.len() as int)
}

/// `a` is what linear scan gives: the scan's entries, in order, and its slot count.
pub open spec fn scan_gives(ivs: Seq<LiveInterval>, regs: PhysRegSet, max_regs: usize, a: Assignment) -> bool {
    let (e, act, free, slots) = linear_scan_result(ivs, regs, max_regs);
    location_entries(a.map) == e && a.spills == slots && a.stack_slots == slots
}

/// Linear scan is deterministic: two allocations of the same intervals with
/// the same registers have the same entries in the same order, and the same
/// spill and slot counts.
pub proof fn lemma_linear_scan_deterministic(ivs: Seq<LiveInterval>, regs: PhysRegSet, max_regs: usize, a1: Assignment, a2: Assignment)
    requires
        scan_gives(ivs, regs, max_regs, a1),
        scan_gives(ivs, regs, max_regs, a2),
    ensures
        location_entries(a1.map) == location_entries(a2.map),
        a1.spills == a2.spills,
        a1.stack_slots == a2.stack_slots,
{
}

impl LinearScan {
    /// Moves the active intervals that ended before `current` starts back to the
    /// free registers, in order of their end.
    fn expire_old(
        active: &mut Vec<(LiveInterval, PhysReg)>,
        current: &LiveInterval,
        free: &mut Vec<PhysReg>,
    )
        ensures
            expire_pre(old(active)@, old(free)@) ==> expire_pre(final(active)@, final(free)@),
            forall|x: (LiveInterval, PhysReg)| final(active)@.contains(x) ==> old(active)@.contains(x),
            forall|x: (LiveInterval, PhysReg)| old(active)@.contains(x) ==>
                final(active)@.contains(x) || (x.0.end.0 < current.start.0 && final(free)@.contains(x.1)),
            forall|r: PhysReg| final(free)@.contains(r) ==>
                old(free)@.contains(r) || exists|x: (LiveInterval, PhysReg)| old(active)@.contains(x) && x.1 == r,
            final(active)@ == still_active(insertion_sorted(old(active)@, end_le()), current.start.0),
            final(free)@ == old(free)@ + expired_regs(insertion_sorted(old(active)@, end_le()), current.start.0),
    {
        let ghost orig = active@;
        let ghost pre = expire_pre(active@, free@);
        sort_by_end(active);
        let ghost sorted = active@;
        let ghost mut m: int = 0;
        proof {
            active@.to_multiset_ensures();
            orig.to_multiset_ensures();
            assert forall|x: (LiveInterval, PhysReg)| active@.contains(x) <==> orig.contains(x) by {
                assert(active@.to_multiset().count(x) == orig.to_multiset().count(x));
            }
            if pre {
                lemma_permutation_regs(orig, active@);
                assert forall|i: int, r: PhysReg| 0 <= i < active@.len() && free@.contains(r) implies active@[i].1 != r by {
                    assert(orig.contains(active@[i]));
                }
            }
        }
        let mut index: usize = 0;
        while index < active.len()
            invariant
                index <= active@.len(),
                pre ==> expire_pre(active@, free@),
                forall|x: (LiveInterval, PhysReg)| active@.contains(x) ==> orig.contains(x),
                forall|x: (LiveInterval, PhysReg)| orig.contains(x) ==>
                    active@.contains(x) || (x.0.end.0 < current.start.0 && free@.contains(x.1)),
                forall|r: PhysReg| free@.contains(r) ==>
                    old(free)@.contains(r) || exists|x: (LiveInterval, PhysReg)| orig.contains(x) && x.1 == r,
                sorted == insertion_sorted(orig, end_le()),
                0 <= m <= sorted.len(),
                active@ == still_active(sorted.take(m), current.start.0) + sorted.skip(m),
                index == still_active(sorted.take(m), current.start.0).len(),
                free@ == old(free)@ + expired_regs(sorted.take(m), current.start.0),
            decreases active@.len() - index,
        {
            proof {
                assert(sorted.take(m + 1).drop_last() =~= sorted.take(m));
                assert(active@[index as int] == sorted[m]);
            }
            if active[index].0.end.0 < current.start.0 {
                let ghost before = active@;
                let ghost before_free = free@;
                let (interval, register) = active.remove(index);
                proof {
                    assert(before[index as int] == (interval, register));
                    assert forall|x: (LiveInterval, PhysReg)| active@.contains(x) implies before.contains(x) by {
                        let p = choose|p: int| 0 <= p < active@.len() && active@[p] == x;
                        if p < index { assert(before[p] == x); } else { assert(before[p + 1] == x); }
                    }
                    assert forall|x: (LiveInterval, PhysReg)| before.contains(x) && x != (interval, register)
                        implies active@.contains(x) by {
                        let p = choose|p: int| 0 <= p < before.len() && before[p] == x;
                        if p < index { assert(active@[p] == x); } else if p > index { assert(active@[p - 1] == x); }
                    }
                }
                free.push(register);
                proof {
                    assert(free@ == before_free.push(register));
                  if pre {
                    assert forall|i: int, j: int| 0 <= i < j < active@.len() implies active@[i].1 != active@[j].1 by {
                        let (p, q) = (if i < index { i } else { i + 1 }, if j < index { j } else { j + 1 });
                        assert(active@[i] == before[p]);
                        assert(active@[j] == before[q]);
                    }
                    assert forall|i: int, r: PhysReg| 0 <= i < active@.len() && free@.contains(r) implies active@[i].1 != r by {
                        let p = if i < index { i } else { i + 1 };
                        assert(active@[i] == before[p]);
                        if r == register {
                            assert(p != index);
                        } else {
                            assert(before_free.contains(r));
                        }
                    }
                    assert(free@.no_duplicates()) by {
                        assert forall|i: int, j: int| 0 <= i < j < free@.len() implies free@[i] != free@[j] by {
                            if j == free@.len() - 1 {
                                assert(before_free.contains(free@[i]));
                                assert(before[index as int].1 == register);
                            }
                        }
                    }
                  }
                    assert forall|x: (LiveInterval, PhysReg)| orig.contains(x) implies
                        active@.contains(x) || (x.0.end.0 < current.start.0 && free@.contains(x.1)) by {
                        if x == (interval, register) {
                            assert(free@[free@.len() - 1] == register);
                        } else if before.contains(x) {
                        } else {
                            assert(before_free.contains(x.1));
                            let k = choose|k: int| 0 <= k < before_free.len() && before_free[k] == x.1;
                            assert(free@[k] == x.1);
                        }
                    }
                    assert forall|r: PhysReg| free@.contains(r) implies
                        old(free)@.contains(r) || exists|x: (LiveInterval, PhysReg)| orig.contains(x) && x.1 == r by {
                        if r == register {
                            assert(orig.contains((interval, register)));
                        } else {
                            let k = choose|k: int| 0 <= k < free@.len() && free@[k] == r;
                            assert(before_free[k] == r);
                        }
                    }
                    assert(active@ =~= still_active(sorted.take(m + 1), current.start.0) + sorted.skip(m + 1));
                    assert(free@ =~= old(free)@ + expired_regs(sorted.take(m + 1), current.start.0));
                    m = m + 1;
                }
            } else {
                proof {
                    assert(active@ =~= still_active(sorted.take(m + 1), current.start.0) + sorted.skip(m + 1));
                    m = m + 1;
                }
                index += 1;
            }
        }
        proof {
            assert(sorted.take(m) =~= sorted);
            assert(active@ =~= still_active(sorted, current.start.0));
        }
    }
}


/// Re-establishes the loop state after the active list was reordered or shrunk by
/// expiry at position `k`.
proof fn lemma_state_after_expire(
    ord: Seq<LiveInterval>, k: int, e: Seq<(VReg, Location)>,
    act: Seq<(LiveInterval, PhysReg)>, free: Seq<PhysReg>,
    act2: Seq<(LiveInterval, PhysReg)>, free2: Seq<PhysReg>,
    allowed: Seq<PhysReg>, scratch: Seq<PhysReg>, slots: u32,
)
    requires
        scan_state(ord, k, e, act, free, allowed, scratch, slots),
        k < ord.len(),
        starts_sorted(ord),
        regs_distinct(act2),
        free2.no_duplicates(),
        forall|i: int, r: PhysReg| 0 <= i < act2.len() && free2.contains(r) ==> act2[i].1 != r,
        forall|x: (LiveInterval, PhysReg)| act2.contains(x) ==> act.contains(x),
        forall|x: (LiveInterval, PhysReg)| act.contains(x) ==>
            act2.contains(x) || (x.0.end.0 < ord[k].start.0 && free2.contains(x.1)),
        forall|r: PhysReg| free2.contains(r) ==>
            free.contains(r) || exists|x: (LiveInterval, PhysReg)| act.contains(x) && x.1 == r,
    ensures
        scan_state(ord, k, e, act2, free2, allowed, scratch, slots),
{

    assert forall|r: PhysReg| free2.contains(r) implies allowed.contains(r) by {
        if !free.contains(r) {
            let x = choose|x: (LiveInterval, PhysReg)| act.contains(x) && x.1 == r;
            let i = choose|i: int| 0 <= i < act.len() && act[i] == x;
            lemma_key_index(e, act[i].0.v);
            let j = key_index(e, act[i].0.v);
            assert(e[j].1 == Location::Reg(r));
        }
    }
    assert forall|i: int| 0 <= i < act2.len() implies has_key(e, (#[trigger] act2[i]).0.v)
        && value_at(e, act2[i].0.v) == Location::Reg(act2[i].1)
        && exists|a: int| 0 <= a < k && ord[a] == act2[i].0 by {
        assert(act.contains(act2[i]));
        let p = choose|p: int| 0 <= p < act.len() && act[p] == act2[i];
        assert(has_key(e, act[p].0.v));
    }
    assert forall|a: int| 0 <= a < k && (value_at(e, #[trigger] ord[a].v) matches Location::Reg(r)
        && !act2.contains((ord[a], r)))
        implies forall|m: int| k <= m < ord.len() ==> ord[a].end.0 < #[trigger] ord[m].start.0 by {
        let r = value_at(e, ord[a].v)->Reg_0;
        if act.contains((ord[a], r)) {
            assert(ord[a].end.0 < ord[k].start.0);
            assert forall|m: int| k <= m < ord.len() implies ord[a].end.0 < #[trigger] ord[m].start.0 by {
                assert(ord[k].start.0 <= ord[m].start.0);
            }
        }
    }
}

/// One step in which the interval at `k` takes the free register `r`.
proof fn lemma_step_free(
    ord: Seq<LiveInterval>, k: int, e: Seq<(VReg, Location)>,
    act: Seq<(LiveInterval, PhysReg)>, free: Seq<PhysReg>,
    allowed: Seq<PhysReg>, scratch: Seq<PhysReg>, slots: u32,
)
    requires
        scan_state(ord, k, e, act, free, allowed, scratch, slots),
        k < ord.len(),
        free.len() > 0,
        values_distinct(ord),
        starts_sorted(ord),
        forall|r: PhysReg| allowed.contains(r) ==> !scratch.contains(r),
    ensures
        scan_state(ord, k + 1, entries_insert(e, ord[k].v, Location::Reg(free.last())),
            act.push((ord[k], free.last())), free.drop_last(), allowed, scratch, slots),
{
    let c = ord[k];
    let r = free.last();
    let e2 = entries_insert(e, c.v, Location::Reg(r));
    let act2 = act.push((c, r));
    let free2 = free.drop_last();
    lemma_entries_insert(e, c.v, Location::Reg(r));
    assert(!has_key(e, c.v)) by {
        lemma_key_index(e, c.v);
        if has_key(e, c.v) {
            let j = key_index(e, c.v);
            let a = choose|a: int| 0 <= a < k && ord[a].v == e[j].0;
        }
    }
    lemma_key_index(e, c.v);
    assert(e2 == e.push((c.v, Location::Reg(r))));
    assert(free.contains(r)) by { assert(free[free.len() - 1] == r); }
    assert forall|j: int| 0 <= j < e2.len() implies is_processed(ord, k + 1, #[trigger] e2[j].0) by {
        if j < e.len() {
            assert(e2[j] == e[j]);
            let a = choose|a: int| 0 <= a < k && ord[a].v == e[j].0;
        } else {
            assert(ord[k].v == e2[j].0);
        }
    }
    assert forall|a: int| 0 <= a < k + 1 implies has_key(e2, #[trigger] ord[a].v) by {
        if a < k { assert(ord[a].v != c.v); }
    }
    assert forall|j: int| 0 <= j < e2.len() implies (#[trigger] e2[j].1 matches Location::Reg(q) ==> allowed.contains(q) && !scratch.contains(q)) by {
        if j < e.len() { assert(e2[j] == e[j]); }
    }
    assert forall|i: int, q: PhysReg| 0 <= i < act2.len() && free2.contains(q) implies act2[i].1 != q by {
        let p = choose|p: int| 0 <= p < free2.len() && free2[p] == q;
        assert(free[p] == q);
        assert(free.contains(q));
        if i == act.len() {
            assert(free[free.len() - 1] == r);
            assert(p < free.len() - 1);
            assert(free[p] != free[free.len() - 1]);
        } else {
            assert(act2[i] == act[i]);
            assert(act[i].1 != q);
        }
    }
    assert forall|i: int, j: int| 0 <= i < j < act2.len() implies act2[i].1 != act2[j].1 by {
        if j == act.len() {
            assert(act2[i] == act[i]);
        }
    }
    assert forall|q: PhysReg| free2.contains(q) implies allowed.contains(q) by {
        let p = choose|p: int| 0 <= p < free2.len() && free2[p] == q;
        assert(free[p] == q);
    }
    assert forall|i: int| 0 <= i < act2.len() implies has_key(e2, (#[trigger] act2[i]).0.v)
        && value_at(e2, act2[i].0.v) == Location::Reg(act2[i].1)
        && exists|a: int| 0 <= a < k + 1 && ord[a] == act2[i].0 by {
        if i < act.len() {
            assert(act2[i] == act[i]);
            let a = choose|a: int| 0 <= a < k && ord[a] == act[i].0;
            assert(ord[a].v != c.v);
        } else {
            assert(ord[k] == act2[i].0);
        }
    }
    assert forall|a: int| 0 <= a < k + 1 && (value_at(e2, #[trigger] ord[a].v) matches Location::Reg(q)
        && !act2.contains((ord[a], q)))
        implies forall|m: int| k + 1 <= m < ord.len() ==> ord[a].end.0 < #[trigger] ord[m].start.0 by {
        if a == k {
            assert(act2[act.len() as int] == (ord[a], r));
        } else {
            assert(ord[a].v != c.v);
            let q = value_at(e2, ord[a].v)->Reg_0;
            if act.contains((ord[a], q)) {
                let i = choose|i: int| 0 <= i < act.len() && act[i] == (ord[a], q);
                assert(act2[i] == act[i]);
            }
        }
    }
    assert forall|a: int, b: int| 0 <= a < k + 1 && 0 <= b < k + 1 && a != b
        && spec_overlaps(ord[a], ord[b]) && value_at(e2, ord[a].v) is Reg
        implies value_at(e2, ord[a].v) != value_at(e2, ord[b].v) by {
        if a == k || b == k {
            let o = if a == k { b } else { a };
            assert(ord[o].v != c.v);
            if value_at(e, ord[o].v) == Location::Reg(r) {
                if act.contains((ord[o], r)) {
                    let i = choose|i: int| 0 <= i < act.len() && act[i] == (ord[o], r);
                    assert(act[i].1 != r);
                } else {
                    assert(ord[o].end.0 < ord[k].start.0);
                    assert(ord[o].start.0 <= ord[k].start.0);
                }
            }
        } else {
            assert(ord[a].v != c.v);
            assert(ord[b].v != c.v);
        }
    }
    lemma_counts_push(e, (c.v, Location::Reg(r)));
    assert(slots_below(e2, slots)) by {
        assert forall|j: int| 0 <= j < e2.len() implies (#[trigger] e2[j].1 matches Location::Stack(t) ==> t.index < slots) by {
            if j < e.len() { assert(e2[j] == e[j]); }
        }
    }
    assert forall|i: int, j: int| 0 <= i < j < e2.len() && e2[i].1 is Stack implies e2[i].1 != e2[j].1 by {
        if j < e.len() { assert(e2[i] == e[i]); assert(e2[j] == e[j]); } else { assert(e2[i] == e[i]); }
    }
}

/// One step in which the interval at `k` goes to the fresh slot `slots`.
proof fn lemma_step_stack(
    ord: Seq<LiveInterval>, k: int, e: Seq<(VReg, Location)>,
    act: Seq<(LiveInterval, PhysReg)>, free: Seq<PhysReg>,
    allowed: Seq<PhysReg>, scratch: Seq<PhysReg>, slots: u32,
)
    requires
        scan_state(ord, k, e, act, free, allowed, scratch, slots),
        k < ord.len(),
        slots < u32::MAX,
        values_distinct(ord),
        starts_sorted(ord),
    ensures
        scan_state(ord, k + 1, entries_insert(e, ord[k].v, Location::Stack(StackSlot { index: slots })),
            act, free, allowed, scratch, (slots + 1) as u32),
{
    let c = ord[k];
    let loc = Location::Stack(StackSlot { index: slots });
    let e2 = entries_insert(e, c.v, loc);
    lemma_entries_insert(e, c.v, loc);
    assert(!has_key(e, c.v)) by {
        lemma_key_index(e, c.v);
        if has_key(e, c.v) {
            let j = key_index(e, c.v);
            let a = choose|a: int| 0 <= a < k && ord[a].v == e[j].0;
        }
    }
    lemma_key_index(e, c.v);
    assert(e2 == e.push((c.v, loc)));
    assert forall|j: int| 0 <= j < e2.len() implies is_processed(ord, k + 1, #[trigger] e2[j].0) by {
        if j < e.len() {
            assert(e2[j] == e[j]);
            let a = choose|a: int| 0 <= a < k && ord[a].v == e[j].0;
        } else {
            assert(ord[k].v == e2[j].0);
        }
    }
    assert forall|a: int| 0 <= a < k + 1 implies has_key(e2, #[trigger] ord[a].v) by {
        if a < k { assert(ord[a].v != c.v); }
    }
    assert forall|j: int| 0 <= j < e2.len() implies (#[trigger] e2[j].1 matches Location::Reg(q) ==> allowed.contains(q) && !scratch.contains(q)) by {
        if j < e.len() { assert(e2[j] == e[j]); }
    }
    assert forall|i: int| 0 <= i < act.len() implies has_key(e2, (#[trigger] act[i]).0.v)
        && value_at(e2, act[i].0.v) == Location::Reg(act[i].1)
        && exists|a: int| 0 <= a < k + 1 && ord[a] == act[i].0 by {
        let a = choose|a: int| 0 <= a < k && ord[a] == act[i].0;
        assert(ord[a].v != c.v);
    }
    assert forall|a: int| 0 <= a < k + 1 && (value_at(e2, #[trigger] ord[a].v) matches Location::Reg(q)
        && !act.contains((ord[a], q)))
        implies forall|m: int| k + 1 <= m < ord.len() ==> ord[a].end.0 < #[trigger] ord[m].start.0 by {
        if a < k {
            assert(ord[a].v != c.v);
        }
    }
    assert forall|a: int, b: int| 0 <= a < k + 1 && 0 <= b < k + 1 && a != b
        && spec_overlaps(ord[a], ord[b]) && value_at(e2, ord[a].v) is Reg
        implies value_at(e2, ord[a].v) != value_at(e2, ord[b].v) by {
        if a != k && b != k {
            assert(ord[a].v != c.v);
            assert(ord[b].v != c.v);
        } else if a != k {
            assert(ord[a].v != c.v);
        }
    }
    lemma_counts_push(e, (c.v, loc));
    lemma_highest_below(e, slots);
    assert(slots_below(e2, (slots + 1) as u32)) by {
        assert forall|j: int| 0 <= j < e2.len() implies (#[trigger] e2[j].1 matches Location::Stack(t) ==> t.index < slots + 1) by {
            if j < e.len() { assert(e2[j] == e[j]); }
        }
    }
    assert forall|i: int, j: int| 0 <= i < j < e2.len() && e2[i].1 is Stack implies e2[i].1 != e2[j].1 by {
        assert(e2[i] == e[i]);
        if j < e.len() { assert(e2[j] == e[j]); }
    }
}


/// One step in which the interval at `k` takes the register of the last active
/// interval, which moves to the fresh slot `slots`.
proof fn lemma_step_spill(
    ord: Seq<LiveInterval>, k: int, e: Seq<(VReg, Location)>,
    act: Seq<(LiveInterval, PhysReg)>, free: Seq<PhysReg>,
    allowed: Seq<PhysReg>, scratch: Seq<PhysReg>, slots: u32,
)
    requires
        scan_state(ord, k, e, act, free, allowed, scratch, slots),
        k < ord.len(),
        act.len() > 0,
        slots < u32::MAX,
        values_distinct(ord),
        starts_sorted(ord),
    ensures ({
        let l = act.len() - 1;
        let (s, r) = act[l];
        let e1 = entries_insert(e, s.v, Location::Stack(StackSlot { index: slots }));
        scan_state(ord, k + 1, entries_insert(e1, ord[k].v, Location::Reg(r)),
            act.remove(l).push((ord[k], r)), free, allowed, scratch, (slots + 1) as u32)
    }),
{
    let l = act.len() - 1;
    let (s, r) = act[l];
    let c = ord[k];
    let sl = Location::Stack(StackSlot { index: slots });
    let e1 = entries_insert(e, s.v, sl);
    let e2 = entries_insert(e1, c.v, Location::Reg(r));
    let act1 = act.remove(l).push((c, r));
    assert(act[l] == (s, r));
    assert(has_key(e, s.v) && value_at(e, s.v) == Location::Reg(r));
    lemma_key_index(e, s.v);
    let is = key_index(e, s.v);
    lemma_entries_insert(e, s.v, sl);
    assert(e1 == e.update(is, (s.v, sl)));
    assert(!has_key(e, c.v)) by {
        lemma_key_index(e, c.v);
        if has_key(e, c.v) {
            let j = key_index(e, c.v);
            assert(is_processed(ord, k, e[j].0));
            let a = choose|a: int| 0 <= a < k && ord[a].v == e[j].0;
        }
    }
    assert(c.v != s.v);
    assert(!has_key(e1, c.v));
    lemma_entries_insert(e1, c.v, Location::Reg(r));
    lemma_key_index(e1, c.v);
    assert(e2 == e1.push((c.v, Location::Reg(r))));
    // the active entries other than the spilled one keep their values
    assert forall|i: int| 0 <= i < l implies act[i].0.v != s.v && act[i].0.v != c.v by {
        assert(act[i].1 != act[l].1);
        let a = choose|a: int| 0 <= a < k && ord[a] == act[i].0;
        assert(ord[a].v != c.v);
    }
    assert forall|j: int| 0 <= j < e2.len() implies is_processed(ord, k + 1, #[trigger] e2[j].0) by {
        if j < e.len() {
            assert(e2[j].0 == e[j].0);
            assert(is_processed(ord, k, e[j].0));
            let a = choose|a: int| 0 <= a < k && ord[a].v == e[j].0;
        } else {
            assert(ord[k].v == e2[j].0);
        }
    }
    assert forall|a: int| 0 <= a < k + 1 implies has_key(e2, #[trigger] ord[a].v) by {
        if a < k { assert(ord[a].v != c.v); }
    }
    assert forall|j: int| 0 <= j < e2.len() implies (#[trigger] e2[j].1 matches Location::Reg(q) ==> allowed.contains(q) && !scratch.contains(q)) by {
        if j < e.len() && j != is { assert(e2[j] == e[j]); }
        if j == e.len() { assert(e[is].1 == Location::Reg(r)); }
    }
    assert forall|i: int, q: PhysReg| 0 <= i < act1.len() && free.contains(q) implies act1[i].1 != q by {
        if i == l {
            assert(act1[i].1 == r);
            assert(act[l].1 != q);
        } else {
            assert(act1[i] == act[i]);
        }
    }
    assert forall|i: int, j: int| 0 <= i < j < act1.len() implies act1[i].1 != act1[j].1 by {
        if j == l {
            assert(act1[i] == act[i]);
            assert(act[i].1 != act[l].1);
        } else {
            assert(act1[i] == act[i]);
            assert(act1[j] == act[j]);
        }
    }
    assert forall|i: int| 0 <= i < act1.len() implies has_key(e2, (#[trigger] act1[i]).0.v)
        && value_at(e2, act1[i].0.v) == Location::Reg(act1[i].1)
        && exists|a: int| 0 <= a < k + 1 && ord[a] == act1[i].0 by {
        if i < l {
            assert(act1[i] == act[i]);
            let a = choose|a: int| 0 <= a < k && ord[a] == act[i].0;
        } else {
            assert(ord[k] == act1[i].0);
        }
    }
    assert forall|a: int| 0 <= a < k + 1 && (value_at(e2, #[trigger] ord[a].v) matches Location::Reg(q)
        && !act1.contains((ord[a], q)))
        implies forall|m: int| k + 1 <= m < ord.len() ==> ord[a].end.0 < #[trigger] ord[m].start.0 by {
        let q = value_at(e2, ord[a].v)->Reg_0;
        if a == k {
            assert(act1[l] == (ord[a], r));
        } else {
            assert(ord[a].v != c.v);
            if ord[a].v == s.v {
                assert(value_at(e2, ord[a].v) == sl);
            } else {
                assert(value_at(e, ord[a].v) == Location::Reg(q));
                if act.contains((ord[a], q)) {
                    let i = choose|i: int| 0 <= i < act.len() && act[i] == (ord[a], q);
                    if i == l {
                        assert(ord[a].v == s.v);
                    } else {
                        assert(act1[i] == act[i]);
                    }
                }
            }
        }
    }
    assert forall|a: int, b: int| 0 <= a < k + 1 && 0 <= b < k + 1 && a != b
        && spec_overlaps(ord[a], ord[b]) && value_at(e2, ord[a].v) is Reg
        implies value_at(e2, ord[a].v) != value_at(e2, ord[b].v) by {
        if a == k || b == k {
            let o = if a == k { b } else { a };
            assert(ord[o].v != c.v);
            if ord[o].v != s.v && value_at(e, ord[o].v) == Location::Reg(r) {
                if act.contains((ord[o], r)) {
                    let i = choose|i: int| 0 <= i < act.len() && act[i] == (ord[o], r);
                    if i != l {
                        assert(act[i].1 != act[l].1);
                    }
                } else {
                    assert(ord[o].end.0 < ord[k].start.0);
                    assert(ord[o].start.0 <= ord[k].start.0);
                }
            }
        } else {
            assert(ord[a].v != c.v);
            assert(ord[b].v != c.v);
            if ord[a].v == s.v || ord[b].v == s.v {
                if ord[a].v == s.v {
                    assert(ord[b].v != s.v);
                } else {
                    assert(ord[a].v != s.v);
                }
            }
        }
    }
    lemma_counts_update(e, is, (s.v, sl), slots);
    lemma_counts_push(e1, (c.v, Location::Reg(r)));
    assert(slots_below(e2, (slots + 1) as u32)) by {
        assert forall|j: int| 0 <= j < e2.len() implies (#[trigger] e2[j].1 matches Location::Stack(t) ==> t.index < slots + 1) by {
            if j < e.len() && j != is { assert(e2[j] == e[j]); }
        }
    }
    assert forall|i: int, j: int| 0 <= i < j < e2.len() && e2[i].1 is Stack implies e2[i].1 != e2[j].1 by {
        if j == e.len() {
        } else if i == is {
            assert(e2[j] == e[j]);
            assert(e[j].1 matches Location::Stack(t) ==> t.index < slots);
        } else if j == is {
            assert(e2[i] == e[i]);
            assert(e[i].1 matches Location::Stack(t) ==> t.index < slots);
        } else {
            assert(e2[i] == e[i]);
            assert(e2[j] == e[j]);
        }
    }
}


/// The sorted copy holds the same intervals, so its values are distinct too.
proof fn lemma_sorted_copy(ivs: Seq<LiveInterval>, ord: Seq<LiveInterval>)
    requires
        ord.to_multiset() == ivs.to_multiset(),
        values_distinct(ivs),
    ensures
        values_distinct(ord),
        ord.len() == ivs.len(),
        forall|x: LiveInterval| ord.contains(x) <==> ivs.contains(x),
{
    assert(ivs.no_duplicates());
    lemma_permutation(ivs, ord);
    assert forall|i: int, j: int| 0 <= i < j < ord.len() implies ord[i].v != ord[j].v by {
        assert(ivs.contains(ord[i]));
        assert(ivs.contains(ord[j]));
        let p = choose|p: int| 0 <= p < ivs.len() && ivs[p] == ord[i];
        let q = choose|q: int| 0 <= q < ivs.len() && ivs[q] == ord[j];
        if p == q {
            assert(ord[i] == ord[j]);
        }
    }
}

/// When every sorted interval is processed, the entries meet the allocation contract.
proof fn lemma_final_valid(
    ivs: Seq<LiveInterval>, ord: Seq<LiveInterval>, e: Seq<(VReg, Location)>,
    act: Seq<(LiveInterval, PhysReg)>, free: Seq<PhysReg>,
    regs: PhysRegSet, max_regs: usize, slots: u32, a: Assignment,
)
    requires
        scan_state(ord, ord.len() as int, e, act, free, spec_allowed(regs, max_regs), regs.scratch@, slots),
        ord.to_multiset() == ivs.to_multiset(),
        values_distinct(ivs),
        location_entries(a.map) == e,
        a.spills == slots,
        a.stack_slots == slots,
        slots < u32::MAX,
    ensures
        assignment_valid(ivs, regs, max_regs, a),
{
    lemma_sorted_copy(ivs, ord);
    let n = ord.len() as int;
    let vals = interval_values(ivs);
    let vs = ivs.map_values(|x: LiveInterval| x.v);
    assert(vs.no_duplicates());
    vs.unique_seq_to_set();
    assert forall|v: VReg| vals.contains(v) <==> is_processed(ord, n, v) by {
        if vals.contains(v) {
            let i = choose|i: int| 0 <= i < vs.len() && vs[i] == v;
            assert(ord.contains(ivs[i]));
            let q = choose|q: int| 0 <= q < ord.len() && ord[q] == ivs[i];
        }
        if is_processed(ord, n, v) {
            let q = choose|q: int| 0 <= q < n && ord[q].v == v;
            assert(ivs.contains(ord[q]));
            let i = choose|i: int| 0 <= i < ivs.len() && ivs[i] == ord[q];
            assert(vs[i] == v);
        }
    }
    assert forall|v: VReg| vals.contains(v) implies has_key(e, v) by {
        let q = choose|q: int| 0 <= q < n && ord[q].v == v;
    }
    assert forall|i: int| 0 <= i < e.len() implies vals.contains(#[trigger] e[i].0) by {
        assert(is_processed(ord, n, e[i].0));
    }
    assert forall|i: int, j: int| 0 <= i < j < ivs.len() && spec_overlaps(ivs[i], ivs[j])
        implies value_at(e, ivs[i].v) != value_at(e, ivs[j].v) by {
        assert(ord.contains(ivs[i]));
        assert(ord.contains(ivs[j]));
        let p = choose|p: int| 0 <= p < ord.len() && ord[p] == ivs[i];
        let q = choose|q: int| 0 <= q < ord.len() && ord[q] == ivs[j];
        assert(p != q);
        if value_at(e, ivs[i].v) is Reg {
        } else {
            lemma_key_index(e, ivs[i].v);
            lemma_key_index(e, ivs[j].v);
            let ki = key_index(e, ivs[i].v);
            let kj = key_index(e, ivs[j].v);
            assert(ki != kj);
            if value_at(e, ivs[i].v) == value_at(e, ivs[j].v) {
                if ki < kj {
                    assert(e[ki].1 != e[kj].1);
                } else {
                    assert(e[kj].1 != e[ki].1);
                }
            }
        }
    }
}

impl Allocator for LinearScan {
    /// The allocator's name.
    fn name(&self) -> (r: &'static str)
        ensures
            r == "linear-scan",
    {
        "linear-scan"
    }

    /// Allocates in start order: an interval takes a free register, or the
    /// register of the active interval that ends last when that one ends later,
    /// or a fresh stack slot. The result is checked by `verify_assignment`.
    fn allocate(
        &self,
        intervals: &LiveIntervals,
        regs: &PhysRegSet,
        max_regs: usize,
    ) -> (r: Result<Assignment, AssignmentError>)
        ensures
            r matches Ok(a) ==> scan_gives(intervals.intervals@, *regs, max_regs, a),
            ({
                let (e, act, free, slots) = linear_scan_result(intervals.intervals@, *regs, max_regs);
                r is Ok <==> slots < u32::MAX && entries_valid(intervals.intervals@, *regs, max_regs, e, slots as u32, slots as u32)
            }),
            allocation_ready(intervals.intervals@, *regs) ==> r is Ok,
            allocation_ready(intervals.intervals@, *regs) ==> (r matches Ok(a)
                ==> slots_dense(location_entries(a.map), a.stack_slots)),
    {
        let ghost ivs = intervals.intervals@;
        let ghost good = allocation_ready(ivs, *regs);
        let register_limit = if max_regs < regs.regs.len() { max_regs } else { regs.regs.len() };
        let ghost allowed = spec_allowed(*regs, max_regs);
        assert(allowed == regs.regs@.take(register_limit as int));
        let mut free: Vec<PhysReg> = Vec::new();
        let mut i: usize = 0;
        while i < register_limit
            invariant
                i <= register_limit <= regs.regs@.len(),
                free@ == regs.regs@.take(i as int),
            decreases register_limit - i,
        {
            free.push(regs.regs[i]);
            i += 1;
            assert(free@ == regs.regs@.take(i as int));
        }
        assert(free@ == allowed);
        let mut active: Vec<(LiveInterval, PhysReg)> = Vec::new();
        let mut map = location_map_new();
        let mut stack_slots: u32 = 0;

        let mut ordered: Vec<LiveInterval> = Vec::new();
        let mut i: usize = 0;
        while i < intervals.intervals.len()
            invariant
                i <= intervals.intervals@.len(),
                ivs == intervals.intervals@,
                ordered@ == ivs.take(i as int),
            decreases intervals.intervals.len() - i,
        {
            ordered.push(intervals.intervals[i]);
            i += 1;
            assert(ordered@ == ivs.take(i as int));
        }
        assert(ordered@ == ivs);
        sort_intervals(&mut ordered);
        let ghost ord = ordered@;
        proof {
            if good {
                lemma_sorted_copy(ivs, ord);
                assert forall|j: int| 0 <= j < allowed.len() implies !regs.scratch@.contains(#[trigger] allowed[j]) by {
                    assert(regs.regs@.contains(allowed[j]));
                }
                assert(allowed.no_duplicates());
                assert(scan_state(ord, 0, location_entries(map), active@, free@, allowed, regs.scratch@, 0)) by {
                    assert(location_entries(map).len() == 0);
                }
            }
            ord.to_multiset_ensures();
            ivs.to_multiset_ensures();
        }

        let mut k: usize = 0;
        while k < ordered.len()
            invariant
                k <= ordered@.len() == ivs.len(),
                ord == ordered@,
                ivs == intervals.intervals@,
                ivs.len() < u32::MAX,
                stack_slots <= k,
                good == allocation_ready(ivs, *regs),
                allowed == spec_allowed(*regs, max_regs),
                good ==> values_distinct(ord),
                good ==> scan_state(ord, k as int, location_entries(map), active@, free@, allowed, regs.scratch@, stack_slots),
                good ==> forall|r: PhysReg| allowed.contains(r) ==> !regs.scratch@.contains(r),
                forall|a: int, b: int| 0 <= a <= b < ord.len() ==> interval_key_le(ord[a], ord[b]),
                ord == insertion_sorted(ivs, interval_le()),
                (location_entries(map), active@, free@, stack_slots as nat) == scan_run(ord, allowed, k as int),
            decreases ordered.len() - k,
        {
            let ghost st = scan_run(ord, allowed, k as int);
            assert(scan_run(ord, allowed, k + 1) == scan_step(st, ord[k as int]));
            proof {
                assert(starts_sorted(ord)) by {
                    assert forall|a: int, b: int| 0 <= a <= b < ord.len() implies ord[a].start.0 <= ord[b].start.0 by {
                        if a < b { assert(interval_key_le(ord[a], ord[b])); }
                    }
                }
            }
            let interval = ordered[k];
            let ghost act0 = active@;
            let ghost free0 = free@;
            Self::expire_old(&mut active, &interval, &mut free);
            proof {
                if good {
                    lemma_state_after_expire(ord, k as int, location_entries(map), act0, free0,
                        active@, free@, allowed, regs.scratch@, stack_slots);
                }
            }

            let ghost e0 = location_entries(map);
            let ghost free1 = free@;
            match free.pop() {
                Some(register) => {
                    proof {
                        if good {
                            assert(free1.last() == register);
                            assert(free@ == free1.drop_last());
                            lemma_step_free(ord, k as int, e0, active@, free1, allowed, regs.scratch@, stack_slots);
                        }
                    }
                    active.push((interval, register));
                    location_map_insert(&mut map, interval.v, Location::Reg(register));
                    k += 1;
                    continue;
                },
                None => {},
            }

            if active.len() == 0 {
                let slot = StackSlot { index: stack_slots };
                proof {
                    if good {
                        lemma_step_stack(ord, k as int, e0, active@, free@, allowed, regs.scratch@, stack_slots);
                    }
                }
                stack_slots += 1;
                location_map_insert(&mut map, interval.v, Location::Stack(slot));
                k += 1;
                continue;
            }

            let ghost act1 = active@;
            sort_by_end(&mut active);
            proof {
                if good {
                    lemma_permutation_regs(act1, active@);
                    assert forall|x: (LiveInterval, PhysReg)| act1.contains(x) implies active@.contains(x) by {}
                    assert forall|i: int, r: PhysReg| 0 <= i < active@.len() && free@.contains(r) implies active@[i].1 != r by {
                        assert(act1.contains(active@[i]));
                    }
                    lemma_state_after_expire(ord, k as int, e0, act1, free@, active@, free@,
                        allowed, regs.scratch@, stack_slots);
                }
            }
            let spill_index = active.len() - 1;
            if active[spill_index].0.end.0 > interval.end.0 {
                let ghost act2 = active@;
                proof {
                    if good {
                        lemma_step_spill(ord, k as int, e0, act2, free@, allowed, regs.scratch@, stack_slots);
                    }
                }
                let (spilled, register) = active.remove(spill_index);
                let slot = StackSlot { index: stack_slots };
                stack_slots += 1;
                location_map_insert(&mut map, spilled.v, Location::Stack(slot));
                active.push((interval, register));
                location_map_insert(&mut map, interval.v, Location::Reg(register));
            } else {
                let slot = StackSlot { index: stack_slots };
                proof {
                    if good {
                        lemma_step_stack(ord, k as int, e0, active@, free@, allowed, regs.scratch@, stack_slots);
                    }
                }
                stack_slots += 1;
                location_map_insert(&mut map, interval.v, Location::Stack(slot));
            }
            k += 1;
        }

        let assignment = Assignment { spills: stack_slots, stack_slots, map };
        proof {
            if good {
                lemma_final_valid(ivs, ord, location_entries(assignment.map), active@, free@,
                    *regs, max_regs, stack_slots, assignment);
            }
        }
        match verify_assignment(intervals, regs, register_limit, &assignment) {
            Ok(()) => Ok(assignment),
            Err(err) => Err(err),
        }
    }
}

} // verus!
