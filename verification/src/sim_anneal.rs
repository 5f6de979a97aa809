//! The integer core of the simulated-annealing allocator: the overlap problem,
//! its cost, the greedy and repairing colourings, the random number generator,
//! and the assignment built from a choice of register per interval.
use vstd::prelude::*;
use crate::ir::VReg;
use crate::intervals::{LiveInterval, LiveIntervals, spec_overlaps};
use crate::regalloc::{
    PhysReg, PhysRegSet, Location, StackSlot, Assignment, AssignmentError, verify_assignment,
    assignment_valid, stack_count, highest_slot, slots_needed, interval_values, reg_entry_ok,
    conflict_free, spec_allowed,
};
use crate::linear_scan::{values_distinct, allocation_ready, slots_below, lemma_counts_push, lemma_highest_below};
use crate::collections::{
    location_entries, location_map_new, location_map_insert, has_key, value_at, keys_distinct,
    entries_insert, key_index, lemma_key_index, lemma_key_index_distinct,
};

verus! {

/// The intervals to colour, the overlapping intervals of each, and the number of
/// registers; choice `reg_count` means the stack.
pub struct Problem {
    pub intervals: Vec<LiveInterval>,
    pub overlaps: Vec<Vec<usize>>,
    pub reg_count: usize,
}

/// `list` is, in increasing order, the indices of the intervals that overlap interval `i`.
pub open spec fn is_overlap_list(ivs: Seq<LiveInterval>, i: int, list: Seq<usize>) -> bool {
    &&& forall|k: int| 0 <= k < list.len() ==> (#[trigger] list[k]) < ivs.len() && list[k] != i
        && spec_overlaps(ivs[i], ivs[list[k] as int])
    &&& forall|j: int| 0 <= j < ivs.len() && j != i && spec_overlaps(ivs[i], ivs[j]) ==> list.contains(j as usize)
    &&& forall|a: int, b: int| 0 <= a < b < list.len() ==> list[a] < list[b]
}

impl Problem {
    /// The problem is built from these intervals with this register count.
    pub open spec fn well_formed(&self) -> bool {
        &&& self.overlaps@.len() == self.intervals@.len()
        &&& forall|i: int| 0 <= i < self.intervals@.len() ==>
            is_overlap_list(self.intervals@, i, #[trigger] self.overlaps@[i]@)
    }

    /// Builds the overlap lists of the intervals.
    pub fn new(intervals: &LiveIntervals, reg_count: usize) -> (p: Self)
        ensures
            p.intervals@ == intervals.intervals@,
            p.reg_count == reg_count,
            p.well_formed(),
    {
        let n = intervals.intervals.len();
        let mut data: Vec<LiveInterval> = Vec::new();
        let mut i: usize = 0;
        while i < n
            invariant
                i <= n == intervals.intervals@.len(),
                data@ == intervals.intervals@.take(i as int),
            decreases n - i,
        {
            data.push(intervals.intervals[i]);
            i += 1;
            assert(data@ == intervals.intervals@.take(i as int));
        }
        assert(data@ == intervals.intervals@);
        let mut overlaps: Vec<Vec<usize>> = Vec::new();
        let mut left: usize = 0;
        while left < n
            invariant
                left <= n == data@.len(),
                overlaps@.len() == left,
                forall|a: int| 0 <= a < left ==> is_overlap_list(data@, a, #[trigger] overlaps@[a]@),
            decreases n - left,
        {
            let mut list: Vec<usize> = Vec::new();
            let mut right: usize = 0;
            while right < n
                invariant
                    left < n == data@.len(),
                    right <= n,
                    forall|k: int| 0 <= k < list@.len() ==> (#[trigger] list@[k]) < right && list@[k] != left
                        && spec_overlaps(data@[left as int], data@[list@[k] as int]),
                    forall|j: int| 0 <= j < right && j != left && spec_overlaps(data@[left as int], data@[j])
                        ==> list@.contains(j as usize),
                    forall|a: int, b: int| 0 <= a < b < list@.len() ==> list@[a] < list@[b],
                decreases n - right,
            {
                if right != left && data[left].overlaps(&data[right]) {
                    let ghost before = list@;
                    list.push(right);
                    proof {
                        assert forall|j: int| 0 <= j < right + 1 && j != left && spec_overlaps(data@[left as int], data@[j])
                            implies list@.contains(j as usize) by {
                            if j < right {
                                let k = choose|k: int| 0 <= k < before.len() && before[k] == j as usize;
                                assert(list@[k] == j as usize);
                            } else {
                                assert(list@[list@.len() - 1] == j as usize);
                            }
                        }
                    }
                } else {
                    proof {
                        assert forall|j: int| 0 <= j < right + 1 && j != left && spec_overlaps(data@[left as int], data@[j])
                            implies list@.contains(j as usize) by {
                            if j < right {
                            }
                        }
                    }
                }
                right += 1;
            }
            overlaps.push(list);
            proof {
                assert forall|a: int| 0 <= a < left + 1 implies is_overlap_list(data@, a, #[trigger] overlaps@[a]@) by {
                    if a < left {
                    }
                }
            }
            left += 1;
        }
        Problem { intervals: data, overlaps, reg_count }
    }
}

/// The registers (below `rc`) already chosen by the earlier overlapping intervals of `index`.
pub open spec fn used_regs(list: Seq<usize>, state: Seq<usize>, index: int, rc: usize) -> Set<usize> {
    Set::new(|r: usize| r < rc && exists|k: int| 0 <= k < list.len() && list[k] < index && state[list[k] as int] == r)
}

/// The lowest register from `r` on that is not used, or `rc` when all are.
pub open spec fn first_free_from(used: Set<usize>, rc: usize, r: int) -> usize
    decreases rc - r,
{
    if r >= rc {
        rc
    } else if !used.contains(r as usize) {
        r as usize
    } else {
        first_free_from(used, rc, r + 1)
    }
}

/// The preferred register when it exists and is unused, else the lowest unused, else the stack.
pub open spec fn repair_choice(used: Set<usize>, rc: usize, pref: usize) -> usize {
    if pref < rc && !used.contains(pref) { pref } else { first_free_from(used, rc, 0) }
}

/// The choices for the first `k` intervals, each made against the earlier ones.
pub open spec fn repair_prefix(ov: Seq<Seq<usize>>, rc: usize, pref: Seq<usize>, k: nat) -> Seq<usize>
    decreases k,
{
    if k == 0 {
        seq![]
    } else {
        let s = repair_prefix(ov, rc, pref, (k - 1) as nat);
        s.push(repair_choice(used_regs(ov[k - 1], s, k - 1, rc), rc, pref[k - 1]))
    }
}

/// Every choice is a register or the stack, and overlapping intervals never
/// share a register.
pub open spec fn coloring_ok(ivs: Seq<LiveInterval>, rc: usize, state: Seq<usize>) -> bool {
    &&& state.len() == ivs.len()
    &&& forall|i: int| 0 <= i < state.len() ==> #[trigger] state[i] <= rc
    &&& forall|i: int, j: int| 0 <= i < state.len() && 0 <= j < state.len() && i != j
        && spec_overlaps(ivs[i], ivs[j]) && state[i] < rc ==> state[i] != state[j]
}

pub proof fn lemma_first_free(used: Set<usize>, rc: usize, r: int)
    requires
        0 <= r,
    ensures
        first_free_from(used, rc, r) <= rc,
        first_free_from(used, rc, r) < rc ==> !used.contains(first_free_from(used, rc, r))
            && r <= first_free_from(used, rc, r),
        forall|q: usize| r <= q < first_free_from(used, rc, r) ==> #[trigger] used.contains(q),
    decreases rc - r,
{
    if r < rc && used.contains(r as usize) {
        lemma_first_free(used, rc, r + 1);
    }
}

/// Some interval before `i` that overlaps it has choice `q` in `r`.
pub open spec fn taken_before(ivs: Seq<LiveInterval>, r: Seq<usize>, i: int, q: usize) -> bool {
    exists|j: int| 0 <= j < i && spec_overlaps(ivs[i], ivs[j]) && #[trigger] r[j] == q
}

/// What repairing preferred choices gives, interval by interval: a preferred register
/// that no earlier overlapping interval holds is kept; otherwise the choice is the lowest
/// register no earlier overlapping interval holds, or the stack (`rc`) when they hold all.
pub open spec fn repaired_from(ivs: Seq<LiveInterval>, rc: usize, preferred: Seq<usize>, r: Seq<usize>) -> bool {
    &&& r.len() == ivs.len()
    &&& forall|i: int| 0 <= i < r.len() ==> {
        &&& #[trigger] r[i] <= rc
        &&& (preferred[i] < rc && !taken_before(ivs, r, i, preferred[i])) ==> r[i] == preferred[i]
        &&& !(preferred[i] < rc && !taken_before(ivs, r, i, preferred[i])) ==> {
            &&& r[i] < rc ==> !taken_before(ivs, r, i, r[i])
            &&& forall|q: usize| q < r[i] ==> taken_before(ivs, r, i, q)
        }
    }
}

/// The choices for the first `k` intervals stay as they are when more are made.
pub proof fn lemma_repair_prefix_stable(ov: Seq<Seq<usize>>, rc: usize, pref: Seq<usize>, k: nat, m: nat)
    requires
        k <= m,
    ensures
        repair_prefix(ov, rc, pref, m).len() == m,
        forall|j: int| 0 <= j < k ==> #[trigger] repair_prefix(ov, rc, pref, k)[j] == repair_prefix(ov, rc, pref, m)[j],
    decreases m,
{
    if m > 0 {
        let k2: nat = if k < m { k } else { (m - 1) as nat };
        lemma_repair_prefix_stable(ov, rc, pref, k2, (m - 1) as nat);
    }
}

impl Problem {
    pub open spec fn ov(&self) -> Seq<Seq<usize>> {
        self.overlaps@.map_values(|v: Vec<usize>| v@)
    }

    /// The choices that greedily take the lowest register unused by earlier overlapping intervals.
    pub open spec fn spec_greedy(&self) -> Seq<usize> {
        repair_prefix(self.ov(), self.reg_count, Seq::new(self.intervals@.len(), |i: int| self.reg_count),
            self.intervals@.len())
    }

    /// The choices that keep each preferred register unless an earlier overlapping
    /// interval took it, then fall back to the lowest unused register.
    pub open spec fn spec_repair(&self, preferred: Seq<usize>) -> Seq<usize> {
        repair_prefix(self.ov(), self.reg_count, preferred, self.intervals@.len())
    }

    /// Whether overlapping intervals get distinct registers in the choices.
    pub proof fn lemma_repair_conflict_free(&self, preferred: Seq<usize>, k: nat)
        requires
            self.well_formed(),
            k <= self.intervals@.len() <= usize::MAX,
            preferred.len() == self.intervals@.len(),
        ensures
            repair_prefix(self.ov(), self.reg_count, preferred, k).len() == k,
            coloring_ok(self.intervals@.take(k as int), self.reg_count, repair_prefix(self.ov(), self.reg_count, preferred, k)),
        decreases k,
    {
        if k > 0 {
            self.lemma_repair_conflict_free(preferred, (k - 1) as nat);
            let ivs = self.intervals@;
            let rc = self.reg_count;
            let s = repair_prefix(self.ov(), rc, preferred, (k - 1) as nat);
            let list = self.ov()[k - 1];
            let used = used_regs(list, s, k - 1, rc);
            let c = repair_choice(used, rc, preferred[k - 1]);
            let t = s.push(c);
            lemma_first_free(used, rc, 0);
            assert(self.overlaps@[k - 1]@ == list);
            assert(is_overlap_list(ivs, k - 1, list));
            assert(c <= rc);
            assert(c < rc ==> !used.contains(c));
            let ti = ivs.take(k as int);
            assert forall|i: int, j: int| 0 <= i < t.len() && 0 <= j < t.len() && i != j
                && spec_overlaps(ti[i], ti[j]) && t[i] < rc implies t[i] != t[j] by {
                if i == k - 1 || j == k - 1 {
                    let o = if i == k - 1 { j } else { i };
                    assert(ti[o] == ivs[o]);
                    assert(ti[k - 1] == ivs[k - 1]);
                    assert(spec_overlaps(ivs[k - 1], ivs[o]));
                    assert(list.contains(o as usize));
                    let m = choose|m: int| 0 <= m < list.len() && list[m] == o as usize;
                    if t[i] == t[j] {
                        assert(t[o] == s[o]);
                        assert(t[k - 1] == c);
                        assert(c == s[o]);
                        assert(s[o] < rc);
                        assert(o < k - 1);
                        assert(list[m] as int == o);
                        assert(0 <= m < list.len() && list[m] < k - 1 && s[list[m] as int] == s[o]);
                        assert(used.contains(s[o]));
                    }
                } else {
                    assert(ti[i] == ivs.take(k - 1)[i]);
                    assert(ti[j] == ivs.take(k - 1)[j]);
                    assert(t[i] == s[i]);
                    assert(t[j] == s[j]);
                }
            }
            assert forall|i: int| 0 <= i < t.len() implies #[trigger] t[i] <= rc by {
                if i < k - 1 { assert(t[i] == s[i]); }
            }
        }
    }

    /// Repair keeps each preferred register that no earlier overlapping interval
    /// holds, and otherwise takes the lowest register no earlier overlapping interval
    /// holds, or the stack when they hold all.
    pub proof fn lemma_repair_choices(&self, preferred: Seq<usize>)
        requires
            self.well_formed(),
            preferred.len() == self.intervals@.len(),
        ensures
            repaired_from(self.intervals@, self.reg_count, preferred, self.spec_repair(preferred)),
    {
        let ivs = self.intervals@;
        let rc = self.reg_count;
        let ov = self.ov();
        let n = ivs.len();
        let r = self.spec_repair(preferred);
        assert(self.intervals.len() == n);
        lemma_repair_prefix_stable(ov, rc, preferred, n, n);
        assert forall|i: int| 0 <= i < r.len() implies {
            &&& #[trigger] r[i] <= rc
            &&& (preferred[i] < rc && !taken_before(ivs, r, i, preferred[i])) ==> r[i] == preferred[i]
            &&& !(preferred[i] < rc && !taken_before(ivs, r, i, preferred[i])) ==> {
                &&& r[i] < rc ==> !taken_before(ivs, r, i, r[i])
                &&& forall|q: usize| q < r[i] ==> taken_before(ivs, r, i, q)
            }
        } by {
            let s = repair_prefix(ov, rc, preferred, i as nat);
            lemma_repair_prefix_stable(ov, rc, preferred, i as nat, i as nat);
            lemma_repair_prefix_stable(ov, rc, preferred, i as nat, n);
            lemma_repair_prefix_stable(ov, rc, preferred, (i + 1) as nat, n);
            let list = ov[i];
            assert(list == self.overlaps@[i]@);
            assert(is_overlap_list(ivs, i, list));
            let used = used_regs(list, s, i, rc);
            assert(repair_prefix(ov, rc, preferred, (i + 1) as nat)[i] == repair_choice(used, rc, preferred[i]));
            assert(r[i] == repair_choice(used, rc, preferred[i]));
            assert forall|q: usize| used.contains(q) <==> (q < rc && taken_before(ivs, r, i, q)) by {
                if used.contains(q) {
                    let k = choose|k: int| 0 <= k < list.len() && list[k] < i && s[list[k] as int] == q;
                    let j = list[k] as int;
                    assert(spec_overlaps(ivs[i], ivs[j]));
                    assert(r[j] == s[j]);
                }
                if q < rc && taken_before(ivs, r, i, q) {
                    let j = choose|j: int| 0 <= j < i && spec_overlaps(ivs[i], ivs[j]) && #[trigger] r[j] == q;
                    assert(list.contains(j as usize));
                    let k = choose|k: int| 0 <= k < list.len() && list[k] == j as usize;
                    assert(s[j] == r[j]);
                    assert(list[k] as int == j);
                    assert(0 <= k < list.len() && list[k] < i && s[list[k] as int] == q);
                }
            }
            lemma_first_free(used, rc, 0);
            if preferred[i] < rc && !taken_before(ivs, r, i, preferred[i]) {
                assert(!used.contains(preferred[i]));
            } else {
                assert(preferred[i] < rc ==> used.contains(preferred[i]));
                assert(r[i] == first_free_from(used, rc, 0));
                assert forall|q: usize| q < r[i] implies taken_before(ivs, r, i, q) by {
                    assert(used.contains(q));
                }
                if r[i] < rc {
                    assert(!used.contains(r[i]));
                }
            }
        }
    }

    /// Repair leaves a choice of registers alone when no two overlapping intervals share one.
    pub proof fn lemma_repair_keeps_colouring(&self, state: Seq<usize>)
        requires
            self.well_formed(),
            state.len() == self.intervals@.len(),
            forall|i: int| 0 <= i < state.len() ==> #[trigger] state[i] < self.reg_count,
            forall|i: int, j: int| 0 <= i < state.len() && 0 <= j < state.len() && i != j
                && spec_overlaps(self.intervals@[i], self.intervals@[j]) ==> state[i] != state[j],
        ensures
            self.spec_repair(state) == state,
    {
        let ivs = self.intervals@;
        let r = self.spec_repair(state);
        self.lemma_repair_choices(state);
        assert forall|i: int| 0 <= i < state.len() implies #[trigger] r[i] == state[i] by {
            self.lemma_repair_keeps_upto(state, i);
        }
        assert(r =~= state);
    }

    proof fn lemma_repair_keeps_upto(&self, state: Seq<usize>, i: int)
        requires
            self.well_formed(),
            state.len() == self.intervals@.len(),
            0 <= i < state.len(),
            forall|i: int| 0 <= i < state.len() ==> #[trigger] state[i] < self.reg_count,
            forall|i: int, j: int| 0 <= i < state.len() && 0 <= j < state.len() && i != j
                && spec_overlaps(self.intervals@[i], self.intervals@[j]) ==> state[i] != state[j],
        ensures
            self.spec_repair(state)[i] == state[i],
        decreases i,
    {
        let ivs = self.intervals@;
        let r = self.spec_repair(state);
        self.lemma_repair_choices(state);
        if taken_before(ivs, r, i, state[i]) {
            let j = choose|j: int| 0 <= j < i && spec_overlaps(ivs[i], ivs[j]) && #[trigger] r[j] == state[i];
            self.lemma_repair_keeps_upto(state, j);
        }
        assert(r[i] <= self.reg_count);
    }

    /// Greedy colouring in interval order.
    pub fn greedy_state(&self) -> (state: Vec<usize>)
        requires
            self.well_formed(),
        ensures
            state@ == self.spec_greedy(),
            coloring_ok(self.intervals@, self.reg_count, state@),
    {
        let n = self.intervals.len();
        let prefs: Vec<usize> = vec![self.reg_count; n];
        assert(prefs@ == Seq::new(n as nat, |i: int| self.reg_count));
        self.repair(&prefs)
    }

    /// Keeps each preferred register that no earlier overlapping interval took,
    /// else takes the lowest free one, else the stack.
    pub fn repair(&self, preferred: &Vec<usize>) -> (repaired: Vec<usize>)
        requires
            self.well_formed(),
            preferred@.len() == self.intervals@.len(),
        ensures
            repaired@ == self.spec_repair(preferred@),
            coloring_ok(self.intervals@, self.reg_count, repaired@),
            repaired_from(self.intervals@, self.reg_count, preferred@, repaired@),
    {
        proof { self.lemma_repair_choices(preferred@); }
        let n = self.intervals.len();
        let rc = self.reg_count;
        let ghost ov = self.ov();
        let mut repaired: Vec<usize> = vec![rc; n];
        let mut index: usize = 0;
        while index < n
            invariant
                index <= n == self.intervals@.len() == self.overlaps@.len() == preferred@.len(),
                rc == self.reg_count,
                ov == self.ov(),
                repaired@.len() == n,
                repaired@.take(index as int) == repair_prefix(ov, rc, preferred@, index as nat),
                forall|j: int| index <= j < n ==> repaired@[j] == rc,
                self.well_formed(),
            decreases n - index,
        {
            let ghost s = repair_prefix(ov, rc, preferred@, index as nat);
            let list = &self.overlaps[index];
            assert(list@ == ov[index as int]);
            let mut used: Vec<bool> = vec![false; rc];
            let mut m: usize = 0;
            while m < list.len()
                invariant
                    m <= list@.len(),
                    used@.len() == rc,
                    repaired@.len() == n,
                    index < n,
                    repaired@.take(index as int) == s,
                    forall|j: int| index <= j < n ==> repaired@[j] == rc,
                    forall|r: usize| r < rc ==> (used@[r as int] <==>
                        exists|k: int| 0 <= k < m && list@[k] < index && s[list@[k] as int] == r),
                    forall|k: int| 0 <= k < list@.len() ==> list@[k] < n,
                decreases list.len() - m,
            {
                let neighbor = list[m];
                if neighbor < index {
                    let choice = repaired[neighbor];
                    assert(s[neighbor as int] == repaired@[neighbor as int]);
                    if choice < rc {
                        let ghost before = used@;
                        used.set(choice, true);
                        assert forall|r: usize| r < rc implies (used@[r as int] <==>
                            exists|k: int| 0 <= k < m + 1 && list@[k] < index && s[list@[k] as int] == r) by {
                            if r == choice {
                                assert(list@[m as int] < index && s[list@[m as int] as int] == r);
                            } else if before[r as int] {
                                let k = choose|k: int| 0 <= k < m && list@[k] < index && s[list@[k] as int] == r;
                            }
                        }
                    } else {
                        assert forall|r: usize| r < rc implies (used@[r as int] <==>
                            exists|k: int| 0 <= k < m + 1 && list@[k] < index && s[list@[k] as int] == r) by {
                            if exists|k: int| 0 <= k < m + 1 && list@[k] < index && s[list@[k] as int] == r {
                                let k = choose|k: int| 0 <= k < m + 1 && list@[k] < index && s[list@[k] as int] == r;
                                if k < m {
                                } else {
                                    assert(s[neighbor as int] == choice);
                                }
                            }
                        }
                    }
                } else {
                    assert forall|r: usize| r < rc implies (used@[r as int] <==>
                        exists|k: int| 0 <= k < m + 1 && list@[k] < index && s[list@[k] as int] == r) by {
                        if exists|k: int| 0 <= k < m + 1 && list@[k] < index && s[list@[k] as int] == r {
                            let k = choose|k: int| 0 <= k < m + 1 && list@[k] < index && s[list@[k] as int] == r;
                            if k == m { assert(list@[k] == neighbor); }
                        }
                    }
                }
                m += 1;
            }
            let ghost used_set = used_regs(ov[index as int], s, index as int, rc);
            assert forall|r: usize| r < rc implies (used@[r as int] <==> used_set.contains(r)) by {}
            let preferred_register = preferred[index];
            let ghost choice = repair_choice(used_set, rc, preferred_register);
            proof { lemma_first_free(used_set, rc, 0); }
            if preferred_register < rc && !used[preferred_register] {
                assert(!used_set.contains(preferred_register));
                repaired.set(index, preferred_register);
            } else {
                assert(preferred_register < rc ==> used_set.contains(preferred_register));
                let mut r: usize = 0;
                while r < rc && used[r]
                    invariant
                        r <= rc == used@.len(),
                        forall|q: int| 0 <= q < r ==> used@[q],
                    decreases rc - r,
                {
                    r += 1;
                }
                proof {
                    let f = first_free_from(used_set, rc, 0);
                    if r < rc {
                        if f < r { assert(used@[f as int]); }
                        else if f > r { assert(used_set.contains(r)); }
                    } else {
                        if f < rc { assert(used@[f as int]); }
                    }
                }
                if r < rc {
                    repaired.set(index, r);
                }
                assert(repaired@[index as int] == first_free_from(used_set, rc, 0));
            }
            proof {
                assert(repaired@[index as int] == choice);
                assert(repaired@.take(index + 1) =~= s.push(choice));
            }
            index += 1;
        }
        assert(repaired@.take(n as int) == repaired@);
        proof {
            self.lemma_repair_conflict_free(preferred@, n as nat);
            assert(self.intervals@.take(n as int) == self.intervals@);
        }
        repaired
    }
}

/// One step of the generator: multiply and add, both wrapping.
pub open spec fn lcg_step(state: u64) -> u64 {
    vstd::wrapping::u64_specs::wrapping_add(
        vstd::wrapping::u64_specs::wrapping_mul(state, 6_364_136_223_846_793_005u64),
        1_442_695_040_888_963_407u64,
    )
}

/// A 64-bit linear congruential generator.
#[derive(Clone, Copy)]
pub struct Lcg {
    pub state: u64,
}

impl Lcg {
    /// A generator whose state is the seed offset by a fixed odd constant.
    pub fn new(seed: u64) -> (r: Self)
        ensures
            r.state == vstd::wrapping::u64_specs::wrapping_add(seed, 0x9E37_79B9_7F4A_7C15u64),
    {
        Self { state: seed.wrapping_add(0x9E37_79B9_7F4A_7C15) }
    }

    /// Advances the state and returns it.
    pub fn next_u64(&mut self) -> (r: u64)
        ensures
            final(self).state == lcg_step(old(self).state),
            r == final(self).state,
    {
        self.state = self.state.wrapping_mul(6_364_136_223_846_793_005).wrapping_add(1_442_695_040_888_963_407);
        self.state
    }

    /// Advances the state and reduces it below `upper`.
    pub fn next_usize(&mut self, upper: usize) -> (r: usize)
        requires
            upper > 0,
        ensures
            final(self).state == lcg_step(old(self).state),
            r == (lcg_step(old(self).state) as usize) % upper,
    {
        (self.next_u64() as usize) % upper
    }
}

/// A move of the annealing search: interval `index` goes from `old_choice`
/// to `new_choice`.
#[derive(Debug, Clone, Copy, PartialEq, Eq, Structural)]
pub struct Proposal {
    pub index: usize,
    pub old_choice: usize,
    pub new_choice: usize,
}

/// The move drawn from generator state `s` for the choices `state` with `rc`
/// registers: the interval from the next output, then a choice among the
/// registers and the stack from the one after, moved on by one (wrapping) when
/// it is the interval's present choice.
pub open spec fn drawn_move(s: u64, state: Seq<usize>, rc: usize) -> Proposal {
    let s1 = lcg_step(s);
    let s2 = lcg_step(s1);
    let index = ((s1 as usize) % (state.len() as usize)) as usize;
    let c = ((s2 as usize) % ((rc + 1) as usize)) as usize;
    let old_choice = state[index as int];
    Proposal {
        index,
        old_choice,
        new_choice: if c == old_choice { ((c + 1) % (rc + 1)) as usize } else { c },
    }
}

impl Problem {
    /// Draws a move for `current` (see `drawn_move`), advancing the generator twice.
    pub fn propose(&self, rng: &mut Lcg, current: &Vec<usize>) -> (p: Proposal)
        requires
            current@.len() > 0,
            self.reg_count < usize::MAX,
        ensures
            final(rng).state == lcg_step(lcg_step(old(rng).state)),
            p == drawn_move(old(rng).state, current@, self.reg_count),
            p.index < current@.len(),
            p.new_choice <= self.reg_count,
            self.reg_count > 0 ==> p.new_choice != p.old_choice,
    {
        let index = rng.next_usize(current.len());
        let old_choice = current[index];
        let choices = self.reg_count + 1;
        let drawn = rng.next_usize(choices);
        let mut new_choice = drawn;
        if drawn == old_choice {
            new_choice = (drawn + 1) % choices;
            proof {
                if drawn + 1 < choices {
                    vstd::arithmetic::div_mod::lemma_small_mod((drawn + 1) as nat, choices as nat);
                } else {
                    vstd::arithmetic::div_mod::lemma_mod_self_0(choices as int);
                }
            }
        }
        Proposal { index, old_choice, new_choice }
    }
}

/// The cost of one choice: a register costs its index, the stack costs 100 plus the interval length.
pub open spec fn choice_cost(iv: LiveInterval, choice: usize, rc: usize) -> int {
    if choice == rc { 100 + (iv.end.0 - iv.start.0 + 1) } else { choice as int }
}

/// The summed cost of the first `k` choices.
pub open spec fn base_cost(ivs: Seq<LiveInterval>, state: Seq<usize>, rc: usize, k: nat) -> int
    decreases k,
{
    if k == 0 { 0 } else { base_cost(ivs, state, rc, (k - 1) as nat) + choice_cost(ivs[k - 1], state[k - 1], rc) }
}

/// How many of the first `m` overlaps of `left`, after `left`, share its register.
pub open spec fn pair_conflicts(list: Seq<usize>, state: Seq<usize>, left: int, rc: usize, m: nat) -> int
    decreases m,
{
    if m == 0 {
        0
    } else {
        pair_conflicts(list, state, left, rc, (m - 1) as nat)
            + if list[m - 1] > left && state[left] < rc && state[left] == state[list[m - 1] as int] { 1int } else { 0int }
    }
}

/// The register conflicts among the overlaps of the first `k` intervals, each pair counted once.
pub open spec fn conflict_total(ov: Seq<Seq<usize>>, state: Seq<usize>, rc: usize, k: nat) -> int
    decreases k,
{
    if k == 0 { 0 } else {
        conflict_total(ov, state, rc, (k - 1) as nat)
            + pair_conflicts(ov[k - 1], state, k - 1, rc, ov[k - 1].len())
    }
}

pub proof fn lemma_base_cost_mono(ivs: Seq<LiveInterval>, state: Seq<usize>, rc: usize, k: nat, n: nat)
    requires
        k <= n <= ivs.len(),
        n <= state.len(),
        forall|i: int| 0 <= i < n && state[i] == rc ==> ivs[i].start.0 <= ivs[i].end.0,
    ensures
        0 <= base_cost(ivs, state, rc, k) <= base_cost(ivs, state, rc, n),
    decreases n,
{
    if k < n {
        lemma_base_cost_mono(ivs, state, rc, k, (n - 1) as nat);
    } else if n > 0 {
        lemma_base_cost_mono(ivs, state, rc, (n - 1) as nat, (n - 1) as nat);
    }
}

pub proof fn lemma_pair_conflicts_mono(list: Seq<usize>, state: Seq<usize>, left: int, rc: usize, m: nat, n: nat)
    requires
        m <= n,
    ensures
        0 <= pair_conflicts(list, state, left, rc, m) <= pair_conflicts(list, state, left, rc, n),
    decreases n,
{
    if m < n {
        lemma_pair_conflicts_mono(list, state, left, rc, m, (n - 1) as nat);
    } else if n > 0 {
        lemma_pair_conflicts_mono(list, state, left, rc, (n - 1) as nat, (n - 1) as nat);
    }
}

pub proof fn lemma_conflict_total_mono(ov: Seq<Seq<usize>>, state: Seq<usize>, rc: usize, k: nat, n: nat)
    requires
        k <= n,
    ensures
        0 <= conflict_total(ov, state, rc, k) <= conflict_total(ov, state, rc, n),
    decreases n,
{
    if n > 0 {
        lemma_pair_conflicts_mono(ov[n - 1], state, n - 1, rc, 0, ov[n - 1].len());
        if k < n {
            lemma_conflict_total_mono(ov, state, rc, k, (n - 1) as nat);
        } else {
            lemma_conflict_total_mono(ov, state, rc, (n - 1) as nat, (n - 1) as nat);
        }
    }
}

impl Problem {
    /// The annealing objective: choice costs plus a million per overlapping pair sharing a register.
    pub open spec fn spec_cost(&self, state: Seq<usize>) -> int {
        base_cost(self.intervals@, state, self.reg_count, self.intervals@.len())
            + 1_000_000 * conflict_total(self.ov(), state, self.reg_count, self.intervals@.len())
    }

    /// The annealing objective of a choice per interval.
    pub fn cost(&self, state: &Vec<usize>) -> (c: i64)
        requires
            self.well_formed(),
            state@.len() == self.intervals@.len(),
            forall|i: int| 0 <= i < state@.len() && state@[i] == self.reg_count ==>
                self.intervals@[i].start.0 <= self.intervals@[i].end.0
                && self.intervals@[i].end.0 - self.intervals@[i].start.0 < u32::MAX,
            self.spec_cost(state@) <= i64::MAX,
        ensures
            c == self.spec_cost(state@),
    {
        let n = state.len();
        let rc = self.reg_count;
        let ghost ivs = self.intervals@;
        let ghost ov = self.ov();
        proof {
            lemma_base_cost_mono(ivs, state@, rc, n as nat, n as nat);
            lemma_conflict_total_mono(ov, state@, rc, n as nat, n as nat);
        }
        let mut cost: i64 = 0;
        let mut index: usize = 0;
        while index < n
            invariant
                index <= n == state@.len() == ivs.len() == self.overlaps@.len(),
                ivs == self.intervals@,
                ov == self.ov(),
                rc == self.reg_count,
                cost == base_cost(ivs, state@, rc, index as nat),
                forall|i: int| 0 <= i < state@.len() && state@[i] == rc ==>
                    ivs[i].start.0 <= ivs[i].end.0 && ivs[i].end.0 - ivs[i].start.0 < u32::MAX,
                base_cost(ivs, state@, rc, n as nat) + 1_000_000 * conflict_total(ov, state@, rc, n as nat) <= i64::MAX,
                0 <= conflict_total(ov, state@, rc, n as nat),
            decreases n - index,
        {
            proof {
                lemma_base_cost_mono(ivs, state@, rc, (index + 1) as nat, n as nat);
                lemma_base_cost_mono(ivs, state@, rc, index as nat, n as nat);
                assert(base_cost(ivs, state@, rc, (index + 1) as nat)
                    == cost + choice_cost(ivs[index as int], state@[index as int], rc));
            }
            let choice = state[index];
            if choice == rc {
                let interval = self.intervals[index];
                let length = (interval.end.0 - interval.start.0 + 1) as i64;
                cost = cost + 100 + length;
            } else {
                assert(choice as int <= i64::MAX);
                cost = cost + choice as i64;
            }
            index += 1;
        }
        let mut left: usize = 0;
        while left < n
            invariant
                left <= n == state@.len() == ivs.len() == self.overlaps@.len(),
                ivs == self.intervals@,
                ov == self.ov(),
                rc == self.reg_count,
                self.well_formed(),
                cost == base_cost(ivs, state@, rc, n as nat) + 1_000_000 * conflict_total(ov, state@, rc, left as nat),
                base_cost(ivs, state@, rc, n as nat) + 1_000_000 * conflict_total(ov, state@, rc, n as nat) <= i64::MAX,
                0 <= base_cost(ivs, state@, rc, n as nat),
            decreases n - left,
        {
            let list = &self.overlaps[left];
            assert(list@ == ov[left as int]);
            assert(is_overlap_list(ivs, left as int, list@));
            proof {
                lemma_conflict_total_mono(ov, state@, rc, (left + 1) as nat, n as nat);
                lemma_conflict_total_mono(ov, state@, rc, left as nat, n as nat);
                lemma_pair_conflicts_mono(list@, state@, left as int, rc, 0, list@.len());
            }
            let mut m: usize = 0;
            while m < list.len()
                invariant
                    m <= list@.len(),
                    left < n == state@.len() == ivs.len(),
                    list@ == ov[left as int],
                    is_overlap_list(ivs, left as int, list@),
                    cost == base_cost(ivs, state@, rc, n as nat) + 1_000_000 * conflict_total(ov, state@, rc, left as nat)
                        + 1_000_000 * pair_conflicts(list@, state@, left as int, rc, m as nat),
                    base_cost(ivs, state@, rc, n as nat) + 1_000_000 * conflict_total(ov, state@, rc, (left + 1) as nat) <= i64::MAX,
                    0 <= base_cost(ivs, state@, rc, n as nat),
                    0 <= conflict_total(ov, state@, rc, left as nat),
                    conflict_total(ov, state@, rc, (left + 1) as nat) == conflict_total(ov, state@, rc, left as nat)
                        + pair_conflicts(list@, state@, left as int, rc, list@.len()),
                decreases list.len() - m,
            {
                proof { lemma_pair_conflicts_mono(list@, state@, left as int, rc, (m + 1) as nat, list@.len()); }
                let right = list[m];
                if right > left && state[left] < rc && state[left] == state[right] {
                    cost = cost + 1_000_000;
                }
                m += 1;
            }
            left += 1;
        }
        cost
    }
}

impl Problem {
    /// Every interval that the state spills has a length whose stack cost is a `u32`.
    pub open spec fn cost_defined(&self, state: Seq<usize>) -> bool {
        forall|i: int| 0 <= i < state.len() && state[i] == self.reg_count ==>
            self.intervals@[i].start.0 <= self.intervals@[i].end.0
            && self.intervals@[i].end.0 - self.intervals@[i].start.0 < u32::MAX
    }

    /// The annealing objective where it is defined and fits in an `i64`, and `None` where
    /// the stack cost of a spilled interval or the sum leaves that range.
    pub fn checked_cost(&self, state: &Vec<usize>) -> (c: Option<i64>)
        requires
            self.well_formed(),
            state@.len() == self.intervals@.len(),
        ensures
            c == (if self.cost_defined(state@) && self.spec_cost(state@) <= i64::MAX {
                Some(self.spec_cost(state@) as i64)
            } else {
                None
            }),
    {
        let n = state.len();
        let rc = self.reg_count;
        let mut k: usize = 0;
        while k < n
            invariant
                k <= n == state@.len() == self.intervals@.len(),
                rc == self.reg_count,
                forall|i: int| 0 <= i < k && state@[i] == rc ==>
                    self.intervals@[i].start.0 <= self.intervals@[i].end.0
                    && self.intervals@[i].end.0 - self.intervals@[i].start.0 < u32::MAX,
            decreases n - k,
        {
            if state[k] == rc {
                let interval = self.intervals[k];
                if interval.end.0 < interval.start.0 || interval.end.0 - interval.start.0 == u32::MAX {
                    return None;
                }
            }
            k += 1;
        }
        let ghost ivs = self.intervals@;
        let ghost ov = self.ov();
        proof {
            lemma_base_cost_mono(ivs, state@, rc, n as nat, n as nat);
            lemma_conflict_total_mono(ov, state@, rc, n as nat, n as nat);
        }
        let mut cost: i64 = 0;
        let mut index: usize = 0;
        while index < n
            invariant
                index <= n == state@.len() == ivs.len() == self.overlaps@.len(),
                ivs == self.intervals@,
                ov == self.ov(),
                rc == self.reg_count,
                cost == base_cost(ivs, state@, rc, index as nat),
                self.cost_defined(state@),
                0 <= conflict_total(ov, state@, rc, n as nat),
            decreases n - index,
        {
            proof {
                lemma_base_cost_mono(ivs, state@, rc, (index + 1) as nat, n as nat);
                lemma_base_cost_mono(ivs, state@, rc, index as nat, n as nat);
                assert(base_cost(ivs, state@, rc, (index + 1) as nat)
                    == cost + choice_cost(ivs[index as int], state@[index as int], rc));
            }
            let choice = state[index];
            let step: i64;
            if choice == rc {
                let interval = self.intervals[index];
                step = 100 + (interval.end.0 - interval.start.0 + 1) as i64;
            } else {
                if choice as u64 > i64::MAX as u64 {
                    return None;
                }
                step = choice as i64;
            }
            if cost > i64::MAX - step {
                return None;
            }
            cost = cost + step;
            index += 1;
        }
        let mut left: usize = 0;
        while left < n
            invariant
                left <= n == state@.len() == ivs.len() == self.overlaps@.len(),
                ivs == self.intervals@,
                ov == self.ov(),
                rc == self.reg_count,
                self.well_formed(),
                self.cost_defined(state@),
                cost == base_cost(ivs, state@, rc, n as nat) + 1_000_000 * conflict_total(ov, state@, rc, left as nat),
                0 <= base_cost(ivs, state@, rc, n as nat),
            decreases n - left,
        {
            let list = &self.overlaps[left];
            assert(list@ == ov[left as int]);
            assert(is_overlap_list(ivs, left as int, list@));
            proof {
                lemma_conflict_total_mono(ov, state@, rc, (left + 1) as nat, n as nat);
                lemma_conflict_total_mono(ov, state@, rc, left as nat, n as nat);
                lemma_pair_conflicts_mono(list@, state@, left as int, rc, 0, list@.len());
            }
            let mut m: usize = 0;
            while m < list.len()
                invariant
                    m <= list@.len(),
                    left < n == state@.len() == ivs.len(),
                    list@ == ov[left as int],
                    is_overlap_list(ivs, left as int, list@),
                    cost == base_cost(ivs, state@, rc, n as nat) + 1_000_000 * conflict_total(ov, state@, rc, left as nat)
                        + 1_000_000 * pair_conflicts(list@, state@, left as int, rc, m as nat),
                    0 <= base_cost(ivs, state@, rc, n as nat),
                    0 <= conflict_total(ov, state@, rc, left as nat),
                    conflict_total(ov, state@, rc, (left + 1) as nat) == conflict_total(ov, state@, rc, left as nat)
                        + pair_conflicts(list@, state@, left as int, rc, list@.len()),
                    conflict_total(ov, state@, rc, (left + 1) as nat) <= conflict_total(ov, state@, rc, n as nat),
                    ivs == self.intervals@,
                    ov == self.ov(),
                    rc == self.reg_count,
                    self.cost_defined(state@),
                decreases list.len() - m,
            {
                proof {
                    lemma_pair_conflicts_mono(list@, state@, left as int, rc, (m + 1) as nat, list@.len());
                    lemma_pair_conflicts_mono(list@, state@, left as int, rc, m as nat, (m + 1) as nat);
                }
                let right = list[m];
                if right > left && state[left] < rc && state[left] == state[right] {
                    if cost > i64::MAX - 1_000_000 {
                        proof {
                            assert(pair_conflicts(list@, state@, left as int, rc, (m + 1) as nat)
                                == pair_conflicts(list@, state@, left as int, rc, m as nat) + 1);
                            let pc1 = pair_conflicts(list@, state@, left as int, rc, (m + 1) as nat);
                            let pcl = pair_conflicts(list@, state@, left as int, rc, list@.len());
                            assert(pc1 <= pcl);
                            assert(conflict_total(ov, state@, rc, left as nat) + pc1
                                <= conflict_total(ov, state@, rc, n as nat));
                            assert(self.spec_cost(state@) == base_cost(ivs, state@, rc, n as nat)
                                + 1_000_000 * conflict_total(ov, state@, rc, n as nat));
                            assert(cost + 1_000_000 == base_cost(ivs, state@, rc, n as nat)
                                + 1_000_000 * (conflict_total(ov, state@, rc, left as nat) + pc1));
                            assert(self.spec_cost(state@) >= cost + 1_000_000);
                        }
                        return None;
                    }
                    cost = cost + 1_000_000;
                }
                m += 1;
            }
            left += 1;
        }
        Some(cost)
    }
}

/// The stack slots of the entries are distinct and numbered densely from zero.
pub open spec fn choices_state(
    ivs: Seq<LiveInterval>, regs: Seq<PhysReg>, limit: usize, choices: Seq<usize>, k: int,
    e: Seq<(VReg, Location)>, slots: u32,
) -> bool {
    &&& slots_below(e, slots)
    &&& highest_slot(e) == if slots == 0 { None } else { Some((slots - 1) as u32) }
    &&& forall|i: int, j: int| 0 <= i < j < e.len() && e[i].1 is Stack ==> e[i].1 != e[j].1
}

proof fn lemma_choice_step(
    ivs: Seq<LiveInterval>, regs: Seq<PhysReg>, limit: usize, choices: Seq<usize>, k: int,
    e: Seq<(VReg, Location)>, slots: u32, scratch: Seq<PhysReg>,
)
    requires
        choices_state(ivs, regs, limit, choices, k, e, slots),
        slots < u32::MAX,
    ensures
        forall|x: (VReg, Location)| (x.1 is Reg || x.1 == Location::Stack(StackSlot { index: slots })) ==>
            choices_state(ivs, regs, limit, choices, k + 1, #[trigger] e.push(x),
                if x.1 is Reg { slots } else { (slots + 1) as u32 }),
{
    assert forall|x: (VReg, Location)| (x.1 is Reg || x.1 == Location::Stack(StackSlot { index: slots })) implies
        choices_state(ivs, regs, limit, choices, k + 1, #[trigger] e.push(x),
            if x.1 is Reg { slots } else { (slots + 1) as u32 }) by {
        let e2 = e.push(x);
        lemma_counts_push(e, x);
        lemma_highest_below(e, slots);
        let s2: u32 = if x.1 is Reg { slots } else { (slots + 1) as u32 };
        assert(slots_below(e2, s2)) by {
            assert forall|j: int| 0 <= j < e2.len() implies (#[trigger] e2[j].1 matches Location::Stack(t) ==> t.index < s2) by {
                if j < e.len() { assert(e2[j] == e[j]); }
            }
        }
        assert forall|i: int, j: int| 0 <= i < j < e2.len() && e2[i].1 is Stack implies e2[i].1 != e2[j].1 by {
            assert(e2[i] == e[i]);
            if j < e.len() { assert(e2[j] == e[j]); }
        }
    }
}

/// Inserting a value not yet present appends its entry.
proof fn lemma_choice_insert(ivs: Seq<LiveInterval>, e: Seq<(VReg, Location)>, index: int, x: (VReg, Location))
    requires
        values_distinct(ivs) ==> e.len() == index && forall|a: int| 0 <= a < index ==> (#[trigger] e[a]).0 == ivs[a].v,
        0 <= index < ivs.len(),
        x.0 == ivs[index].v,
    ensures
        values_distinct(ivs) ==> entries_insert(e, x.0, x.1) == e.push(x),
{
    if values_distinct(ivs) {
        lemma_key_index(e, x.0);
        if has_key(e, x.0) {
            let j = key_index(e, x.0);
            assert(e[j].0 == ivs[j].v);
        }
    }
}

/// With one interval per value and a conflict-free colouring, the entries meet the contract.
proof fn lemma_choices_valid(
    ivs: Seq<LiveInterval>, regs: PhysRegSet, max_regs: usize, limit: usize, choices: Seq<usize>,
    e: Seq<(VReg, Location)>, slots: u32,
)
    requires
        allocation_ready(ivs, regs),
        coloring_ok(ivs, limit, choices),
        limit == (if max_regs < regs.regs@.len() { max_regs } else { regs.regs@.len() as usize }),
        e == choice_entries(ivs, regs.regs@, limit, choices, ivs.len()),
        e.len() == ivs.len(),
        forall|a: int| 0 <= a < ivs.len() ==> (#[trigger] e[a]).0 == ivs[a].v,
        slots == stack_count(e),
        slots < u32::MAX,
        choices_state(ivs, regs.regs@, limit, choices, ivs.len() as int, e, slots),
    ensures
        forall|i: int| 0 <= i < e.len() ==> reg_entry_ok(regs, max_regs, #[trigger] e[i].1),
        forall|v: VReg| interval_values(ivs).contains(v) ==> has_key(e, v),
        forall|i: int| 0 <= i < e.len() ==> interval_values(ivs).contains(#[trigger] e[i].0),
        e.len() == interval_values(ivs).len(),
        slots == slots_needed(e),
        conflict_free(ivs, e),
{
    let vs = ivs.map_values(|x: LiveInterval| x.v);
    assert(vs.no_duplicates());
    vs.unique_seq_to_set();
    assert(keys_distinct(e)) by {
        assert forall|i: int, j: int| 0 <= i < j < e.len() implies e[i].0 != e[j].0 by {
            assert(e[i].0 == ivs[i].v);
            assert(e[j].0 == ivs[j].v);
        }
    }
    assert forall|v: VReg| interval_values(ivs).contains(v) implies has_key(e, v) by {
        let i = choose|i: int| 0 <= i < vs.len() && vs[i] == v;
        assert(e[i].0 == v);
        lemma_key_index(e, v);
    }
    assert forall|i: int| 0 <= i < e.len() implies interval_values(ivs).contains(#[trigger] e[i].0) by {
        assert(vs[i] == e[i].0);
    }
    lemma_choice_entries_locs(ivs, regs.regs@, limit, choices, ivs.len());
    assert forall|i: int| 0 <= i < e.len() implies reg_entry_ok(regs, max_regs, #[trigger] e[i].1) by {
        if e[i].1 is Reg {
            let c = choices[i];
            assert(c < limit);
            assert(e[i].1 == Location::Reg(regs.regs@[c as int]));
            assert(spec_allowed(regs, max_regs)[c as int] == regs.regs@[c as int]);
            assert(regs.regs@.contains(regs.regs@[c as int]));
        }
    }
    assert forall|i: int, j: int| 0 <= i < j < ivs.len() && spec_overlaps(ivs[i], ivs[j])
        implies value_at(e, ivs[i].v) != value_at(e, ivs[j].v) by {
        lemma_key_index_distinct(e, i);
        lemma_key_index_distinct(e, j);
        if e[i].1 is Reg && e[j].1 is Reg {
            assert(choices[i] < limit && choices[j] < limit);
            assert(choices[i] != choices[j]);
            assert(regs.regs@[choices[i] as int] != regs.regs@[choices[j] as int]);
        }
    }
}

/// The location of each entry follows its choice.
proof fn lemma_choice_entries_locs(ivs: Seq<LiveInterval>, regs: Seq<PhysReg>, limit: usize, choices: Seq<usize>, k: nat)
    requires
        k <= ivs.len(),
    ensures
        choice_entries(ivs, regs, limit, choices, k).len() == k,
        forall|i: int| 0 <= i < k ==> {
            let c = if i < choices.len() { choices[i] } else { limit };
            (#[trigger] choice_entries(ivs, regs, limit, choices, k)[i]).1 is Reg <==> c < limit
        },
        forall|i: int| 0 <= i < k && i < choices.len() && choices[i] < limit ==>
            (#[trigger] choice_entries(ivs, regs, limit, choices, k)[i]).1 == Location::Reg(regs[choices[i] as int]),
    decreases k,
{
    if k > 0 {
        lemma_choice_entries_locs(ivs, regs, limit, choices, (k - 1) as nat);
        let e = choice_entries(ivs, regs, limit, choices, (k - 1) as nat);
        assert forall|i: int| 0 <= i < k - 1 implies choice_entries(ivs, regs, limit, choices, k)[i] == e[i] by {}
    }
}

/// The entries built for the first `k` choices: a chosen register, or the next fresh slot.
pub open spec fn choice_entries(ivs: Seq<LiveInterval>, regs: Seq<PhysReg>, limit: usize, choices: Seq<usize>, k: nat)
    -> Seq<(VReg, Location)>
    decreases k,
{
    if k == 0 {
        seq![]
    } else {
        let e = choice_entries(ivs, regs, limit, choices, (k - 1) as nat);
        let choice = if k - 1 < choices.len() { choices[k - 1] } else { limit };
        e.push((ivs[k - 1].v, if choice < limit {
            Location::Reg(regs[choice as int])
        } else {
            Location::Stack(StackSlot { index: stack_count(e) as u32 })
        }))
    }
}

/// The assignment that gives interval `i` register `regs[choices[i]]` when the
/// choice is below the register limit, and otherwise the next fresh stack slot,
/// checked by `verify_assignment`.
pub fn assignment_from_choices(
    intervals: &LiveIntervals,
    regs: &PhysRegSet,
    max_regs: usize,
    choices: &Vec<usize>,
) -> (r: Result<Assignment, AssignmentError>)
    requires
        intervals.intervals@.len() < u32::MAX,
    ensures
        r matches Ok(a) ==> assignment_valid(intervals.intervals@, *regs, max_regs, a),
        values_distinct(intervals.intervals@) && r is Ok ==> location_entries(r->Ok_0.map) == choice_entries(intervals.intervals@, regs.regs@,
            if max_regs < regs.regs@.len() { max_regs } else { regs.regs@.len() as usize }, choices@,
            intervals.intervals@.len()),
        allocation_ready(intervals.intervals@, *regs)
            && coloring_ok(intervals.intervals@,
                if max_regs < regs.regs@.len() { max_regs } else { regs.regs@.len() as usize }, choices@)
            ==> r is Ok,
{
    let ghost ivs = intervals.intervals@;
    let register_limit = if max_regs < regs.regs.len() { max_regs } else { regs.regs.len() };
    let ghost good = allocation_ready(ivs, *regs) && coloring_ok(ivs, register_limit, choices@);
    let mut map = location_map_new();
    let mut stack_slots: u32 = 0;
    let n = intervals.intervals.len();
    let mut index: usize = 0;
    while index < n
        invariant
            index <= n == ivs.len() < u32::MAX,
            ivs == intervals.intervals@,
            register_limit <= regs.regs@.len(),
            register_limit == (if max_regs < regs.regs@.len() { max_regs } else { regs.regs@.len() as usize }),
            stack_slots <= index,
            good == (allocation_ready(ivs, *regs) && coloring_ok(ivs, register_limit, choices@)),
            values_distinct(ivs) ==> location_entries(map) == choice_entries(ivs, regs.regs@, register_limit, choices@, index as nat),
            values_distinct(ivs) ==> stack_slots == stack_count(location_entries(map)),
            values_distinct(ivs) ==> forall|a: int| 0 <= a < index ==> (#[trigger] location_entries(map)[a]).0 == ivs[a].v,
            values_distinct(ivs) ==> location_entries(map).len() == index,
            good ==> values_distinct(ivs),
            good ==> choices_state(ivs, regs.regs@, register_limit, choices@, index as int, location_entries(map), stack_slots),
        decreases n - index,
    {
        let interval = intervals.intervals[index];
        let choice = if index < choices.len() { choices[index] } else { register_limit };
        let ghost e = location_entries(map);
        if choice < register_limit {
            let loc = Location::Reg(regs.regs[choice]);
            proof {
                lemma_counts_push(e, (interval.v, loc));
                if good { lemma_choice_step(ivs, regs.regs@, register_limit, choices@, index as int, e, stack_slots, regs.scratch@); }
            }
            location_map_insert(&mut map, interval.v, loc);
            proof { lemma_choice_insert(ivs, e, index as int, (interval.v, loc)); }
        } else {
            let loc = Location::Stack(StackSlot { index: stack_slots });
            proof {
                lemma_counts_push(e, (interval.v, loc));
                if good { lemma_choice_step(ivs, regs.regs@, register_limit, choices@, index as int, e, stack_slots, regs.scratch@); }
            }
            stack_slots += 1;
            location_map_insert(&mut map, interval.v, loc);
            proof { lemma_choice_insert(ivs, e, index as int, (interval.v, loc)); }
        }
        index += 1;
    }
    let assignment = Assignment { spills: stack_slots, stack_slots, map };
    proof {
        if good {
            lemma_choices_valid(ivs, *regs, max_regs, register_limit, choices@, location_entries(assignment.map), stack_slots);
        }
    }
    match verify_assignment(intervals, regs, register_limit, &assignment) {
        Ok(()) => {
            assert(spec_allowed(*regs, register_limit) == spec_allowed(*regs, max_regs));
            Ok(assignment)
        },
        Err(err) => Err(err),
    }
}

} // verus!
