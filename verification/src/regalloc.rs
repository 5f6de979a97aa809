//! The allocation contract: physical registers, locations, assignments, and the
//! allocator-independent verifier that every allocator's result must pass.
use vstd::prelude::*;
use indexmap::IndexMap;
use crate::ir::VReg;
use crate::intervals::{LiveInterval, LiveIntervals, spec_overlaps};
use crate::collections::{
    location_entries, location_map_len, location_map_get, location_map_get_index, has_key,
    value_at, lemma_key_index, keys_distinct, key_set, lemma_keys_distinct_by_count,
};

verus! {

/// A general-purpose x86-64 register.
#[derive(Debug, Copy, Clone, PartialEq, Eq, Hash, Structural)]
pub enum PhysReg {
    Rax,
    Rcx,
    Rdx,
    Rbx,
    Rsi,
    Rdi,
    R8,
    R9,
    R10,
    R11,
}

pub open spec fn spec_reg_name(r: PhysReg) -> &'static str {
    match r {
        PhysReg::Rax => "rax",
        PhysReg::Rcx => "rcx",
        PhysReg::Rdx => "rdx",
        PhysReg::Rbx => "rbx",
        PhysReg::Rsi => "rsi",
        PhysReg::Rdi => "rdi",
        PhysReg::R8 => "r8",
        PhysReg::R9 => "r9",
        PhysReg::R10 => "r10",
        PhysReg::R11 => "r11",
    }
}

impl PhysReg {
    /// The assembler name of the register.
    pub fn name(&self) -> (r: &'static str)
        ensures
            r == spec_reg_name(*self),
    {
        match self {
            PhysReg::Rax => "rax",
            PhysReg::Rcx => "rcx",
            PhysReg::Rdx => "rdx",
            PhysReg::Rbx => "rbx",
            PhysReg::Rsi => "rsi",
            PhysReg::Rdi => "rdi",
            PhysReg::R8 => "r8",
            PhysReg::R9 => "r9",
            PhysReg::R10 => "r10",
            PhysReg::R11 => "r11",
        }
    }
}

/// A stack slot of the spill area.
#[derive(Debug, Copy, Clone, PartialEq, Eq, Hash, Structural)]
pub struct StackSlot {
    pub index: u32,
}

/// Where a value lives.
#[derive(Debug, Copy, Clone, PartialEq, Eq, Hash, Structural)]
pub enum Location {
    Reg(PhysReg),
    Stack(StackSlot),
}

/// A location for every value, with the spill metadata the emitter relies on.
#[derive(Debug)]
pub struct Assignment {
    pub map: IndexMap<VReg, Location>,
    pub stack_slots: u32,
    pub spills: u32,
}

/// The allocatable registers, in preference order, and the scratch registers
/// reserved for the emitter.
#[derive(Debug, Clone)]
pub struct PhysRegSet {
    pub regs: Vec<PhysReg>,
    pub scratch: Vec<PhysReg>,
}

/// Why a register set cannot be used by the emitter.
#[derive(Debug, Clone, Copy, PartialEq, Eq, Structural)]
pub enum RegisterSetError {
    /// An allocatable register is listed twice.
    DuplicateRegister(PhysReg),
    /// RBX is callee-saved and the prologue does not save it.
    CalleeSavedRegister,
    /// The emitter needs two scratch registers.
    TooFewScratch,
    /// A scratch register is also allocatable, or is listed twice.
    ScratchOverlap(PhysReg),
    /// RBX is callee-saved and cannot be used as scratch.
    CalleeSavedScratch,
    /// The two scratch registers are the same.
    ScratchNotDistinct,
}

/// A register set the emitter accepts.
pub open spec fn codegen_ready(s: PhysRegSet) -> bool {
    &&& s.regs@.no_duplicates()
    &&& !s.regs@.contains(PhysReg::Rbx)
    &&& s.scratch@.len() >= 2
    &&& (s.regs@ + s.scratch@).no_duplicates()
    &&& !s.scratch@.contains(PhysReg::Rbx)
}

/// What a register-set error says, as a fact about the set.
pub open spec fn register_error_holds(s: PhysRegSet, err: RegisterSetError) -> bool {
    match err {
        RegisterSetError::DuplicateRegister(reg) =>
            exists|i: int, j: int| 0 <= i < j < s.regs@.len() && s.regs@[i] == reg && s.regs@[j] == reg,
        RegisterSetError::CalleeSavedRegister => s.regs@.contains(PhysReg::Rbx),
        RegisterSetError::TooFewScratch => s.scratch@.len() < 2,
        RegisterSetError::ScratchOverlap(reg) =>
            exists|i: int, j: int| 0 <= i < j < (s.regs@ + s.scratch@).len()
                && (s.regs@ + s.scratch@)[i] == reg && (s.regs@ + s.scratch@)[j] == reg,
        RegisterSetError::CalleeSavedScratch => s.scratch@.contains(PhysReg::Rbx),
        RegisterSetError::ScratchNotDistinct => false,
    }
}

/// The checks that come before `err` all pass. The check goes through the
/// allocatable registers in order (a repeat is reported before RBX), then
/// counts the scratch registers, then goes through them in order (an overlap
/// with the registers before is reported before RBX).
pub open spec fn register_checks_before(s: PhysRegSet, err: RegisterSetError) -> bool {
    let all = s.regs@ + s.scratch@;
    let n = s.regs@.len() as int;
    let regs_ok = s.regs@.no_duplicates() && !s.regs@.contains(PhysReg::Rbx);
    match err {
        RegisterSetError::DuplicateRegister(reg) => exists|j: int| 0 <= j < n && s.regs@[j] == reg
            && s.regs@.take(j).no_duplicates() && !s.regs@.take(j).contains(PhysReg::Rbx)
            && s.regs@.take(j).contains(reg),
        RegisterSetError::CalleeSavedRegister => exists|j: int| 0 <= j < n && s.regs@[j] == PhysReg::Rbx
            && s.regs@.take(j).no_duplicates() && !s.regs@.take(j).contains(PhysReg::Rbx),
        RegisterSetError::TooFewScratch => regs_ok,
        RegisterSetError::ScratchOverlap(reg) => regs_ok && s.scratch@.len() >= 2
            && exists|j: int| 0 <= j < s.scratch@.len() && s.scratch@[j] == reg
                && all.take(n + j).no_duplicates() && !s.scratch@.take(j).contains(PhysReg::Rbx)
                && all.take(n + j).contains(reg),
        RegisterSetError::CalleeSavedScratch => regs_ok && s.scratch@.len() >= 2
            && exists|j: int| 0 <= j < s.scratch@.len() && s.scratch@[j] == PhysReg::Rbx
                && all.take(n + j).no_duplicates() && !s.scratch@.take(j).contains(PhysReg::Rbx),
        RegisterSetError::ScratchNotDistinct => false,
    }
}

impl PhysRegSet {
    /// RAX, RCX, RDX, R8, R9 allocatable; R10 and R11 scratch.
    pub fn default_gp_with_scratch() -> (r: Self)
        ensures
            r.regs@ == seq![PhysReg::Rax, PhysReg::Rcx, PhysReg::Rdx, PhysReg::R8, PhysReg::R9],
            r.scratch@ == seq![PhysReg::R10, PhysReg::R11],
    {
        Self {
            regs: vec![PhysReg::Rax, PhysReg::Rcx, PhysReg::Rdx, PhysReg::R8, PhysReg::R9],
            scratch: vec![PhysReg::R10, PhysReg::R11],
        }
    }

    /// Checks the set against what the emitter needs.
    pub fn validate_for_codegen(&self) -> (r: Result<(), RegisterSetError>)
        ensures
            r is Ok <==> codegen_ready(*self),
            match r {
                Ok(()) => true,
                Err(err) => register_error_holds(*self, err) && register_checks_before(*self, err),
            },
    {
        let ghost all_regs = self.regs@ + self.scratch@;
        let mut seen: Vec<PhysReg> = Vec::new();
        let mut i: usize = 0;
        while i < self.regs.len()
            invariant
                i <= self.regs.len(),
                seen@ == self.regs@.take(i as int),
                seen@.no_duplicates(),
                !seen@.contains(PhysReg::Rbx),
            decreases self.regs.len() - i,
        {
            let reg = self.regs[i];
            if contains_reg(&seen, reg) {
                proof {
                    let k = choose|k: int| 0 <= k < seen@.len() && seen@[k] == reg;
                    assert(self.regs@[k] == reg);
                    assert(self.regs@[i as int] == reg);
                }
                return Err(RegisterSetError::DuplicateRegister(reg));
            }
            if reg == PhysReg::Rbx {
                assert(self.regs@[i as int] == PhysReg::Rbx);
                return Err(RegisterSetError::CalleeSavedRegister);
            }
            seen.push(reg);
            i += 1;
            assert(seen@ == self.regs@.take(i as int));
        }
        assert(self.regs@.take(i as int) == self.regs@);
        if self.scratch.len() < 2 {
            return Err(RegisterSetError::TooFewScratch);
        }
        let mut j: usize = 0;
        while j < self.scratch.len()
            invariant
                j <= self.scratch.len(),
                self.regs@.no_duplicates(),
                !self.regs@.contains(PhysReg::Rbx),
                self.scratch@.len() >= 2,
                all_regs == self.regs@ + self.scratch@,
                seen@ == all_regs.take(self.regs@.len() + j),
                seen@.no_duplicates(),
                !self.scratch@.take(j as int).contains(PhysReg::Rbx),
            decreases self.scratch.len() - j,
        {
            let reg = self.scratch[j];
            assert(all_regs[self.regs@.len() + j] == reg);
            if contains_reg(&seen, reg) {
                proof {
                    let k = choose|k: int| 0 <= k < seen@.len() && seen@[k] == reg;
                    assert(all_regs[k] == reg);
                    assert(self.scratch@[j as int] == reg);
                }
                return Err(RegisterSetError::ScratchOverlap(reg));
            }
            if reg == PhysReg::Rbx {
                assert(self.scratch@[j as int] == PhysReg::Rbx);
                return Err(RegisterSetError::CalleeSavedScratch);
            }
            seen.push(reg);
            j += 1;
            assert(seen@ == all_regs.take(self.regs@.len() + j));
            assert forall|q: PhysReg| self.scratch@.take(j as int).contains(q) implies q != PhysReg::Rbx by {
                let k = choose|k: int| 0 <= k < j && self.scratch@.take(j as int)[k] == q;
                if k < j - 1 {
                    assert(self.scratch@.take(j - 1)[k] == q);
                }
            }
        }
        assert(all_regs.take(self.regs@.len() + j) == all_regs);
        assert(self.scratch@.take(j as int) == self.scratch@);
        if self.scratch[0] == self.scratch[1] {
            assert(all_regs[self.regs@.len() as int] == all_regs[self.regs@.len() as int + 1]);
            return Err(RegisterSetError::ScratchNotDistinct);
        }
        Ok(())
    }
}

/// Whether `reg` occurs in `regs`.
fn contains_reg(regs: &Vec<PhysReg>, reg: PhysReg) -> (r: bool)
    ensures
        r == regs@.contains(reg),
{
    let mut i: usize = 0;
    while i < regs.len()
        invariant
            i <= regs.len(),
            forall|k: int| 0 <= k < i ==> regs@[k] != reg,
        decreases regs.len() - i,
    {
        if regs[i] == reg {
            assert(regs@[i as int] == reg);
            return true;
        }
        i += 1;
    }
    false
}

/// Why an assignment was rejected.
#[derive(Debug, Clone, Copy, PartialEq, Eq, Structural)]
pub enum AssignmentError {
    /// The map holds `actual` entries for `expected` distinct interval values.
    WrongEntryCount { actual: usize, expected: usize },
    MissingValue(VReg),
    UnknownValue(VReg),
    UnavailableRegister { value: VReg, register: PhysReg },
    ReservedScratch { value: VReg, register: PhysReg },
    SpillCountOverflow,
    SpillCountMismatch { declared: u32, actual: u32 },
    StackSlotCountMismatch { declared: u32, expected: u32 },
    /// Overlapping values share a register.
    RegisterConflict { left: VReg, right: VReg, register: PhysReg },
    /// Overlapping values share a stack slot.
    StackSlotConflict { left: VReg, right: VReg, slot: u32 },
}

/// The distinct values that have a live interval.
pub open spec fn interval_values(ivs: Seq<LiveInterval>) -> Set<VReg> {
    ivs.map_values(|i: LiveInterval| i.v).to_set()
}

/// The registers an allocation may use: the first `max_regs` of the set.
pub open spec fn spec_allowed(regs: PhysRegSet, max_regs: usize) -> Seq<PhysReg> {
    regs.regs@.take(if max_regs < regs.regs@.len() { max_regs as int } else { regs.regs@.len() as int })
}

/// The number of entries that live on the stack.
pub open spec fn stack_count(e: Seq<(VReg, Location)>) -> nat
    decreases e.len(),
{
    if e.len() == 0 {
        0
    } else {
        stack_count(e.drop_last()) + if e.last().1 is Stack { 1nat } else { 0nat }
    }
}

/// The highest stack slot index used by the entries.
pub open spec fn highest_slot(e: Seq<(VReg, Location)>) -> Option<u32>
    decreases e.len(),
{
    if e.len() == 0 {
        None
    } else {
        let rest = highest_slot(e.drop_last());
        match e.last().1 {
            Location::Stack(s) => match rest {
                Some(h) => Some(if h < s.index { s.index } else { h }),
                None => Some(s.index),
            },
            Location::Reg(_) => rest,
        }
    }
}

/// The number of stack slots the entries need: one past the highest used slot.
pub open spec fn slots_needed(e: Seq<(VReg, Location)>) -> u32 {
    match highest_slot(e) {
        None => 0,
        Some(h) => if h == u32::MAX { u32::MAX } else { (h + 1) as u32 },
    }
}

/// The register or slot of the entry at position `i`, when it is a register.
pub open spec fn reg_entry_ok(regs: PhysRegSet, max_regs: usize, l: Location) -> bool {
    match l {
        Location::Reg(r) => spec_allowed(regs, max_regs).contains(r) && !regs.scratch@.contains(r),
        Location::Stack(_) => true,
    }
}

/// No two overlapping intervals share a location.
pub open spec fn conflict_free(ivs: Seq<LiveInterval>, e: Seq<(VReg, Location)>) -> bool {
    forall|i: int, j: int| 0 <= i < j < ivs.len() && spec_overlaps(ivs[i], ivs[j])
        ==> value_at(e, ivs[i].v) != value_at(e, ivs[j].v)
}

/// The allocation contract: every interval value has exactly one entry, registers
/// are allowed and not scratch, the metadata is exact, and overlapping values
/// never share a register or a stack slot.
pub open spec fn assignment_valid(ivs: Seq<LiveInterval>, regs: PhysRegSet, max_regs: usize, a: Assignment) -> bool {
    entries_valid(ivs, regs, max_regs, location_entries(a.map), a.spills, a.stack_slots)
}

/// The allocation contract for the entries of a map and its spill metadata.
pub open spec fn entries_valid(
    ivs: Seq<LiveInterval>, regs: PhysRegSet, max_regs: usize, e: Seq<(VReg, Location)>, spills: u32, stack_slots: u32,
) -> bool {
    &&& e.len() == interval_values(ivs).len()
    &&& forall|v: VReg| interval_values(ivs).contains(v) ==> has_key(e, v)
    &&& forall|i: int| 0 <= i < e.len() ==> interval_values(ivs).contains(#[trigger] e[i].0)
    &&& forall|i: int| 0 <= i < e.len() ==> reg_entry_ok(regs, max_regs, #[trigger] e[i].1)
    &&& spills == stack_count(e)
    &&& stack_slots == slots_needed(e)
    &&& conflict_free(ivs, e)
}

/// The allocation contract in the terms of the assignment itself: its keys are the
/// values of the intervals, every register it names is among the first `max_regs` of
/// the set and is not a scratch register, the spill count is the number of values on
/// the stack, the slot count is one past the highest slot used (saturating; zero when
/// none is used), and no two overlapping intervals have the same location.
pub open spec fn assignment_meets_contract(ivs: Seq<LiveInterval>, regs: PhysRegSet, max_regs: usize, a: Assignment) -> bool {
    let e = location_entries(a.map);
    &&& entry_keys(e) == interval_values(ivs)
    &&& forall|v: VReg, r: PhysReg| e.contains((v, Location::Reg(r)))
        ==> spec_allowed(regs, max_regs).contains(r) && !regs.scratch@.contains(r)
    &&& a.spills == stack_count(e)
    &&& a.stack_slots == slots_needed(e)
    &&& conflict_free(ivs, e)
}

/// The keys of the entries, as a set.
pub open spec fn entry_keys(e: Seq<(VReg, Location)>) -> Set<VReg> {
    key_set(e)
}

/// For a map whose keys are distinct (every `IndexMap`), the allocation contract
/// checked entry by entry is the contract in the terms of the assignment itself.
pub proof fn lemma_assignment_contract(ivs: Seq<LiveInterval>, regs: PhysRegSet, max_regs: usize, a: Assignment)
    requires
        keys_distinct(location_entries(a.map)),
    ensures
        assignment_valid(ivs, regs, max_regs, a) <==> assignment_meets_contract(ivs, regs, max_regs, a),
{
    let e = location_entries(a.map);
    let ks = e.map_values(|x: (VReg, Location)| x.0);
    assert(ks.no_duplicates()) by {
        assert forall|i: int, j: int| 0 <= i < ks.len() && 0 <= j < ks.len() && i != j implies ks[i] != ks[j] by {
            if i < j { assert(e[i].0 != e[j].0); } else { assert(e[j].0 != e[i].0); }
        }
    }
    ks.unique_seq_to_set();
    let vals = interval_values(ivs);
    if assignment_valid(ivs, regs, max_regs, a) {
        assert forall|v: VReg| vals.contains(v) implies #[trigger] entry_keys(e).contains(v) by {
            assert(has_key(e, v));
            lemma_key_index(e, v);
            let k = crate::collections::key_index(e, v);
            assert(ks[k] == v);
        }
        assert forall|v: VReg| #[trigger] entry_keys(e).contains(v) implies vals.contains(v) by {
            let i = choose|i: int| 0 <= i < ks.len() && ks[i] == v;
            assert(vals.contains(e[i].0));
        }
        assert(entry_keys(e) =~= vals);
        assert forall|v: VReg, r: PhysReg| e.contains((v, Location::Reg(r)))
            implies spec_allowed(regs, max_regs).contains(r) && !regs.scratch@.contains(r) by {
            let i = choose|i: int| 0 <= i < e.len() && e[i] == (v, Location::Reg(r));
            assert(reg_entry_ok(regs, max_regs, e[i].1));
        }
    }
    if entry_keys(e) == vals && (forall|v: VReg, r: PhysReg| e.contains((v, Location::Reg(r)))
        ==> spec_allowed(regs, max_regs).contains(r) && !regs.scratch@.contains(r)) {
        assert(e.len() == vals.len());
        assert forall|v: VReg| vals.contains(v) implies has_key(e, v) by {
            assert(entry_keys(e).contains(v));
            let i = choose|i: int| 0 <= i < ks.len() && ks[i] == v;
            lemma_key_index(e, v);
            assert(e[i].0 == v);
        }
        assert forall|i: int| 0 <= i < e.len() implies vals.contains(#[trigger] e[i].0) by {
            assert(ks[i] == e[i].0);
            assert(entry_keys(e).contains(ks[i]));
        }
        assert forall|i: int| 0 <= i < e.len() implies reg_entry_ok(regs, max_regs, #[trigger] e[i].1) by {
            if let Location::Reg(r) = e[i].1 {
                assert(e.contains((e[i].0, Location::Reg(r))));
            }
        }
    }
}

/// What an error says, as a fact about the inputs.
/// No pair of overlapping intervals before `(i, j)`, in the order the
/// verification visits pairs (by first interval, then by second), shares a location.
pub open spec fn no_earlier_conflict(ivs: Seq<LiveInterval>, e: Seq<(VReg, Location)>, i: int, j: int) -> bool {
    forall|p: int, q: int| 0 <= p < q < ivs.len() && (p < i || (p == i && q < j)) && spec_overlaps(ivs[p], ivs[q])
        ==> value_at(e, ivs[p].v) != value_at(e, ivs[q].v)
}

pub open spec fn assignment_error_holds(
    ivs: Seq<LiveInterval>, regs: PhysRegSet, max_regs: usize, a: Assignment, err: AssignmentError,
) -> bool {
    let e = location_entries(a.map);
    match err {
        AssignmentError::WrongEntryCount { actual, expected } =>
            actual == e.len() && expected == interval_values(ivs).len() && actual != expected,
        AssignmentError::MissingValue(v) => interval_values(ivs).contains(v) && !has_key(e, v),
        AssignmentError::UnknownValue(v) => has_key(e, v) && !interval_values(ivs).contains(v),
        AssignmentError::UnavailableRegister { value, register } =>
            e.contains((value, Location::Reg(register))) && !spec_allowed(regs, max_regs).contains(register),
        AssignmentError::ReservedScratch { value, register } =>
            e.contains((value, Location::Reg(register))) && regs.scratch@.contains(register),
        AssignmentError::SpillCountOverflow => stack_count(e) > u32::MAX,
        AssignmentError::SpillCountMismatch { declared, actual } =>
            declared == a.spills && actual == stack_count(e) && declared != actual,
        AssignmentError::StackSlotCountMismatch { declared, expected } =>
            declared == a.stack_slots && expected == slots_needed(e) && declared != expected,
        AssignmentError::RegisterConflict { left, right, register } =>
            exists|i: int, j: int| 0 <= i < j < ivs.len() && spec_overlaps(ivs[i], ivs[j])
                && ivs[i].v == left && ivs[j].v == right
                && value_at(e, left) == Location::Reg(register) && value_at(e, right) == Location::Reg(register)
                && no_earlier_conflict(ivs, e, i, j),
        AssignmentError::StackSlotConflict { left, right, slot } =>
            exists|i: int, j: int| 0 <= i < j < ivs.len() && spec_overlaps(ivs[i], ivs[j])
                && ivs[i].v == left && ivs[j].v == right
                && value_at(e, left) == Location::Stack(StackSlot { index: slot })
                && value_at(e, right) == Location::Stack(StackSlot { index: slot })
                && no_earlier_conflict(ivs, e, i, j),
    }
}

/// The checks that come before `err` all pass. Verification goes in this
/// order: the entry count; the values that must be present; the keys that
/// must be known, in map order; the entries in map order, where a register
/// must be available before it is asked not to be a reserved scratch register
/// and a stack entry must not overflow the spill count; the spill count; the
/// slot count; and last the conflicts between overlapping intervals.
pub open spec fn earlier_checks_pass(
    ivs: Seq<LiveInterval>, regs: PhysRegSet, max_regs: usize, a: Assignment, err: AssignmentError,
) -> bool {
    let e = location_entries(a.map);
    let vals = interval_values(ivs);
    let count_ok = e.len() == vals.len();
    let present = forall|v: VReg| vals.contains(v) ==> has_key(e, v);
    let known = forall|i: int| 0 <= i < e.len() ==> vals.contains(#[trigger] e[i].0);
    let entries_ok = forall|i: int| 0 <= i < e.len() ==> reg_entry_ok(regs, max_regs, #[trigger] e[i].1);
    match err {
        AssignmentError::WrongEntryCount { .. } => true,
        AssignmentError::MissingValue(v) => count_ok
            && exists|i: int| 0 <= i < ivs.len() && ivs[i].v == v
                && forall|k: int| 0 <= k < i ==> has_key(e, (#[trigger] ivs[k]).v),
        AssignmentError::UnknownValue(v) => count_ok && present
            && exists|j: int| 0 <= j < e.len() && e[j].0 == v
                && forall|k: int| 0 <= k < j ==> vals.contains(#[trigger] e[k].0),
        AssignmentError::UnavailableRegister { value, register } => count_ok && present && known
            && exists|j: int| 0 <= j < e.len() && e[j] == (value, Location::Reg(register))
                && stack_count(e.take(j)) <= u32::MAX
                && forall|k: int| 0 <= k < j ==> reg_entry_ok(regs, max_regs, #[trigger] e[k].1),
        AssignmentError::ReservedScratch { value, register } => count_ok && present && known
            && spec_allowed(regs, max_regs).contains(register)
            && exists|j: int| 0 <= j < e.len() && e[j] == (value, Location::Reg(register))
                && stack_count(e.take(j)) <= u32::MAX
                && forall|k: int| 0 <= k < j ==> reg_entry_ok(regs, max_regs, #[trigger] e[k].1),
        AssignmentError::SpillCountOverflow => count_ok && present && known
            && exists|j: int| 0 <= j < e.len() && e[j].1 is Stack && stack_count(e.take(j + 1)) > u32::MAX
                && forall|k: int| 0 <= k < j ==> reg_entry_ok(regs, max_regs, #[trigger] e[k].1),
        AssignmentError::SpillCountMismatch { .. } => count_ok && present && known && entries_ok,
        AssignmentError::StackSlotCountMismatch { .. } => count_ok && present && known && entries_ok
            && a.spills == stack_count(e),
        AssignmentError::RegisterConflict { .. } => count_ok && present && known && entries_ok
            && a.spills == stack_count(e) && a.stack_slots == slots_needed(e),
        AssignmentError::StackSlotConflict { .. } => count_ok && present && known && entries_ok
            && a.spills == stack_count(e) && a.stack_slots == slots_needed(e),
    }
}

/// The distinct values of the intervals, in order of first appearance.
pub fn interval_value_list(ivs: &Vec<LiveInterval>) -> (r: Vec<VReg>)
    ensures
        r@.no_duplicates(),
        r@.to_set() == interval_values(ivs@),
        r@.len() == interval_values(ivs@).len(),
{
    let mut out: Vec<VReg> = Vec::new();
    let mut i: usize = 0;
    while i < ivs.len()
        invariant
            i <= ivs.len(),
            out@.no_duplicates(),
            out@.to_set() == ivs@.take(i as int).map_values(|x: LiveInterval| x.v).to_set(),
        decreases ivs.len() - i,
    {
        let v = ivs[i].v;
        let ghost before = ivs@.take(i as int).map_values(|x: LiveInterval| x.v);
        let ghost old_out = out@;
        if !contains_vreg(&out, v) {
            out.push(v);
        }
        i += 1;
        proof {
            let after = ivs@.take(i as int).map_values(|x: LiveInterval| x.v);
            assert(after =~= before.push(v));
            assert forall|q: VReg| out@.to_set().contains(q) <==> after.to_set().contains(q) by {
                if out@.contains(q) {
                    let k = choose|k: int| 0 <= k < out@.len() && out@[k] == q;
                    if q != v {
                        assert(old_out[k] == q);
                        assert(old_out.to_set().contains(q));
                        let m = choose|m: int| 0 <= m < before.len() && before[m] == q;
                        assert(after[m] == q);
                    } else {
                        assert(after[after.len() - 1] == q);
                    }
                }
                if after.contains(q) {
                    let k = choose|k: int| 0 <= k < after.len() && after[k] == q;
                    if k < before.len() {
                        assert(before[k] == q);
                        assert(before.to_set().contains(q));
                        let m = choose|m: int| 0 <= m < old_out.len() && old_out[m] == q;
                        assert(out@[m] == q);
                    } else {
                        assert(q == v);
                        if old_out.contains(v) {
                            let m = choose|m: int| 0 <= m < old_out.len() && old_out[m] == q;
                            assert(out@[m] == q);
                        } else {
                            assert(out@[out@.len() - 1] == q);
                        }
                    }
                }
            }
            assert(out@.to_set() =~= after.to_set());
        }
    }
    assert(ivs@.take(i as int) == ivs@);
    proof { out@.unique_seq_to_set(); }
    out
}

pub proof fn lemma_stack_count_prefix(e: Seq<(VReg, Location)>, k: int)
    requires
        0 <= k <= e.len(),
    ensures
        stack_count(e.take(k)) <= stack_count(e),
    decreases e.len(),
{
    if k < e.len() {
        assert(e.drop_last().take(k) == e.take(k));
        lemma_stack_count_prefix(e.drop_last(), k);
    } else {
        assert(e.take(k) == e);
    }
}

/// Whether `r` is among the first `limit` allocatable registers.
fn allowed_contains(regs: &PhysRegSet, limit: usize, r: PhysReg) -> (b: bool)
    requires
        limit <= regs.regs@.len(),
    ensures
        b == regs.regs@.take(limit as int).contains(r),
{
    let mut i: usize = 0;
    while i < limit
        invariant
            i <= limit <= regs.regs@.len(),
            forall|k: int| 0 <= k < i ==> regs.regs@[k] != r,
        decreases limit - i,
    {
        if regs.regs[i] == r {
            assert(regs.regs@.take(limit as int)[i as int] == r);
            return true;
        }
        i += 1;
    }
    proof {
        if regs.regs@.take(limit as int).contains(r) {
            let k = choose|k: int| 0 <= k < limit && regs.regs@.take(limit as int)[k] == r;
            assert(regs.regs@[k] == r);
        }
    }
    false
}

/// Checks an assignment against the allocation contract: every interval value
/// has exactly one location, registers are among the first `max_regs`
/// allocatable ones and never scratch, the spill and slot counts are exact,
/// and overlapping intervals never share a register or a stack slot.
pub fn verify_assignment(
    intervals: &LiveIntervals,
    regs: &PhysRegSet,
    max_regs: usize,
    assignment: &Assignment,
) -> (r: Result<(), AssignmentError>)
    ensures
        r is Ok <==> assignment_valid(intervals.intervals@, *regs, max_regs, *assignment),
        r is Ok <==> assignment_meets_contract(intervals.intervals@, *regs, max_regs, *assignment),
        keys_distinct(location_entries(assignment.map)),
        match r {
            Ok(()) => true,
            Err(err) => assignment_error_holds(intervals.intervals@, *regs, max_regs, *assignment, err)
                && earlier_checks_pass(intervals.intervals@, *regs, max_regs, *assignment, err),
        },
{
    let n = location_map_len(&assignment.map);
    proof {
        lemma_keys_distinct_by_count(location_entries(assignment.map));
        lemma_assignment_contract(intervals.intervals@, *regs, max_regs, *assignment);
    }
    check_assignment(intervals, regs, max_regs, assignment, n)
}

/// The checks of `verify_assignment`, given the number of entries.
fn check_assignment(
    intervals: &LiveIntervals,
    regs: &PhysRegSet,
    max_regs: usize,
    assignment: &Assignment,
    n: usize,
) -> (r: Result<(), AssignmentError>)
    requires
        n == location_entries(assignment.map).len(),
    ensures
        r is Ok <==> assignment_valid(intervals.intervals@, *regs, max_regs, *assignment),
        match r {
            Ok(()) => true,
            Err(err) => assignment_error_holds(intervals.intervals@, *regs, max_regs, *assignment, err)
                && earlier_checks_pass(intervals.intervals@, *regs, max_regs, *assignment, err),
        },
{
    let ivs = &intervals.intervals;
    let ghost iv = ivs@;
    let ghost e = location_entries(assignment.map);
    let ghost vals = interval_values(iv);
    let limit = if max_regs < regs.regs.len() { max_regs } else { regs.regs.len() };
    assert(spec_allowed(*regs, max_regs) == regs.regs@.take(limit as int));
    let expected = interval_value_list(ivs);
    if n != expected.len() {
        return Err(AssignmentError::WrongEntryCount { actual: n, expected: expected.len() });
    }

    let mut i: usize = 0;
    while i < ivs.len()
        invariant
            i <= iv.len(),
            iv == ivs@,
            iv == intervals.intervals@,
            e == location_entries(assignment.map),
            vals == interval_values(iv),
            forall|k: int| 0 <= k < i ==> has_key(e, (#[trigger] iv[k]).v),
            e.len() == vals.len(),
        decreases ivs.len() - i,
    {
        let v = ivs[i].v;
        if location_map_get(&assignment.map, v).is_none() {
            assert(vals.contains(v)) by {
                assert(iv.map_values(|x: LiveInterval| x.v)[i as int] == v);
            }
            return Err(AssignmentError::MissingValue(v));
        }
        i += 1;
    }
    assert forall|v: VReg| vals.contains(v) implies has_key(e, v) by {
        let m = iv.map_values(|x: LiveInterval| x.v);
        assert(m.contains(v));
        let k = choose|k: int| 0 <= k < m.len() && #[trigger] m[k] == v;
        assert(has_key(e, iv[k].v));
    }

    let mut j: usize = 0;
    while j < n
        invariant
            j <= n == e.len(),
            e == location_entries(assignment.map),
            vals == interval_values(intervals.intervals@),
            expected@.to_set() == vals,
            forall|v: VReg| vals.contains(v) ==> has_key(e, v),
            forall|k: int| 0 <= k < j ==> vals.contains(#[trigger] e[k].0),
            e.len() == vals.len(),
        decreases n - j,
    {
        let (v, _loc) = location_map_get_index(&assignment.map, j).unwrap();
        if !contains_vreg(&expected, v) {
            proof {
                lemma_key_index(e, v);
                assert(e[j as int].0 == v);
                assert(!expected@.to_set().contains(v));
            }
            assert(e[j as int].0 == v);
            return Err(AssignmentError::UnknownValue(v));
        }
        assert(expected@.to_set().contains(v));
        j += 1;
    }

    let mut spill_count: u32 = 0;
    let mut highest: Option<u32> = None;
    let mut j: usize = 0;
    while j < n
        invariant
            j <= n == e.len(),
            limit <= regs.regs@.len(),
            spec_allowed(*regs, max_regs) == regs.regs@.take(limit as int),
            e == location_entries(assignment.map),
            spill_count == stack_count(e.take(j as int)),
            highest == highest_slot(e.take(j as int)),
            forall|k: int| 0 <= k < j ==> reg_entry_ok(*regs, max_regs, #[trigger] e[k].1),
            e.len() == interval_values(intervals.intervals@).len(),
            forall|v: VReg| interval_values(intervals.intervals@).contains(v) ==> has_key(e, v),
            forall|k: int| 0 <= k < e.len() ==> interval_values(intervals.intervals@).contains(#[trigger] e[k].0),
        decreases n - j,
    {
        let (v, loc) = location_map_get_index(&assignment.map, j).unwrap();
        assert(e.take(j + 1).drop_last() == e.take(j as int));
        assert(e.take(j + 1).last() == e[j as int]);
        assert(e.contains((v, loc))) by { assert(e[j as int] == (v, loc)); }
        match loc {
            Location::Reg(register) => {
                if !allowed_contains(regs, limit, register) {
                    return Err(AssignmentError::UnavailableRegister { value: v, register });
                }
                if contains_reg(&regs.scratch, register) {
                    return Err(AssignmentError::ReservedScratch { value: v, register });
                }
            },
            Location::Stack(slot) => {
                match spill_count.checked_add(1) {
                    Some(c) => { spill_count = c; },
                    None => {
                        proof { lemma_stack_count_prefix(e, j + 1); }
                        return Err(AssignmentError::SpillCountOverflow);
                    },
                }
                highest = match highest {
                    Some(h) => Some(if h < slot.index { slot.index } else { h }),
                    None => Some(slot.index),
                };
            },
        }
        j += 1;
    }
    assert(e.take(n as int) == e);

    if assignment.spills != spill_count {
        return Err(AssignmentError::SpillCountMismatch { declared: assignment.spills, actual: spill_count });
    }
    let expected_slots: u32 = match highest {
        None => 0,
        Some(h) => if h == u32::MAX { u32::MAX } else { h + 1 },
    };
    if assignment.stack_slots != expected_slots {
        return Err(AssignmentError::StackSlotCountMismatch {
            declared: assignment.stack_slots,
            expected: expected_slots,
        });
    }

    check_conflicts(ivs, &assignment.map)
}

/// Checks that no two overlapping intervals share a location; every interval
/// value is known to have an entry.
fn check_conflicts(ivs: &Vec<LiveInterval>, map: &IndexMap<VReg, Location>) -> (r: Result<(), AssignmentError>)
    requires
        forall|v: VReg| interval_values(ivs@).contains(v) ==> has_key(location_entries(*map), v),
    ensures
        r is Ok <==> conflict_free(ivs@, location_entries(*map)),
        match r {
            Ok(()) => true,
            Err(AssignmentError::RegisterConflict { left, right, register }) =>
                exists|i: int, j: int| 0 <= i < j < ivs@.len() && spec_overlaps(ivs@[i], ivs@[j])
                    && ivs@[i].v == left && ivs@[j].v == right
                    && value_at(location_entries(*map), left) == Location::Reg(register)
                    && value_at(location_entries(*map), right) == Location::Reg(register)
                    && no_earlier_conflict(ivs@, location_entries(*map), i, j),
            Err(AssignmentError::StackSlotConflict { left, right, slot }) =>
                exists|i: int, j: int| 0 <= i < j < ivs@.len() && spec_overlaps(ivs@[i], ivs@[j])
                    && ivs@[i].v == left && ivs@[j].v == right
                    && value_at(location_entries(*map), left) == Location::Stack(StackSlot { index: slot })
                    && value_at(location_entries(*map), right) == Location::Stack(StackSlot { index: slot })
                    && no_earlier_conflict(ivs@, location_entries(*map), i, j),
            Err(_) => false,
        },
{
    let ghost iv = ivs@;
    let ghost e = location_entries(*map);
    let ghost vals = interval_values(iv);
    let mut li: usize = 0;
    while li < ivs.len()
        invariant
            li <= iv.len(),
            iv == ivs@,
            e == location_entries(*map),
            forall|v: VReg| vals.contains(v) ==> has_key(e, v),
            vals == interval_values(iv),
            forall|a: int, b: int| 0 <= a < li && a < b < iv.len() && spec_overlaps(iv[a], iv[b])
                ==> value_at(e, iv[a].v) != value_at(e, iv[b].v),
        decreases ivs.len() - li,
    {
        let left = ivs[li];
        assert(vals.contains(left.v)) by { assert(iv.map_values(|x: LiveInterval| x.v)[li as int] == left.v); }
        let left_loc = match location_map_get(map, left.v) {
            Some(l) => l,
            None => { return Err(AssignmentError::MissingValue(left.v)); },
        };
        let mut ri: usize = li + 1;
        while ri < ivs.len()
            invariant
                li < ri <= iv.len(),
                iv == ivs@,
                left == iv[li as int],
                e == location_entries(*map),
                has_key(e, left.v),
                left_loc == value_at(e, left.v),
                forall|v: VReg| vals.contains(v) ==> has_key(e, v),
                vals == interval_values(iv),
                forall|b: int| li < b < ri && spec_overlaps(iv[li as int], iv[b])
                    ==> value_at(e, iv[li as int].v) != value_at(e, iv[b].v),
                forall|a: int, b: int| 0 <= a < li && a < b < iv.len() && spec_overlaps(iv[a], iv[b])
                    ==> value_at(e, iv[a].v) != value_at(e, iv[b].v),
            decreases ivs.len() - ri,
        {
            let right = ivs[ri];
            if left.overlaps(&right) {
                assert(vals.contains(right.v)) by { assert(iv.map_values(|x: LiveInterval| x.v)[ri as int] == right.v); }
                let right_loc = match location_map_get(map, right.v) {
                    Some(l) => l,
                    None => { return Err(AssignmentError::MissingValue(right.v)); },
                };
                if left_loc == right_loc {
                    assert(spec_overlaps(iv[li as int], iv[ri as int]));
                    assert(value_at(e, iv[li as int].v) == value_at(e, iv[ri as int].v));
                    assert(!conflict_free(iv, e));
                    assert(no_earlier_conflict(iv, e, li as int, ri as int));
                    match left_loc {
                        Location::Reg(register) => {
                            return Err(AssignmentError::RegisterConflict { left: left.v, right: right.v, register });
                        },
                        Location::Stack(slot) => {
                            return Err(AssignmentError::StackSlotConflict { left: left.v, right: right.v, slot: slot.index });
                        },
                    }
                }
            }
            ri += 1;
        }
        li += 1;
    }
    Ok(())
}

/// Whether `v` occurs in `vs`.
pub fn contains_vreg(vs: &Vec<VReg>, v: VReg) -> (r: bool)
    ensures
        r == vs@.contains(v),
{
    let mut i: usize = 0;
    while i < vs.len()
        invariant
            i <= vs.len(),
            forall|k: int| 0 <= k < i ==> vs@[k] != v,
        decreases vs.len() - i,
    {
        if vs[i] == v {
            assert(vs@[i as int] == v);
            return true;
        }
        i += 1;
    }
    false
}

/// All entries on the stack: the stack count is the number of entries.
proof fn lemma_all_stack_count(e: Seq<(VReg, Location)>)
    requires
        forall|i: int| 0 <= i < e.len() ==> (#[trigger] e[i]).1 is Stack,
    ensures
        stack_count(e) == e.len(),
    decreases e.len(),
{
    if e.len() > 0 {
        assert forall|i: int| 0 <= i < e.drop_last().len() implies (#[trigger] e.drop_last()[i]).1 is Stack by {
            assert(e.drop_last()[i] == e[i]);
        }
        lemma_all_stack_count(e.drop_last());
    }
}

/// With no register to use, an accepted assignment spills every value: for
/// intervals with distinct values, its spill count is the number of intervals.
pub proof fn lemma_no_registers_spill_all(ivs: Seq<LiveInterval>, regs: PhysRegSet, a: Assignment)
    requires
        assignment_valid(ivs, regs, 0, a),
        forall|i: int, j: int| 0 <= i < j < ivs.len() ==> ivs[i].v != ivs[j].v,
    ensures
        a.spills == ivs.len(),
{
    let e = location_entries(a.map);
    assert(spec_allowed(regs, 0) =~= Seq::<PhysReg>::empty());
    assert forall|i: int| 0 <= i < e.len() implies (#[trigger] e[i]).1 is Stack by {
        assert(reg_entry_ok(regs, 0, e[i].1));
    }
    lemma_all_stack_count(e);
    let vs = ivs.map_values(|iv: LiveInterval| iv.v);
    assert(vs.no_duplicates()) by {
        assert forall|i: int, j: int| 0 <= i < vs.len() && 0 <= j < vs.len() && i != j implies vs[i] != vs[j] by {
            if i < j { assert(ivs[i].v != ivs[j].v); } else { assert(ivs[j].v != ivs[i].v); }
        }
    }
    vs.unique_seq_to_set();
}

/// An allocation policy. Correctness is not the policy's to define: every
/// assignment it returns meets the contract that `verify_assignment` checks.
pub trait Allocator {
    /// The policy's name.
    fn name(&self) -> &'static str;

    /// An assignment of the intervals' values to the first `max_regs` registers and stack slots.
    fn allocate(
        &self,
        intervals: &LiveIntervals,
        regs: &PhysRegSet,
        max_regs: usize,
    ) -> (r: Result<Assignment, AssignmentError>)
        requires
            intervals.intervals@.len() < u32::MAX,
        ensures
            r matches Ok(a) ==> assignment_valid(intervals.intervals@, *regs, max_regs, a),
    ;
}

} // verus!
