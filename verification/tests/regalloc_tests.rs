use backend_lab::intervals::{LiveInterval, LiveIntervals, Pos};
use backend_lab::ir::VReg;
use backend_lab::regalloc::{
    verify_assignment, Assignment, AssignmentError, Location, PhysReg, PhysRegSet, RegisterSetError, StackSlot,
};
use indexmap::IndexMap;

fn overlapping_intervals() -> LiveIntervals {
    LiveIntervals {
        intervals: vec![
            LiveInterval { v: VReg(0), start: Pos(0), end: Pos(3) },
            LiveInterval { v: VReg(1), start: Pos(2), end: Pos(5) },
        ],
        positions: IndexMap::new(),
    }
}

fn non_overlapping_intervals() -> LiveIntervals {
    LiveIntervals {
        intervals: vec![
            LiveInterval { v: VReg(0), start: Pos(0), end: Pos(1) },
            LiveInterval { v: VReg(1), start: Pos(2), end: Pos(5) },
        ],
        positions: IndexMap::new(),
    }
}

#[test]
fn rejects_register_conflict() {
    let regs = PhysRegSet::default_gp_with_scratch();
    let assignment = Assignment {
        map: IndexMap::from([(VReg(0), Location::Reg(PhysReg::Rax)), (VReg(1), Location::Reg(PhysReg::Rax))]),
        stack_slots: 0,
        spills: 0,
    };
    let err = verify_assignment(&overlapping_intervals(), &regs, 1, &assignment).expect_err("must be rejected");
    assert_eq!(err, AssignmentError::RegisterConflict { left: VReg(0), right: VReg(1), register: PhysReg::Rax });
    assert!(err.message().contains("share register"));
}

#[test]
fn rejects_overlapping_values_in_same_stack_slot() {
    let regs = PhysRegSet::default_gp_with_scratch();
    let assignment = Assignment {
        map: IndexMap::from([
            (VReg(0), Location::Stack(StackSlot { index: 0 })),
            (VReg(1), Location::Stack(StackSlot { index: 0 })),
        ]),
        stack_slots: 1,
        spills: 2,
    };
    let err = verify_assignment(&overlapping_intervals(), &regs, 0, &assignment).expect_err("must be rejected");
    assert_eq!(err, AssignmentError::StackSlotConflict { left: VReg(0), right: VReg(1), slot: 0 });
    assert!(err.message().contains("share stack slot 0"));
}

#[test]
fn permits_stack_slot_reuse_for_disjoint_intervals() {
    let regs = PhysRegSet::default_gp_with_scratch();
    let assignment = Assignment {
        map: IndexMap::from([
            (VReg(0), Location::Stack(StackSlot { index: 0 })),
            (VReg(1), Location::Stack(StackSlot { index: 0 })),
        ]),
        stack_slots: 1,
        spills: 2,
    };
    verify_assignment(&non_overlapping_intervals(), &regs, 0, &assignment).unwrap();
}

#[test]
fn rejects_reserved_scratch_register() {
    let regs = PhysRegSet::default_gp_with_scratch();
    let assignment = Assignment {
        map: IndexMap::from([(VReg(0), Location::Reg(PhysReg::R10)), (VReg(1), Location::Stack(StackSlot { index: 0 }))]),
        stack_slots: 1,
        spills: 1,
    };
    let err = verify_assignment(&overlapping_intervals(), &regs, 5, &assignment).expect_err("must be rejected");
    assert_eq!(err, AssignmentError::UnavailableRegister { value: VReg(0), register: PhysReg::R10 });
    assert!(err.message().contains("unavailable register R10"));
}

#[test]
fn rejects_incorrect_spill_metadata() {
    let regs = PhysRegSet::default_gp_with_scratch();
    let assignment = Assignment {
        map: IndexMap::from([(VReg(0), Location::Reg(PhysReg::Rax)), (VReg(1), Location::Stack(StackSlot { index: 0 }))]),
        stack_slots: 1,
        spills: 0,
    };
    let err = verify_assignment(&overlapping_intervals(), &regs, 1, &assignment).expect_err("must be rejected");
    assert_eq!(err, AssignmentError::SpillCountMismatch { declared: 0, actual: 1 });
    assert!(err.message().contains("spill count does not match"));
}

#[test]
fn rejects_incorrect_stack_slot_metadata() {
    let regs = PhysRegSet::default_gp_with_scratch();
    let assignment = Assignment {
        map: IndexMap::from([(VReg(0), Location::Reg(PhysReg::Rax)), (VReg(1), Location::Stack(StackSlot { index: 2 }))]),
        stack_slots: 2,
        spills: 1,
    };
    let err = verify_assignment(&overlapping_intervals(), &regs, 1, &assignment).expect_err("must be rejected");
    assert_eq!(err, AssignmentError::StackSlotCountMismatch { declared: 2, expected: 3 });
    assert!(err.message().contains("does not match highest used slot 3"));
}

#[test]
fn accepts_complete_conflict_free_assignment() {
    let regs = PhysRegSet::default_gp_with_scratch();
    let assignment = Assignment {
        map: IndexMap::from([(VReg(0), Location::Reg(PhysReg::Rax)), (VReg(1), Location::Stack(StackSlot { index: 0 }))]),
        stack_slots: 1,
        spills: 1,
    };
    verify_assignment(&overlapping_intervals(), &regs, 1, &assignment).unwrap();
}

#[test]
fn rejects_missing_and_unknown_values() {
    let regs = PhysRegSet::default_gp_with_scratch();
    let too_few = Assignment { map: IndexMap::from([(VReg(0), Location::Reg(PhysReg::Rax))]), stack_slots: 0, spills: 0 };
    assert_eq!(
        verify_assignment(&overlapping_intervals(), &regs, 2, &too_few),
        Err(AssignmentError::WrongEntryCount { actual: 1, expected: 2 })
    );
    let unknown = Assignment {
        map: IndexMap::from([(VReg(0), Location::Reg(PhysReg::Rax)), (VReg(7), Location::Reg(PhysReg::Rcx))]),
        stack_slots: 0,
        spills: 0,
    };
    assert_eq!(verify_assignment(&overlapping_intervals(), &regs, 2, &unknown), Err(AssignmentError::MissingValue(VReg(1))));
}

#[test]
fn default_register_set_is_ready_for_codegen() {
    let regs = PhysRegSet::default_gp_with_scratch();
    assert_eq!(regs.regs, vec![PhysReg::Rax, PhysReg::Rcx, PhysReg::Rdx, PhysReg::R8, PhysReg::R9]);
    assert_eq!(regs.scratch, vec![PhysReg::R10, PhysReg::R11]);
    assert_eq!(regs.validate_for_codegen(), Ok(()));
    assert_eq!(PhysReg::R11.name(), "r11");
}

#[test]
fn register_set_errors_name_the_violation() {
    let dup = PhysRegSet { regs: vec![PhysReg::Rax, PhysReg::Rax], scratch: vec![PhysReg::R10, PhysReg::R11] };
    assert_eq!(dup.validate_for_codegen(), Err(RegisterSetError::DuplicateRegister(PhysReg::Rax)));
    let rbx = PhysRegSet { regs: vec![PhysReg::Rbx], scratch: vec![PhysReg::R10, PhysReg::R11] };
    assert_eq!(rbx.validate_for_codegen(), Err(RegisterSetError::CalleeSavedRegister));
    let few = PhysRegSet { regs: vec![PhysReg::Rax], scratch: vec![PhysReg::R10] };
    assert_eq!(few.validate_for_codegen(), Err(RegisterSetError::TooFewScratch));
    let overlap = PhysRegSet { regs: vec![PhysReg::Rax], scratch: vec![PhysReg::Rax, PhysReg::R11] };
    assert_eq!(overlap.validate_for_codegen(), Err(RegisterSetError::ScratchOverlap(PhysReg::Rax)));
    let scratch_rbx = PhysRegSet { regs: vec![PhysReg::Rax], scratch: vec![PhysReg::Rbx, PhysReg::R11] };
    assert_eq!(scratch_rbx.validate_for_codegen(), Err(RegisterSetError::CalleeSavedScratch));
}
