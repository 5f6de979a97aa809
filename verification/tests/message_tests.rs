use backend_lab::codegen::CodegenError;
use backend_lab::intervals::{IntervalError, LiveInterval, LiveIntervals, Pos};
use backend_lab::ir::{BlockId, VReg};
use backend_lab::pipeline::{PollAction, RunnerClient};
use backend_lab::regalloc::{
    verify_assignment, Assignment, AssignmentError, Location, PhysReg, PhysRegSet, RegisterSetError, StackSlot,
};
use backend_lab::validation::ValidationError;
use indexmap::IndexMap;

fn intervals(spans: &[(u32, u32, u32)]) -> LiveIntervals {
    LiveIntervals {
        intervals: spans.iter().map(|&(v, s, e)| LiveInterval { v: VReg(v), start: Pos(s), end: Pos(e) }).collect(),
        positions: IndexMap::new(),
    }
}

#[test]
fn assignment_messages_print_numbers_values_and_registers() {
    assert_eq!(
        AssignmentError::WrongEntryCount { actual: 10, expected: 123 }.message(),
        "assignment contains 10 entries for 123 intervals"
    );
    assert_eq!(AssignmentError::MissingValue(VReg(0)).message(), "assignment is missing VReg(0)");
    assert_eq!(
        AssignmentError::UnknownValue(VReg(4_294_967_295)).message(),
        "assignment contains unknown value VReg(4294967295)"
    );
    assert_eq!(
        AssignmentError::ReservedScratch { value: VReg(7), register: PhysReg::R11 }.message(),
        "value VReg(7) uses reserved scratch register R11"
    );
    assert_eq!(AssignmentError::SpillCountOverflow.message(), "spill count overflow");
    assert_eq!(
        AssignmentError::SpillCountMismatch { declared: 0, actual: 1 }.message(),
        "spill count does not match the stack assignments: declared 0, found 1"
    );
    assert_eq!(
        AssignmentError::StackSlotConflict { left: VReg(1), right: VReg(20), slot: 305 }.message(),
        "overlapping values VReg(1) and VReg(20) share stack slot 305"
    );
}

#[test]
fn validation_and_analysis_messages() {
    assert_eq!(ValidationError::EmptyFunction.message(), "function has no blocks");
    assert_eq!(
        ValidationError::UnknownSuccessor { block: BlockId(0), target: BlockId(12) }.message(),
        "block BlockId(0) targets unknown block BlockId(12)"
    );
    assert_eq!(
        ValidationError::ArgumentOutOfRange { index: 3, args: 2 }.message(),
        "argument index 3 is out of range for 2 arguments"
    );
    assert_eq!(
        ValidationError::PhiInputNotDominated {
            value: VReg(5),
            definition: BlockId(2),
            predecessor: BlockId(1),
            block: BlockId(3)
        }
        .message(),
        "definition of phi input VReg(5) in BlockId(2) does not dominate edge BlockId(1) -> BlockId(3)"
    );
    assert_eq!(IntervalError::UnknownPhiPredecessor(BlockId(9)).message(), "unknown phi predecessor BlockId(9)");
}

#[test]
fn register_set_and_codegen_messages() {
    assert_eq!(RegisterSetError::DuplicateRegister(PhysReg::Rax).message(), "duplicate allocatable register Rax");
    assert_eq!(
        RegisterSetError::CalleeSavedRegister.message(),
        "RBX is callee-saved and is not supported by the MVP prologue"
    );
    assert_eq!(CodegenError::TooManyArguments(7).message(), "MVP supports up to 6 arguments");
    assert_eq!(CodegenError::FrameTooLarge.message(), "stack frame does not fit 32-bit displacements");
    assert_eq!(CodegenError::Assembler("bad label".to_string()).message(), "bad label");
    assert_eq!(
        CodegenError::Validation(ValidationError::MultipleDefinitions(VReg(3))).message(),
        "value VReg(3) has multiple definitions"
    );
}

#[test]
fn assignment_verification_reports_the_first_failed_check() {
    let regs = PhysRegSet::default_gp_with_scratch();
    let ivs = intervals(&[(0, 0, 3), (1, 2, 5)]);
    // a missing value is reported before an unknown one
    let missing = Assignment {
        map: IndexMap::from([(VReg(2), Location::Reg(PhysReg::Rax)), (VReg(0), Location::Reg(PhysReg::Rcx))]),
        stack_slots: 0,
        spills: 0,
    };
    assert_eq!(verify_assignment(&ivs, &regs, 5, &missing), Err(AssignmentError::MissingValue(VReg(1))));
    // entries are checked in map order, before the spill count
    let entries = Assignment {
        map: IndexMap::from([(VReg(1), Location::Reg(PhysReg::R11)), (VReg(0), Location::Reg(PhysReg::R10))]),
        stack_slots: 4,
        spills: 9,
    };
    assert_eq!(
        verify_assignment(&ivs, &regs, 5, &entries),
        Err(AssignmentError::UnavailableRegister { value: VReg(1), register: PhysReg::R11 })
    );
    // the first overlapping pair, by first interval then second, is reported
    let three = intervals(&[(0, 0, 9), (1, 1, 9), (2, 2, 9)]);
    let conflicts = Assignment {
        map: IndexMap::from([
            (VReg(0), Location::Stack(StackSlot { index: 0 })),
            (VReg(1), Location::Reg(PhysReg::Rax)),
            (VReg(2), Location::Stack(StackSlot { index: 0 })),
        ]),
        stack_slots: 1,
        spills: 2,
    };
    let conflicts2 = Assignment {
        map: IndexMap::from([
            (VReg(0), Location::Reg(PhysReg::Rcx)),
            (VReg(1), Location::Reg(PhysReg::Rax)),
            (VReg(2), Location::Reg(PhysReg::Rax)),
        ]),
        stack_slots: 0,
        spills: 0,
    };
    assert_eq!(
        verify_assignment(&three, &regs, 5, &conflicts),
        Err(AssignmentError::StackSlotConflict { left: VReg(0), right: VReg(2), slot: 0 })
    );
    assert_eq!(
        verify_assignment(&three, &regs, 5, &conflicts2),
        Err(AssignmentError::RegisterConflict { left: VReg(1), right: VReg(2), register: PhysReg::Rax })
    );
}

#[test]
fn register_set_check_reports_the_first_bad_register() {
    let rbx_first = PhysRegSet { regs: vec![PhysReg::Rax, PhysReg::Rbx, PhysReg::Rax], scratch: vec![PhysReg::R10, PhysReg::R11] };
    assert_eq!(rbx_first.validate_for_codegen(), Err(RegisterSetError::CalleeSavedRegister));
    let dup_first = PhysRegSet { regs: vec![PhysReg::Rax, PhysReg::Rax, PhysReg::Rbx], scratch: vec![PhysReg::R10, PhysReg::R11] };
    assert_eq!(dup_first.validate_for_codegen(), Err(RegisterSetError::DuplicateRegister(PhysReg::Rax)));
    let overlap = PhysRegSet { regs: vec![PhysReg::Rax], scratch: vec![PhysReg::Rax, PhysReg::Rbx] };
    assert_eq!(overlap.validate_for_codegen(), Err(RegisterSetError::ScratchOverlap(PhysReg::Rax)));
    let rbx_scratch = PhysRegSet { regs: vec![PhysReg::Rax], scratch: vec![PhysReg::Rbx, PhysReg::Rax] };
    assert_eq!(rbx_scratch.validate_for_codegen(), Err(RegisterSetError::CalleeSavedScratch));
}

#[test]
fn default_client_kills_a_runner_still_going_after_five_seconds() {
    let client = RunnerClient::default();
    assert_eq!(client.poll_action(false, 4_999_999_999), PollAction::Wait);
    assert_eq!(client.poll_action(false, 5_000_000_000), PollAction::Kill);
    assert_eq!(client.poll_action(true, 5_000_000_000), PollAction::Collect);
}

#[test]
fn interference_graph_edges_are_symmetric_between_nodes() {
    for f in [backend_lab::examples::trace().unwrap(), backend_lab::examples::phi_swap_loop().unwrap()] {
        let g = backend_lab::interference::build_interference_graph(&f).unwrap();
        let nodes: Vec<VReg> = g.nodes.iter().copied().collect();
        for &a in &nodes {
            assert!(!g.has_edge(a, a));
            for &b in &nodes {
                assert_eq!(g.has_edge(a, b), g.has_edge(b, a));
            }
            for b in g.neighbors(a) {
                assert!(nodes.contains(&b));
            }
        }
    }
}
