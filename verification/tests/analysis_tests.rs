use backend_lab::cfg::{compute_dominators, CfgError};
use backend_lab::examples;
use backend_lab::interference::build_interference_graph;
use backend_lab::intervals::compute_live_intervals;
use backend_lab::ir::{Block, BlockId, Function, Inst, Terminator, VReg};
use backend_lab::liveness::compute_liveness;
use backend_lab::parser;
use backend_lab::smallvecs::PhiInputs;
use backend_lab::validation::{validate_function, ValidationError};

#[test]
fn phi_inputs_are_live_only_on_matching_edges() {
    let function = examples::trace().unwrap();
    validate_function(&function).unwrap();
    let liveness = compute_liveness(&function).unwrap();

    assert!(liveness.phi_uses[&(BlockId(1), BlockId(3))].contains(&VReg(3)));
    assert!(!liveness.phi_uses[&(BlockId(1), BlockId(3))].contains(&VReg(4)));
    assert!(liveness.phi_uses[&(BlockId(2), BlockId(3))].contains(&VReg(4)));
    assert!(!liveness.per_block[&BlockId(3)].live_in.contains(&VReg(3)));
    assert!(!liveness.per_block[&BlockId(3)].live_in.contains(&VReg(4)));
}

#[test]
fn loop_backedge_extends_live_intervals() {
    let function = examples::phi_swap_loop().unwrap();
    validate_function(&function).unwrap();
    let intervals = compute_live_intervals(&function).unwrap();
    let px = intervals.intervals.iter().find(|interval| interval.v == VReg(5)).expect("px interval");
    let py = intervals.intervals.iter().find(|interval| interval.v == VReg(6)).expect("py interval");
    assert!(px.overlaps(py), "loop-carried phi values must overlap");
}

#[test]
fn interference_graph_contains_cross_block_conflicts() {
    let function = examples::phi_swap_loop().unwrap();
    let graph = build_interference_graph(&function).unwrap();
    assert!(graph.has_edge(VReg(5), VReg(6)));
    assert!(graph.has_edge(VReg(5), VReg(7)));
}

#[test]
fn intervals_are_stably_sorted() {
    let function = examples::basicblock().unwrap();
    let intervals = compute_live_intervals(&function).unwrap();
    for pair in intervals.intervals.windows(2) {
        assert!((pair[0].start, pair[0].end, pair[0].v.0) <= (pair[1].start, pair[1].end, pair[1].v.0));
    }
}

#[test]
fn all_built_in_examples_validate() {
    for function in [
        examples::basicblock().unwrap(),
        examples::trace().unwrap(),
        examples::loop_sum().unwrap(),
        examples::phi_swap_loop().unwrap(),
    ] {
        validate_function(&function).unwrap();
    }
}

fn parsed(text: &str) -> Function {
    parser::parse(text).unwrap()
}

#[test]
fn rejects_duplicate_definitions_with_specific_error() {
    let function = parsed(
        r#"
        func duplicate args=0
        block b0:
          v0 = const 1
          v0 = const 2
          ret v0
        "#,
    );
    assert_eq!(validate_function(&function), Err(ValidationError::MultipleDefinitions(VReg(0))));
    assert!(validate_function(&function).unwrap_err().message().contains("has multiple definitions"));
}

#[test]
fn rejects_missing_phi_predecessor() {
    let entry = BlockId(0);
    let left = BlockId(1);
    let right = BlockId(2);
    let join = BlockId(3);
    let function = Function {
        name: "bad_phi".into(),
        args: 0,
        entry,
        blocks: vec![
            Block {
                id: entry,
                insts: vec![Inst::ConstI64 { dst: VReg(0), imm: 1 }],
                term: Terminator::Br { cond: VReg(0), then_bb: left, else_bb: right },
            },
            Block { id: left, insts: vec![], term: Terminator::Jmp { target: join } },
            Block { id: right, insts: vec![], term: Terminator::Jmp { target: join } },
            Block {
                id: join,
                insts: vec![Inst::PhiI64 { dst: VReg(1), incoming: PhiInputs::from_vec(vec![(left, VReg(0))]) }],
                term: Terminator::Ret { value: VReg(1) },
            },
        ],
    };
    assert_eq!(validate_function(&function), Err(ValidationError::IncompletePhi(join)));
    assert!(validate_function(&function).unwrap_err().message().contains("exactly one input for every predecessor"));
}

#[test]
fn rejects_use_not_dominated_by_definition() {
    let function = parsed(
        r#"
        func nondom args=1
        block b0:
          v0 = arg 0
          br v0 b1 b2
        block b1:
          v1 = const 7
          jmp b3
        block b2:
          jmp b3
        block b3:
          ret v1
        "#,
    );
    assert_eq!(
        validate_function(&function),
        Err(ValidationError::UseNotDominated { value: VReg(1), definition: BlockId(1), use_block: BlockId(3) })
    );
    assert!(validate_function(&function).unwrap_err().message().contains("does not dominate use"));
}

#[test]
fn rejects_use_before_definition_in_same_block() {
    let function = parsed(
        r#"
        func use_before_def args=0
        block b0:
          v1 = mov v0
          v0 = const 7
          ret v1
        "#,
    );
    assert_eq!(
        validate_function(&function),
        Err(ValidationError::UseBeforeDefinition { value: VReg(0), block: BlockId(0) })
    );
    assert!(validate_function(&function).unwrap_err().message().contains("used before its definition"));
}

#[test]
fn rejects_unreachable_blocks() {
    let function = parsed(
        r#"
        func unreachable args=0
        block b0:
          v0 = const 1
          ret v0
        block b1:
          v1 = const 2
          ret v1
        "#,
    );
    assert_eq!(validate_function(&function), Err(ValidationError::UnreachableBlocks));
    assert!(validate_function(&function).unwrap_err().message().contains("contains unreachable blocks"));
}

#[test]
fn rejects_phi_after_non_phi_instruction() {
    let function = parsed(
        r#"
        func misplaced_phi args=0
        block b0:
          v0 = const 1
          jmp b1
        block b1:
          v1 = const 2
          v2 = phi b0 v0
          ret v2
        "#,
    );
    assert_eq!(validate_function(&function), Err(ValidationError::PhiAfterInstruction(BlockId(1))));
    assert!(validate_function(&function).unwrap_err().message().contains("phi nodes must be contiguous at the start"));
}

#[test]
fn rejects_duplicate_phi_predecessors() {
    let function = parsed(
        r#"
        func duplicate_phi_pred args=0
        block b0:
          v0 = const 1
          jmp b1
        block b1:
          v1 = phi b0 v0, b0 v0
          ret v1
        "#,
    );
    assert_eq!(
        validate_function(&function),
        Err(ValidationError::DuplicatePhiPredecessor { block: BlockId(1), predecessor: BlockId(0) })
    );
    assert!(validate_function(&function).unwrap_err().message().contains("contains duplicate predecessor"));
}

#[test]
fn rejects_out_of_range_argument_index() {
    let function = parsed(
        r#"
        func bad_arg args=1
        block b0:
          v0 = arg 1
          ret v0
        "#,
    );
    assert_eq!(validate_function(&function), Err(ValidationError::ArgumentOutOfRange { index: 1, args: 1 }));
    assert!(validate_function(&function).unwrap_err().message().contains("argument index 1 is out of range"));
}

#[test]
fn rejects_empty_and_broken_control_flow() {
    let empty = Function { name: "empty".into(), args: 0, entry: BlockId(0), blocks: vec![] };
    assert_eq!(validate_function(&empty), Err(ValidationError::EmptyFunction));
    let missing = Function {
        name: "missing".into(),
        args: 0,
        entry: BlockId(4),
        blocks: vec![Block { id: BlockId(0), insts: vec![Inst::ConstI64 { dst: VReg(0), imm: 0 }], term: Terminator::Ret { value: VReg(0) } }],
    };
    assert_eq!(validate_function(&missing), Err(ValidationError::MissingEntry(BlockId(4))));
    let unknown = Function {
        name: "unknown".into(),
        args: 0,
        entry: BlockId(0),
        blocks: vec![Block { id: BlockId(0), insts: vec![], term: Terminator::Jmp { target: BlockId(9) } }],
    };
    assert_eq!(
        validate_function(&unknown),
        Err(ValidationError::UnknownSuccessor { block: BlockId(0), target: BlockId(9) })
    );
    assert_eq!(
        compute_liveness(&unknown).err(),
        Some(CfgError::UnknownSuccessor { block: BlockId(0), target: BlockId(9) })
    );
}

#[test]
fn dominators_follow_every_path() {
    let function = examples::trace().unwrap();
    let dominators = compute_dominators(&function).unwrap();
    for b in 0..4 {
        assert!(dominators.dominates(BlockId(0), BlockId(b)));
        assert!(dominators.dominates(BlockId(b), BlockId(b)));
    }
    assert!(!dominators.dominates(BlockId(1), BlockId(3)));
    assert!(!dominators.dominates(BlockId(2), BlockId(3)));
    assert!(!dominators.dominates(BlockId(3), BlockId(0)));
}

#[test]
fn interference_is_symmetric_on_examples() {
    for function in [examples::trace().unwrap(), examples::loop_sum().unwrap(), examples::phi_swap_loop().unwrap()] {
        let graph = build_interference_graph(&function).unwrap();
        for a in graph.nodes.iter() {
            for b in graph.neighbors(*a) {
                assert!(graph.has_edge(b, *a));
                assert_ne!(*a, b);
            }
        }
    }
}
