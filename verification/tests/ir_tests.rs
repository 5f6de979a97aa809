use backend_lab::examples;
use backend_lab::interp::{InterpError, Interpreter};
use backend_lab::ir::{ArgId, Block, BlockId, Function, Inst, Terminator, VReg};
use backend_lab::parser::{self, ParseError};
use backend_lab::smallvecs::PhiInputs;

#[test]
fn interpreter_matches_built_in_examples() {
    let interpreter = Interpreter;
    assert_eq!(interpreter.eval_i64(&examples::basicblock().unwrap(), &[2, 3, 4]).unwrap(), 47);
    assert_eq!(interpreter.eval_i64(&examples::trace().unwrap(), &[10, 7]).unwrap(), 10);
    assert_eq!(interpreter.eval_i64(&examples::trace().unwrap(), &[3, 9]).unwrap(), 9);
    assert_eq!(interpreter.eval_i64(&examples::loop_sum().unwrap(), &[0]).unwrap(), 0);
    assert_eq!(interpreter.eval_i64(&examples::loop_sum().unwrap(), &[5]).unwrap(), 15);
    for iterations in 0..=8 {
        let expected = if iterations % 2 == 0 { 11 } else { 29 };
        assert_eq!(interpreter.eval_i64(&examples::phi_swap_loop().unwrap(), &[11, 29, iterations]).unwrap(), expected);
    }
}

#[test]
fn parser_rejects_implicit_or_multiple_terminators() {
    assert!(parser::parse("func f args=0\nblock b0:\nv0 = const 1").is_err());
    assert!(parser::parse("func f args=0\nblock b0:\nv0 = const 1\nret v0\nret v0").is_err());
}

#[test]
fn interpreter_enforces_step_limit() {
    let function = parser::parse(
        r#"
        func forever args=0
        block b0:
          jmp b0
        "#,
    )
    .unwrap();
    assert!(Interpreter.eval_i64_with_limit(&function, &[], 10).is_err());
}

#[test]
fn build_phi_edge_function_interprets() {
    let entry = BlockId(0);
    let then_bb = BlockId(1);
    let else_bb = BlockId(2);
    let join = BlockId(3);

    let left = VReg(0);
    let right = VReg(1);
    let condition = VReg(2);
    let phi_right = VReg(3);
    let phi_left = VReg(4);
    let negative_one = VReg(5);
    let negative_right = VReg(6);
    let result = VReg(7);

    let entry_block = Block {
        id: entry,
        insts: vec![
            Inst::ArgI64 { dst: left, idx: ArgId(0) },
            Inst::ArgI64 { dst: right, idx: ArgId(1) },
            Inst::CmpGtI64 { dst: condition, a: left, b: right },
        ],
        term: Terminator::Br { cond: condition, then_bb, else_bb },
    };
    let then_block = Block { id: then_bb, insts: vec![], term: Terminator::Jmp { target: join } };
    let else_block = Block { id: else_bb, insts: vec![], term: Terminator::Jmp { target: join } };
    let join_block = Block {
        id: join,
        insts: vec![
            Inst::PhiI64 { dst: phi_right, incoming: PhiInputs::from_vec(vec![(then_bb, right), (else_bb, right)]) },
            Inst::PhiI64 { dst: phi_left, incoming: PhiInputs::from_vec(vec![(then_bb, left), (else_bb, left)]) },
            Inst::ConstI64 { dst: negative_one, imm: -1 },
            Inst::MulI64 { dst: negative_right, a: negative_one, b: phi_right },
            Inst::AddI64 { dst: result, a: phi_left, b: negative_right },
        ],
        term: Terminator::Ret { value: result },
    };

    let function = Function {
        name: "phi_edge_moves".into(),
        args: 2,
        entry,
        blocks: vec![entry_block, then_block, else_block, join_block],
    };

    let interpreter = Interpreter;
    assert_eq!(interpreter.eval_i64(&function, &[10, 7]).unwrap(), 3);
    assert_eq!(interpreter.eval_i64(&function, &[7, 10]).unwrap(), -3);
}

#[test]
fn parse_errors_name_the_first_problem() {
    assert_eq!(parser::parse("# nothing\n\n").err(), Some(ParseError::MissingHeader));
    assert_eq!(parser::parse("fn f args=0").err(), Some(ParseError::ExpectedFunc));
    assert_eq!(parser::parse("func").err(), Some(ParseError::MissingName));
    assert_eq!(parser::parse("func f").err(), Some(ParseError::MissingArgs));
    assert_eq!(parser::parse("func f n=1").err(), Some(ParseError::ExpectedArgs));
    assert_eq!(parser::parse("func f args=x").err(), Some(ParseError::InvalidInteger));
    assert_eq!(parser::parse("func f args=0 extra").err(), Some(ParseError::UnexpectedToken));
    assert_eq!(parser::parse("func f args=0").err(), Some(ParseError::NoBlocks));
    assert_eq!(parser::parse("func f args=0\nv0 = const 1").err(), Some(ParseError::InstructionOutsideBlock));
    assert_eq!(parser::parse("func f args=0\nblock b0\nret v0").err(), Some(ParseError::MissingColon));
    assert_eq!(parser::parse("func f args=0\nblock x0:\nret v0").err(), Some(ParseError::ExpectedBlock));
    assert_eq!(
        parser::parse("func f args=0\nblock b0:\nret v0\nblock b0:\nret v0").err(),
        Some(ParseError::DuplicateLabel(BlockId(0)))
    );
    assert_eq!(
        parser::parse("func f args=0\nblock b0:\nv0 = const 1").err(),
        Some(ParseError::NoTerminator(BlockId(0)))
    );
    assert_eq!(
        parser::parse("func f args=0\nblock b0:\nv0 = const 1\nret v0\nret v0").err(),
        Some(ParseError::MultipleTerminators(BlockId(0)))
    );
    assert_eq!(
        parser::parse("func f args=0\nblock b0:\nret v0\nv1 = const 2").err(),
        Some(ParseError::InstructionAfterTerminator(BlockId(0)))
    );
    assert_eq!(parser::parse("func f args=0\nblock b0:\nv0 const 1\nret v0").err(), Some(ParseError::ExpectedEquals));
    assert_eq!(parser::parse("func f args=0\nblock b0:\nx = const 1\nret v0").err(), Some(ParseError::ExpectedValue));
    assert_eq!(parser::parse("func f args=0\nblock b0:\nv0 =\nret v0").err(), Some(ParseError::MissingOperation));
    assert_eq!(parser::parse("func f args=0\nblock b0:\nv0 = add v1\nret v0").err(), Some(ParseError::MissingOperand));
    assert_eq!(parser::parse("func f args=0\nblock b0:\nv0 = div v1 v2\nret v0").err(), Some(ParseError::UnknownOperation));
    assert_eq!(parser::parse("func f args=0\nblock b0:\nv0 = const 99999999999999999999\nret v0").err(), Some(ParseError::InvalidInteger));
    assert_eq!(parser::parse("func f args=0\nblock b0:\njmp b7").err(), Some(ParseError::UnknownLabel));
    assert_eq!(parser::parse("func f args=0\nblock b0:\nv0 = phi\nret v0").err(), Some(ParseError::EmptyPhi));
    // phi inputs are read before terminators
    assert_eq!(parser::parse("func f args=0\nblock b0:\nv0 = phi b9 v1\njmp b8").err(), Some(ParseError::UnknownLabel));
}

#[test]
fn parser_reads_numbers_as_rust_does() {
    let f = parser::parse("func f args=+2\nblock b0:\nv0 = const -9223372036854775808\nv1 = const +5\nret v0").unwrap();
    assert_eq!(f.args, 2);
    assert!(matches!(f.blocks[0].insts[0], Inst::ConstI64 { dst: VReg(0), imm: i64::MIN }));
    assert!(matches!(f.blocks[0].insts[1], Inst::ConstI64 { dst: VReg(1), imm: 5 }));
    assert_eq!(parser::parse("func f args=-1\nblock b0:\nret v0").err(), Some(ParseError::InvalidInteger));
}

#[test]
fn parser_builds_the_trace_example() {
    let f = examples::trace().unwrap();
    assert_eq!(f.name, "trace");
    assert_eq!(f.args, 2);
    assert_eq!(f.entry, BlockId(0));
    assert_eq!(f.blocks.len(), 4);
    assert!(matches!(f.blocks[0].term, Terminator::Br { cond: VReg(2), then_bb: BlockId(1), else_bb: BlockId(2) }));
    match &f.blocks[3].insts[0] {
        Inst::PhiI64 { dst, incoming } => {
            assert_eq!(*dst, VReg(5));
            assert_eq!(incoming.to_vec(), vec![(BlockId(1), VReg(3)), (BlockId(2), VReg(4))]);
        }
        other => panic!("expected a phi, got {other:?}"),
    }
}

#[test]
fn interpreter_errors_name_the_cause() {
    let f = examples::trace().unwrap();
    assert_eq!(Interpreter.eval_i64(&f, &[1]).err(), Some(InterpError::ArgumentCount { expected: 2, actual: 1 }));
    assert_eq!(Interpreter.eval_i64_with_limit(&f, &[1, 2], 0).err(), Some(InterpError::ZeroStepLimit));
    assert_eq!(Interpreter.eval_i64_with_limit(&f, &[1, 2], 3).err(), Some(InterpError::StepLimitExceeded));
    let undefined = parser::parse("func u args=0\nblock b0:\nv1 = mov v0\nret v1").unwrap();
    assert_eq!(Interpreter.eval_i64(&undefined, &[]).err(), Some(InterpError::UndefinedValue(VReg(0))));
    let bad_arg = parser::parse("func a args=1\nblock b0:\nv0 = arg 3\nret v0").unwrap();
    assert_eq!(Interpreter.eval_i64(&bad_arg, &[5]).err(), Some(InterpError::ArgumentOutOfRange(3)));
    let entry_phi = parser::parse("func p args=0\nblock b0:\nv0 = phi b0 v0\nret v0").unwrap();
    assert_eq!(Interpreter.eval_i64(&entry_phi, &[]).err(), Some(InterpError::PhiInEntryBlock));
}

#[test]
fn interpreter_error_messages_name_the_cause() {
    let f = examples::trace().unwrap();
    assert_eq!(Interpreter.eval_i64(&f, &[1]).unwrap_err().message(), "expected 2 args, got 1");
    assert_eq!(Interpreter.eval_i64(&f, &[1, 2, 3, 4]).unwrap_err().message(), "expected 2 args, got 4");
    assert_eq!(Interpreter.eval_i64_with_limit(&f, &[1, 2], 0).unwrap_err().message(), "step limit must be positive");
    // The argument count is checked before the step limit.
    assert_eq!(Interpreter.eval_i64_with_limit(&f, &[], 0).unwrap_err().message(), "expected 2 args, got 0");
    assert_eq!(Interpreter.eval_i64_with_limit(&f, &[1, 2], 3).unwrap_err().message(), "interpreter step limit exceeded");
    let undefined = parser::parse("func u args=0\nblock b0:\nv1 = mov v0\nret v1").unwrap();
    assert_eq!(Interpreter.eval_i64(&undefined, &[]).unwrap_err().message(), "undefined value VReg(0)");
    let bad_arg = parser::parse("func a args=1\nblock b0:\nv0 = arg 3\nret v0").unwrap();
    assert_eq!(Interpreter.eval_i64(&bad_arg, &[5]).unwrap_err().message(), "argument index 3 is out of range");
    let entry_phi = parser::parse("func p args=0\nblock b0:\nv0 = phi b0 v0\nret v0").unwrap();
    assert_eq!(Interpreter.eval_i64(&entry_phi, &[]).unwrap_err().message(), "phi in entry block");
    assert_eq!(InterpError::UnknownBlock(BlockId(7)).message(), "unknown block BlockId(7)");
    assert_eq!(InterpError::MissingPhiInput.message(), "phi missing incoming for predecessor");
    assert_eq!(InterpError::UndefinedPhiSource(VReg(4)).message(), "phi uses undefined value VReg(4)");
    assert_eq!(InterpError::UndefinedReturnValue(VReg(2)).message(), "undefined return value VReg(2)");
    assert_eq!(InterpError::UndefinedBranchCondition(VReg(9)).message(), "undefined branch condition VReg(9)");
    assert_eq!(InterpError::StepCounterOverflow.message(), "interpreter step counter overflow");
}

#[test]
fn interpreter_wraps_on_overflow() {
    let f = parser::parse("func w args=2\nblock b0:\nv0 = arg 0\nv1 = arg 1\nv2 = add v0 v1\nv3 = mul v2 v1\nret v3").unwrap();
    assert_eq!(Interpreter.eval_i64(&f, &[i64::MAX, 1]).unwrap(), i64::MIN);
    assert_eq!(Interpreter.eval_i64(&f, &[i64::MAX, 2]).unwrap(), i64::MIN.wrapping_add(1).wrapping_mul(2));
}

#[test]
fn a_larger_step_limit_keeps_a_successful_result() {
    let f = examples::loop_sum().unwrap();
    let mut first = None;
    for k in 1..200usize {
        if let Ok(v) = Interpreter.eval_i64_with_limit(&f, &[6], k) {
            first = Some((k, v));
            break;
        }
    }
    let (k, v) = first.expect("some limit suffices");
    assert_eq!(v, 21);
    for k2 in [k, k + 1, k * 2, 10_000] {
        assert_eq!(Interpreter.eval_i64_with_limit(&f, &[6], k2), Ok(v));
    }
    assert!(Interpreter.eval_i64_with_limit(&f, &[6], k - 1).is_err());
}
