use backend_lab::assembler::encode_ops;
use backend_lab::codegen::{emit_function_i64, lower_function_i64, CodegenError};
use backend_lab::disasm::{disasm, hex_address};
use backend_lab::examples;
use backend_lab::interp::Interpreter;
use backend_lab::intervals::compute_live_intervals;
use backend_lab::ir::{ArgId, Block, BlockId, Function, Inst, Terminator, VReg};
use backend_lab::linear_scan::LinearScan;
use backend_lab::moves::{emit_parallel_moves, AsmLabel, AsmOp, MoveLoc};
use backend_lab::regalloc::{Allocator, Assignment, Location, PhysReg, PhysRegSet, StackSlot};
use backend_lab::smallvecs::PhiInputs;
use backend_lab::validation::ValidationError;
use indexmap::IndexMap;

#[test]
fn emit_is_deterministic_for_basicblock() {
    let f = examples::basicblock().unwrap();
    let regs = PhysRegSet::default_gp_with_scratch();
    let li = compute_live_intervals(&f).unwrap();
    let asg = LinearScan.allocate(&li, &regs, 4).unwrap();

    let e1 = emit_function_i64(&f, &asg, &regs).unwrap();
    let e2 = emit_function_i64(&f, &asg, &regs).unwrap();

    assert_eq!(e1.bytes, e2.bytes, "codegen produced different bytes");
    assert_eq!(e1.metrics.code_size, e2.metrics.code_size);
    assert_eq!(e1.metrics.loads, e2.metrics.loads);
    assert_eq!(e1.metrics.stores, e2.metrics.stores);
}

#[test]
fn emit_disasm_nonempty() {
    let f = examples::basicblock().unwrap();
    let li = compute_live_intervals(&f).unwrap();
    let regs = PhysRegSet::default_gp_with_scratch();
    let asg = LinearScan.allocate(&li, &regs, 3).unwrap();
    let code = emit_function_i64(&f, &asg, &regs).unwrap();
    let text = disasm(&code.bytes, 0);
    assert!(!text.is_empty());
}

#[test]
fn frame_has_aligned_rsp_when_stack_used() {
    let f = examples::basicblock().unwrap();
    let regs = PhysRegSet::default_gp_with_scratch();
    let li = compute_live_intervals(&f).unwrap();

    let asg = LinearScan.allocate(&li, &regs, 3).unwrap();
    let out = emit_function_i64(&f, &asg, &regs).unwrap();

    let text = disasm(&out.bytes, 0);

    assert!(text.contains("push rbp"));
    assert!(text.contains("mov rbp,rsp"));

    if asg.stack_slots > 0 {
        assert!(text.contains("sub rsp,"), "expected stack allocation in prologue");
        assert!(text.contains("add rsp,"), "expected stack deallocation in epilogue");
    }

    assert!(text.trim_end().ends_with("ret"), "no ret at end");
}

#[test]
fn trace_is_max_for_many_inputs() {
    let f = examples::trace().unwrap();
    let regs = PhysRegSet::default_gp_with_scratch();
    let li = compute_live_intervals(&f).unwrap();
    let asg = LinearScan.allocate(&li, &regs, 3).unwrap();
    let code = emit_function_i64(&f, &asg, &regs).unwrap();

    let interp = Interpreter;
    let inputs = [(10, 7), (7, 10), (0, 0), (-1, 5), (5, -1), (-10, -7), (123, 123)];

    for (a, b) in inputs {
        let ref_r = interp.eval_i64(&f, &[a, b]).unwrap();
        let expected = if a > b { a } else { b };
        assert_eq!(ref_r, expected, "ref mismatch for a={a}, b={b}");
    }

    assert!(!code.bytes.is_empty());
}

#[test]
fn phi_parallel_move_cycle_codegen_smoke() {
    let entry = BlockId(0);
    let then_bb = BlockId(1);
    let else_bb = BlockId(2);
    let join = BlockId(3);

    let a0 = VReg(0);
    let a1 = VReg(1);
    let c = VReg(2);

    let x = VReg(3);
    let y = VReg(4);
    let sum = VReg(5);

    let b0 = Block {
        id: entry,
        insts: vec![
            Inst::ArgI64 { dst: a0, idx: ArgId(0) },
            Inst::ArgI64 { dst: a1, idx: ArgId(1) },
            Inst::CmpGtI64 { dst: c, a: a0, b: a1 },
        ],
        term: Terminator::Br { cond: c, then_bb, else_bb },
    };
    let b1 = Block { id: then_bb, insts: vec![], term: Terminator::Jmp { target: join } };
    let b2 = Block { id: else_bb, insts: vec![], term: Terminator::Jmp { target: join } };
    let b3 = Block {
        id: join,
        insts: vec![
            Inst::PhiI64 { dst: x, incoming: PhiInputs::from_vec(vec![(then_bb, a1), (else_bb, a0)]) },
            Inst::PhiI64 { dst: y, incoming: PhiInputs::from_vec(vec![(then_bb, a0), (else_bb, a1)]) },
            Inst::AddI64 { dst: sum, a: x, b: y },
        ],
        term: Terminator::Ret { value: sum },
    };

    let f = Function { name: "phi_cycle_swap".into(), args: 2, entry, blocks: vec![b0, b1, b2, b3] };

    let regs = PhysRegSet::default_gp_with_scratch();
    let li = compute_live_intervals(&f).unwrap();
    let asg = LinearScan.allocate(&li, &regs, 2).unwrap();
    let code = emit_function_i64(&f, &asg, &regs).unwrap();
    assert!(!code.bytes.is_empty());
}

fn identity_function() -> Function {
    Function {
        name: "id".into(),
        args: 1,
        entry: BlockId(0),
        blocks: vec![Block {
            id: BlockId(0),
            insts: vec![Inst::ArgI64 { dst: VReg(0), idx: ArgId(0) }],
            term: Terminator::Ret { value: VReg(0) },
        }],
    }
}

#[test]
fn lowering_of_an_identity_function() {
    let f = identity_function();
    let regs = PhysRegSet::default_gp_with_scratch();
    let asg = Assignment { map: IndexMap::from([(VReg(0), Location::Reg(PhysReg::Rax))]), stack_slots: 0, spills: 0 };
    let ops = lower_function_i64(&f, &asg, &regs).unwrap();
    assert_eq!(
        ops,
        vec![
            AsmOp::PushRbp,
            AsmOp::MovRbpRsp,
            AsmOp::SubRsp(16),
            AsmOp::Store { slot: 0, src: PhysReg::Rdi },
            AsmOp::Jmp(AsmLabel::Block(BlockId(0))),
            AsmOp::Label(AsmLabel::Block(BlockId(0))),
            AsmOp::Load { dst: PhysReg::R10, slot: 0 },
            AsmOp::MovRR { dst: PhysReg::Rax, src: PhysReg::R10 },
            AsmOp::AddRsp(16),
            AsmOp::PopRbp,
            AsmOp::Ret,
        ]
    );
    let code = emit_function_i64(&f, &asg, &regs).unwrap();
    assert_eq!(code.metrics.loads, 1);
    assert_eq!(code.metrics.stores, 1);
    assert_eq!(code.metrics.code_size, code.bytes.len());
    let text = disasm(&code.bytes, 0);
    assert!(text.starts_with("0000000000000000  push rbp\n"));
}

#[test]
fn spilled_values_live_after_the_argument_area() {
    let f = identity_function();
    let regs = PhysRegSet::default_gp_with_scratch();
    let asg = Assignment {
        map: IndexMap::from([(VReg(0), Location::Stack(StackSlot { index: 0 }))]),
        stack_slots: 1,
        spills: 1,
    };
    let ops = lower_function_i64(&f, &asg, &regs).unwrap();
    assert_eq!(ops[2], AsmOp::SubRsp(16));
    assert_eq!(ops[6], AsmOp::Load { dst: PhysReg::R10, slot: 0 });
    assert_eq!(ops[7], AsmOp::Store { slot: 1, src: PhysReg::R10 });
    assert_eq!(ops[8], AsmOp::Load { dst: PhysReg::Rax, slot: 1 });
}

#[test]
fn emission_errors_come_in_check_order() {
    let regs = PhysRegSet::default_gp_with_scratch();
    let empty = Function { name: "e".into(), args: 0, entry: BlockId(0), blocks: vec![] };
    let none = Assignment { map: IndexMap::new(), stack_slots: 0, spills: 0 };
    assert_eq!(
        emit_function_i64(&empty, &none, &regs).err(),
        Some(CodegenError::Validation(ValidationError::EmptyFunction))
    );
    let mut seven = identity_function();
    seven.args = 7;
    assert_eq!(emit_function_i64(&seven, &none, &regs).err(), Some(CodegenError::TooManyArguments(7)));
    let huge = Assignment {
        map: IndexMap::from([(VReg(0), Location::Stack(StackSlot { index: 0x7fff_ffff }))]),
        stack_slots: 0x8000_0000,
        spills: 1,
    };
    assert_eq!(emit_function_i64(&identity_function(), &huge, &regs).err(), Some(CodegenError::FrameTooLarge));
    let bad_regs = PhysRegSet { regs: vec![PhysReg::Rax], scratch: vec![PhysReg::R10] };
    assert!(matches!(emit_function_i64(&identity_function(), &none, &bad_regs), Err(CodegenError::Registers(_))));
    assert!(matches!(emit_function_i64(&identity_function(), &none, &regs), Err(CodegenError::Assignment(_))));
}

#[test]
fn parallel_swap_breaks_the_cycle_through_the_first_scratch() {
    let moves = vec![(MoveLoc::Reg(PhysReg::Rax), MoveLoc::Reg(PhysReg::Rcx)), (MoveLoc::Reg(PhysReg::Rcx), MoveLoc::Reg(PhysReg::Rax))];
    let ops = emit_parallel_moves(&moves, PhysReg::R10, PhysReg::R11);
    assert_eq!(
        ops,
        vec![
            AsmOp::MovRR { dst: PhysReg::R10, src: PhysReg::Rax },
            AsmOp::MovRR { dst: PhysReg::Rax, src: PhysReg::Rcx },
            AsmOp::MovRR { dst: PhysReg::Rcx, src: PhysReg::R10 },
        ]
    );
}

#[test]
fn parallel_moves_order_a_chain_and_drop_self_moves() {
    // rax <- rcx, rcx <- [1], rdx <- rdx: rax must be written before rcx, and rdx stays put
    let moves = vec![
        (MoveLoc::Reg(PhysReg::Rax), MoveLoc::Reg(PhysReg::Rcx)),
        (MoveLoc::Reg(PhysReg::Rcx), MoveLoc::Frame(1)),
        (MoveLoc::Reg(PhysReg::Rdx), MoveLoc::Reg(PhysReg::Rdx)),
    ];
    let ops = emit_parallel_moves(&moves, PhysReg::R10, PhysReg::R11);
    assert_eq!(
        ops,
        vec![
            AsmOp::MovRR { dst: PhysReg::Rax, src: PhysReg::Rcx },
            AsmOp::Load { dst: PhysReg::R11, slot: 1 },
            AsmOp::MovRR { dst: PhysReg::Rcx, src: PhysReg::R11 },
        ]
    );
}

fn run_moves(ops: &[AsmOp], regs: &mut Vec<(PhysReg, i64)>, frame: &mut Vec<(u32, i64)>) {
    fn get<K: PartialEq + Copy>(m: &Vec<(K, i64)>, k: K) -> i64 {
        m.iter().find(|e| e.0 == k).map(|e| e.1).unwrap_or(0)
    }
    fn set<K: PartialEq + Copy>(m: &mut Vec<(K, i64)>, k: K, v: i64) {
        m.retain(|e| e.0 != k);
        m.push((k, v));
    }
    for op in ops {
        match *op {
            AsmOp::MovRR { dst, src } => {
                let v = get(regs, src);
                set(regs, dst, v);
            }
            AsmOp::Load { dst, slot } => {
                let v = get(frame, slot);
                set(regs, dst, v);
            }
            AsmOp::Store { slot, src } => {
                let v = get(regs, src);
                set(frame, slot, v);
            }
            _ => panic!("unexpected op in a move sequence"),
        }
    }
}

#[test]
fn parallel_moves_through_a_frame_slot_cycle_copy_every_source_at_once() {
    // rax <- rcx, rcx <- [0], [0] <- rax: a cycle through a stack slot
    let moves = vec![
        (MoveLoc::Reg(PhysReg::Rax), MoveLoc::Reg(PhysReg::Rcx)),
        (MoveLoc::Reg(PhysReg::Rcx), MoveLoc::Frame(0)),
        (MoveLoc::Frame(0), MoveLoc::Reg(PhysReg::Rax)),
    ];
    let ops = emit_parallel_moves(&moves, PhysReg::R10, PhysReg::R11);
    assert_eq!(
        ops,
        vec![
            AsmOp::MovRR { dst: PhysReg::R10, src: PhysReg::Rax },
            AsmOp::MovRR { dst: PhysReg::Rax, src: PhysReg::Rcx },
            AsmOp::Load { dst: PhysReg::R11, slot: 0 },
            AsmOp::MovRR { dst: PhysReg::Rcx, src: PhysReg::R11 },
            AsmOp::Store { slot: 0, src: PhysReg::R10 },
        ]
    );
    let mut regs = vec![(PhysReg::Rax, 1), (PhysReg::Rcx, 2), (PhysReg::Rdx, 4)];
    let mut frame = vec![(0u32, 3), (1u32, 5)];
    run_moves(&ops, &mut regs, &mut frame);
    let reg = |r: PhysReg| regs.iter().find(|e| e.0 == r).map(|e| e.1).unwrap();
    let slot = |k: u32| frame.iter().find(|e| e.0 == k).map(|e| e.1).unwrap();
    assert_eq!(reg(PhysReg::Rax), 2);
    assert_eq!(reg(PhysReg::Rcx), 3);
    assert_eq!(slot(0), 1);
    assert_eq!(reg(PhysReg::Rdx), 4);
    assert_eq!(slot(1), 5);
}

#[test]
fn listing_addresses_are_sixteen_hex_digits() {
    assert_eq!(hex_address(0), "0000000000000000");
    assert_eq!(hex_address(0x1234_abcd), "000000001234ABCD");
    assert_eq!(hex_address(u64::MAX), "FFFFFFFFFFFFFFFF");
}

#[test]
fn encode_ops_fails_exactly_on_misplaced_labels_and_far_slots() {
    let a = AsmLabel::Block(BlockId(0));
    let b = AsmLabel::ThenStub(1);
    assert_eq!(encode_ops(&vec![AsmOp::PushRbp, AsmOp::Ret]), Ok(vec![0x55, 0xC3]));
    assert_eq!(encode_ops(&vec![AsmOp::Jmp(a), AsmOp::Label(a), AsmOp::Ret]), Ok(vec![0xEB, 0x00, 0xC3]));
    assert!(encode_ops(&vec![AsmOp::Label(a), AsmOp::Label(b), AsmOp::Ret]).is_err());
    assert!(encode_ops(&vec![AsmOp::Ret, AsmOp::Label(a)]).is_err());
    assert!(encode_ops(&vec![AsmOp::Label(a), AsmOp::Ret, AsmOp::Label(a), AsmOp::Ret]).is_err());
    assert!(encode_ops(&vec![AsmOp::Load { dst: PhysReg::Rax, slot: u32::MAX }, AsmOp::Ret]).is_err());
    assert!(encode_ops(&vec![AsmOp::Load { dst: PhysReg::Rax, slot: 0 }, AsmOp::Ret]).is_ok());
}

#[test]
fn disasm_lists_one_line_per_instruction_with_its_address() {
    assert_eq!(disasm(&[0x90, 0xC3], 0x10), "0000000000000010  nop\n0000000000000011  ret\n");
    assert_eq!(disasm(&[], 0), "");
}

fn run_straight_line(ops: &[AsmOp], args: &[i64]) -> i64 {
    let arg_regs = [PhysReg::Rdi, PhysReg::Rsi, PhysReg::Rdx, PhysReg::Rcx, PhysReg::R8, PhysReg::R9];
    let mut regs: Vec<(PhysReg, i64)> = vec![(PhysReg::Rax, -99), (PhysReg::R10, -98), (PhysReg::R11, -97)];
    for (i, a) in args.iter().enumerate() {
        regs.push((arg_regs[i], *a));
    }
    let mut frame: Vec<(u32, i64)> = Vec::new();
    fn get<K: PartialEq + Copy>(m: &Vec<(K, i64)>, k: K) -> i64 {
        m.iter().rev().find(|e| e.0 == k).map(|e| e.1).unwrap_or(-1)
    }
    for op in ops {
        match *op {
            AsmOp::MovRR { dst, src } => {
                let v = get(&regs, src);
                regs.push((dst, v));
            }
            AsmOp::MovRI { dst, imm } => regs.push((dst, imm)),
            AsmOp::Load { dst, slot } => {
                let v = get(&frame, slot);
                regs.push((dst, v));
            }
            AsmOp::Store { slot, src } => {
                let v = get(&regs, src);
                frame.push((slot, v));
            }
            AsmOp::Add { dst, src } => {
                let v = get(&regs, dst).wrapping_add(get(&regs, src));
                regs.push((dst, v));
            }
            AsmOp::Imul { dst, src } => {
                let v = get(&regs, dst).wrapping_mul(get(&regs, src));
                regs.push((dst, v));
            }
            AsmOp::Jg(_) | AsmOp::Jnz(_) | AsmOp::Cmp { .. } | AsmOp::Test { .. } => panic!("not straight-line"),
            _ => {}
        }
    }
    get(&regs, PhysReg::Rax)
}

#[test]
fn single_block_program_leaves_the_interpreted_result_in_rax() {
    let f = backend_lab::parser::parse(
        "func poly args=2\nblock b0:\n  v0 = arg 0\n  v1 = arg 1\n  v2 = const 3\n  v3 = add v0 v2\n  v4 = mul v3 v1\n  v5 = add v4 v4\n  v6 = mov v5\n  ret v6\n",
    )
    .unwrap();
    let regs = PhysRegSet::default_gp_with_scratch();
    let li = compute_live_intervals(&f).unwrap();
    for max_regs in [0usize, 1, 2, 5] {
        let asg = LinearScan.allocate(&li, &regs, max_regs).unwrap();
        let ops = lower_function_i64(&f, &asg, &regs).unwrap();
        for args in [[2i64, 5], [-7, 11], [i64::MAX, 3], [0, 0]] {
            let expected = Interpreter.eval_i64(&f, &args).unwrap();
            assert_eq!(run_straight_line(&ops, &args), expected, "max_regs={max_regs}, args={args:?}");
        }
    }
}

fn run_lowered(ops: &[AsmOp], args: &[i64]) -> i64 {
    let arg_regs = [PhysReg::Rdi, PhysReg::Rsi, PhysReg::Rdx, PhysReg::Rcx, PhysReg::R8, PhysReg::R9];
    let mut regs: Vec<(PhysReg, i64)> = vec![(PhysReg::Rax, -99), (PhysReg::R10, -98), (PhysReg::R11, -97)];
    for (i, a) in args.iter().enumerate() {
        regs.push((arg_regs[i], *a));
    }
    let mut frame: Vec<(u32, i64)> = Vec::new();
    fn get<K: PartialEq + Copy>(m: &Vec<(K, i64)>, k: K) -> i64 {
        m.iter().rev().find(|e| e.0 == k).map(|e| e.1).unwrap_or(-1)
    }
    let target = |l: AsmLabel| ops.iter().position(|op| *op == AsmOp::Label(l)).expect("label");
    let (mut gt, mut nz) = (false, false);
    let mut pc = 0usize;
    for _ in 0..100_000 {
        match ops[pc] {
            AsmOp::Ret => return get(&regs, PhysReg::Rax),
            AsmOp::Cmp { a, b } => gt = get(&regs, a) > get(&regs, b),
            AsmOp::Test { a } => nz = get(&regs, a) != 0,
            AsmOp::Jg(l) if gt => { pc = target(l); continue; }
            AsmOp::Jnz(l) if nz => { pc = target(l); continue; }
            AsmOp::Jmp(l) => { pc = target(l); continue; }
            AsmOp::MovRR { dst, src } => { let v = get(&regs, src); regs.push((dst, v)); }
            AsmOp::MovRI { dst, imm } => regs.push((dst, imm)),
            AsmOp::Load { dst, slot } => { let v = get(&frame, slot); regs.push((dst, v)); }
            AsmOp::Store { slot, src } => { let v = get(&regs, src); frame.push((slot, v)); }
            AsmOp::Add { dst, src } => { let v = get(&regs, dst).wrapping_add(get(&regs, src)); regs.push((dst, v)); }
            AsmOp::Imul { dst, src } => { let v = get(&regs, dst).wrapping_mul(get(&regs, src)); regs.push((dst, v)); }
            _ => {}
        }
        pc += 1;
    }
    panic!("did not return");
}

fn phi_cycle_swap() -> Function {
    let (entry, then_bb, else_bb, join) = (BlockId(0), BlockId(1), BlockId(2), BlockId(3));
    Function {
        name: "phi_cycle_swap".into(),
        args: 2,
        entry,
        blocks: vec![
            Block {
                id: entry,
                insts: vec![
                    Inst::ArgI64 { dst: VReg(0), idx: ArgId(0) },
                    Inst::ArgI64 { dst: VReg(1), idx: ArgId(1) },
                    Inst::CmpGtI64 { dst: VReg(2), a: VReg(0), b: VReg(1) },
                ],
                term: Terminator::Br { cond: VReg(2), then_bb, else_bb },
            },
            Block { id: then_bb, insts: vec![], term: Terminator::Jmp { target: join } },
            Block { id: else_bb, insts: vec![], term: Terminator::Jmp { target: join } },
            Block {
                id: join,
                insts: vec![
                    Inst::PhiI64 { dst: VReg(3), incoming: PhiInputs::from_vec(vec![(then_bb, VReg(1)), (else_bb, VReg(0))]) },
                    Inst::PhiI64 { dst: VReg(4), incoming: PhiInputs::from_vec(vec![(then_bb, VReg(0)), (else_bb, VReg(1))]) },
                    Inst::AddI64 { dst: VReg(5), a: VReg(3), b: VReg(4) },
                ],
                term: Terminator::Ret { value: VReg(5) },
            },
        ],
    }
}

#[test]
fn lowered_programs_compute_the_interpreted_results() {
    let regs = PhysRegSet::default_gp_with_scratch();
    let swap = phi_cycle_swap();
    let by_hand = Assignment {
        map: IndexMap::from([
            (VReg(0), Location::Reg(PhysReg::Rcx)),
            (VReg(1), Location::Stack(StackSlot { index: 0 })),
            (VReg(2), Location::Reg(PhysReg::Rax)),
            (VReg(3), Location::Reg(PhysReg::Rcx)),
            (VReg(4), Location::Reg(PhysReg::Rax)),
            (VReg(5), Location::Stack(StackSlot { index: 1 })),
        ]),
        stack_slots: 2,
        spills: 2,
    };
    let ops = lower_function_i64(&swap, &by_hand, &regs).unwrap();
    assert_eq!(run_lowered(&ops, &[10, 7]), 17);
    assert_eq!(run_lowered(&ops, &[7, 10]), 17);
    let mut functions = vec![swap];
    for f in [examples::basicblock(), examples::trace(), examples::loop_sum(), examples::phi_swap_loop()] {
        functions.push(f.unwrap());
    }
    for f in functions {
        let li = compute_live_intervals(&f).unwrap();
        for max_regs in [0usize, 1, 2, 5] {
            let asg = LinearScan.allocate(&li, &regs, max_regs).unwrap();
            let ops = lower_function_i64(&f, &asg, &regs).unwrap();
            let inputs: Vec<Vec<i64>> = match f.args {
                0 => vec![vec![]],
                1 => vec![vec![0], vec![5], vec![-3]],
                2 => vec![vec![10, 7], vec![7, 10], vec![0, 0], vec![-4, 9]],
                _ => vec![vec![1, 2, 3], vec![-5, 4, 2], vec![7, 8, 0], vec![9, -1, 5]],
            };
            for args in inputs {
                let expected = Interpreter.eval_i64(&f, &args).unwrap();
                assert_eq!(run_lowered(&ops, &args), expected, "{} max_regs={max_regs} args={args:?}", f.name);
            }
        }
    }
}

fn dead_phi_then_live_phi() -> Function {
    let (entry, join) = (BlockId(0), BlockId(1));
    Function {
        name: "dead_phi_then_live_phi".into(),
        args: 2,
        entry,
        blocks: vec![
            Block {
                id: entry,
                insts: vec![
                    Inst::ArgI64 { dst: VReg(0), idx: ArgId(0) },
                    Inst::ArgI64 { dst: VReg(1), idx: ArgId(1) },
                ],
                term: Terminator::Jmp { target: join },
            },
            Block {
                id: join,
                insts: vec![
                    Inst::PhiI64 { dst: VReg(3), incoming: PhiInputs::from_vec(vec![(entry, VReg(0))]) },
                    Inst::PhiI64 { dst: VReg(4), incoming: PhiInputs::from_vec(vec![(entry, VReg(1))]) },
                ],
                term: Terminator::Ret { value: VReg(4) },
            },
        ],
    }
}

#[test]
fn phis_sharing_a_place_leave_the_later_phi_value() {
    let f = dead_phi_then_live_phi();
    let regs = PhysRegSet::default_gp_with_scratch();
    let li = compute_live_intervals(&f).unwrap();
    let reg = |r: PhysReg| Location::Reg(r);
    // The unused phi and the returned phi share RCX.
    let shared = Assignment {
        map: IndexMap::from([
            (VReg(0), reg(PhysReg::Rdx)),
            (VReg(1), reg(PhysReg::R8)),
            (VReg(3), reg(PhysReg::Rcx)),
            (VReg(4), reg(PhysReg::Rcx)),
        ]),
        stack_slots: 0,
        spills: 0,
    };
    // The unused phi, the returned phi and its source share RAX; the other source is in RCX.
    let source_in_place = Assignment {
        map: IndexMap::from([
            (VReg(0), reg(PhysReg::Rcx)),
            (VReg(1), reg(PhysReg::Rax)),
            (VReg(3), reg(PhysReg::Rax)),
            (VReg(4), reg(PhysReg::Rax)),
        ]),
        stack_slots: 0,
        spills: 0,
    };
    for asg in [shared, source_in_place] {
        assert_eq!(backend_lab::regalloc::verify_assignment(&li, &regs, regs.regs.len(), &asg), Ok(()));
        assert!(emit_function_i64(&f, &asg, &regs).is_ok());
        let ops = lower_function_i64(&f, &asg, &regs).unwrap();
        for args in [[5i64, 9], [-3, 12], [0, 0]] {
            let expected = Interpreter.eval_i64(&f, &args).unwrap();
            assert_eq!(expected, args[1]);
            assert_eq!(run_lowered(&ops, &args), expected, "{asg:?} args={args:?}");
        }
    }
}
