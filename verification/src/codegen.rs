//! Lowering an allocated function to x86-64: a frame with the argument shadow
//! area below the saved frame pointer and the spill slots after it, one label
//! per block, phi inputs moved on each edge, and the instructions handed to the
//! iced-x86 assembler.
use vstd::prelude::*;
use indexmap::IndexMap;
use crate::ir::{Function, Inst, Terminator, VReg, BlockId, first_block_index, lemma_first_block_index,
    spec_def, spec_uses, spec_term_uses, spec_phi_inputs, is_phi};
use crate::smallvecs::phi_input_items;
use crate::validation::{ValidationError, validation_result, function_valid, validate_function, inst_at,
    lemma_valid_ids_distinct};
use crate::intervals::{IntervalError, lemma_intervals_exact_unique, compute_live_intervals, intervals_exact, interval_error_holds,
    intervals_computable, touched, touches, touch_inst, touch_term, touch_phi, pos_of, LiveInterval};
use crate::regalloc::{PhysReg, PhysRegSet, Location, Assignment, AssignmentError, RegisterSetError,
    verify_assignment, codegen_ready, register_error_holds, assignment_valid, assignment_error_holds,
    earlier_checks_pass, register_checks_before,
    interval_values, slots_needed, highest_slot};
use crate::collections::{location_entries, location_map_get, has_key, value_at, key_index, lemma_key_index};
use crate::moves::{MoveLoc, AsmOp, AsmLabel, read_ops, write_ops, seq_moves, real_moves, read_into,
    write_to, append_ops, emit_parallel_moves, MState, val, run, step, lemma_read, lemma_write,
    lemma_run_append, lemma_run_single, without_dest, drop_moves_to};
use crate::collections::{keys_distinct, lemma_entries_insert};
use crate::interp::inst_effect;
use crate::liveness::{live_fix, live_least};
use crate::assembler::{encode_ops, encoded, listing, ops_encodable};

verus! {

/// Why a function could not be compiled.
#[derive(Debug, Clone, PartialEq, Eq)]
pub enum CodegenError {
    Validation(ValidationError),
    Registers(RegisterSetError),
    /// Only six arguments are passed in registers.
    TooManyArguments(u32),
    Intervals(IntervalError),
    Assignment(AssignmentError),
    /// The argument shadow area and the spill slots do not fit a frame
    /// addressed with 32-bit displacements.
    FrameTooLarge,
    /// The assembler refused the instructions.
    Assembler(String),
}

/// Size and memory traffic of the emitted code.
#[derive(Debug, Clone)]
pub struct CodegenMetrics {
    pub code_size: usize,
    pub loads: u32,
    pub stores: u32,
}

/// Machine code with its metrics.
#[derive(Debug, Clone)]
pub struct EmittedCode {
    pub bytes: Vec<u8>,
    pub metrics: CodegenMetrics,
}

/// What the lowering of one function is parameterised by: the number of
/// arguments (the size of the shadow area), the two scratch registers, and the
/// bytes reserved below the frame pointer.
#[derive(Debug, Clone, Copy, PartialEq, Eq, Structural)]
pub struct LowerContext {
    pub args: u32,
    pub s0: PhysReg,
    pub s1: PhysReg,
    pub frame_bytes: i32,
}

// ---------------------------------------------------------------------------
// The frame.

/// The register that carries argument `i` (System V order).
pub open spec fn arg_register(i: int) -> PhysReg {
    if i == 0 {
        PhysReg::Rdi
    } else if i == 1 {
        PhysReg::Rsi
    } else if i == 2 {
        PhysReg::Rdx
    } else if i == 3 {
        PhysReg::Rcx
    } else if i == 4 {
        PhysReg::R8
    } else {
        PhysReg::R9
    }
}

/// The frame fits 32-bit displacements: the slot count, the slot total and its
/// size in bytes each fit an `i32`.
pub open spec fn frame_fits(args: u32, slots: u32) -> bool {
    &&& slots <= i32::MAX
    &&& args + slots <= i32::MAX
    &&& (args + slots) * 8 <= i32::MAX
}

/// The rounding of the frame size up to 16 bytes overflows an `i32`.
pub open spec fn frame_rounding_overflows(args: u32, slots: u32) -> bool {
    (args + slots) * 8 <= i32::MAX && (args + slots) * 8 + 15 > i32::MAX
}

/// The bytes reserved below the frame pointer: every slot, rounded up to 16.
pub open spec fn frame_size(args: u32, slots: u32) -> i32 {
    if args + slots == 0 {
        0
    } else {
        (((args + slots) * 8 + 15) / 16 * 16) as i32
    }
}

/// The frame keeps the stack 16-byte aligned and holds every slot: its size
/// is a multiple of 16, at least 8 bytes per slot and less than 16 bytes more,
/// and zero exactly when there is no slot.
pub proof fn lemma_frame_aligned(args: u32, slots: u32)
    requires
        frame_fits(args, slots),
        !frame_rounding_overflows(args, slots),
    ensures
        frame_size(args, slots) % 16 == 0,
        8 * (args + slots) <= frame_size(args, slots) < 8 * (args + slots) + 16,
        (frame_size(args, slots) == 0) == (args + slots == 0),
{
    let t = args + slots;
    if t != 0 {
        let b = t * 8;
        assert((b + 15) / 16 * 16 <= i32::MAX);
        assert(((b + 15) / 16 * 16) % 16 == 0 && b <= (b + 15) / 16 * 16 < b + 16) by (nonlinear_arith)
            requires b >= 8;
    }
}

/// The lowering context of `f` with `regs` and `slots` spill slots.
pub open spec fn lowering_context(f: Function, regs: PhysRegSet, slots: u32) -> LowerContext {
    LowerContext { args: f.args, s0: regs.scratch@[0], s1: regs.scratch@[1], frame_bytes: frame_size(f.args, slots) }
}

/// Where a value lives, as a move location: spill slot `s` is frame slot `args + s`.
pub open spec fn frame_loc(args: u32, l: Location) -> MoveLoc {
    match l {
        Location::Reg(r) => MoveLoc::Reg(r),
        Location::Stack(s) => MoveLoc::Frame((args + s.index) as u32),
    }
}

/// The move location of value `v`.
pub open spec fn loc_of(e: Seq<(VReg, Location)>, args: u32, v: VReg) -> MoveLoc {
    frame_loc(args, value_at(e, v))
}

/// The register a result is formed in: its own register, or the first scratch.
pub open spec fn result_reg(e: Seq<(VReg, Location)>, v: VReg, s0: PhysReg) -> PhysReg {
    match value_at(e, v) {
        Location::Reg(r) => r,
        Location::Stack(_) => s0,
    }
}

// ---------------------------------------------------------------------------
// The instructions of the program.

/// An addition or multiplication: the left operand into the result register,
/// the right one read (into the second scratch when spilled), then the result stored.
pub open spec fn arith_ops(e: Seq<(VReg, Location)>, c: LowerContext, dst: VReg, a: VReg, b: VReg, mul: bool) -> Seq<AsmOp> {
    let d = result_reg(e, dst, c.s0);
    let ra = read_ops(loc_of(e, c.args, a), d);
    let mv = if ra.1 != d { seq![AsmOp::MovRR { dst: d, src: ra.1 }] } else { seq![] };
    let rb = read_ops(loc_of(e, c.args, b), c.s1);
    let op = if mul { AsmOp::Imul { dst: d, src: rb.1 } } else { AsmOp::Add { dst: d, src: rb.1 } };
    ra.0 + mv + rb.0 + seq![op] + write_ops(loc_of(e, c.args, dst), d)
}

/// A constant, formed in the result register.
pub open spec fn const_ops(e: Seq<(VReg, Location)>, c: LowerContext, dst: VReg, imm: i64) -> Seq<AsmOp> {
    let d = result_reg(e, dst, c.s0);
    seq![AsmOp::MovRI { dst: d, imm }] + write_ops(loc_of(e, c.args, dst), d)
}

/// A copy, read through the first scratch when spilled.
pub open spec fn mov_ops(e: Seq<(VReg, Location)>, c: LowerContext, dst: VReg, src: VReg) -> Seq<AsmOp> {
    let rs = read_ops(loc_of(e, c.args, src), c.s0);
    rs.0 + write_ops(loc_of(e, c.args, dst), rs.1)
}

/// A comparison: 1 or 0 formed in the first scratch through two local labels.
pub open spec fn compare_ops(e: Seq<(VReg, Location)>, c: LowerContext, bi: int, x: int, dst: VReg, a: VReg, b: VReg) -> Seq<AsmOp> {
    let ra = read_ops(loc_of(e, c.args, a), c.s0);
    let rb = read_ops(loc_of(e, c.args, b), c.s1);
    let t = AsmLabel::CmpTrue(bi as u32, x as u32);
    let done = AsmLabel::CmpDone(bi as u32, x as u32);
    ra.0 + rb.0 + seq![
        AsmOp::Cmp { a: ra.1, b: rb.1 },
        AsmOp::Jg(t),
        AsmOp::MovRI { dst: c.s0, imm: 0 },
        AsmOp::Jmp(done),
        AsmOp::Label(t),
        AsmOp::MovRI { dst: c.s0, imm: 1 },
        AsmOp::Label(done),
    ] + write_ops(loc_of(e, c.args, dst), c.s0)
}

/// An argument, loaded from its shadow slot.
pub open spec fn arg_ops(e: Seq<(VReg, Location)>, c: LowerContext, dst: VReg, idx: u32) -> Seq<AsmOp> {
    seq![AsmOp::Load { dst: c.s0, slot: idx }] + write_ops(loc_of(e, c.args, dst), c.s0)
}

/// The instructions for instruction `x` of the block at position `bi` (a phi
/// has none: its value arrives on the edges).
pub open spec fn inst_ops(e: Seq<(VReg, Location)>, c: LowerContext, bi: int, x: int, inst: Inst) -> Seq<AsmOp> {
    match inst {
        Inst::ConstI64 { dst, imm } => const_ops(e, c, dst, imm),
        Inst::AddI64 { dst, a, b } => arith_ops(e, c, dst, a, b, false),
        Inst::MulI64 { dst, a, b } => arith_ops(e, c, dst, a, b, true),
        Inst::MovI64 { dst, src } => mov_ops(e, c, dst, src),
        Inst::CmpGtI64 { dst, a, b } => compare_ops(e, c, bi, x, dst, a, b),
        Inst::PhiI64 { .. } => seq![],
        Inst::ArgI64 { dst, idx } => arg_ops(e, c, dst, idx.0),
    }
}

/// The value a phi takes from predecessor `pred`: its first input from that block.
pub open spec fn phi_source(inputs: Seq<(BlockId, VReg)>, pred: BlockId) -> Option<VReg> {
    if has_key(inputs, pred) { Some(value_at(inputs, pred)) } else { None }
}

/// The moves for the phis among the first `n` instructions of block `s` on the
/// edge from `pred`: a phi's move replaces the moves of earlier phis to the same
/// place (the later phi wins), and a phi whose source is already in place only
/// clears those.
pub open spec fn phi_moves(f: Function, e: Seq<(VReg, Location)>, args: u32, pred: BlockId, s: int, n: int) -> Seq<(MoveLoc, MoveLoc)>
    decreases n,
{
    if n <= 0 {
        seq![]
    } else {
        let rest = phi_moves(f, e, args, pred, s, n - 1);
        match inst_at(f, s, n - 1) {
            Inst::PhiI64 { dst, incoming } => match phi_source(phi_input_items(incoming), pred) {
                Some(v) => {
                    let d = loc_of(e, args, dst);
                    let src = loc_of(e, args, v);
                    let kept = without_dest(rest, d);
                    if d != src { kept.push((d, src)) } else { kept }
                },
                None => rest,
            },
            _ => rest,
        }
    }
}

/// The phi moves on the edge from `pred` to `succ`.
pub open spec fn edge_moves(f: Function, e: Seq<(VReg, Location)>, args: u32, pred: BlockId, succ: BlockId) -> Seq<(MoveLoc, MoveLoc)> {
    let s = first_block_index(f.blocks@, succ);
    if s < 0 {
        seq![]
    } else {
        phi_moves(f, e, args, pred, s, f.blocks@[s].insts@.len() as int)
    }
}

/// The instructions for the edge from `pred` to `succ`: its phi moves made as if at once.
pub open spec fn edge_ops(f: Function, e: Seq<(VReg, Location)>, c: LowerContext, pred: BlockId, succ: BlockId) -> Seq<AsmOp> {
    seq_moves(real_moves(edge_moves(f, e, c.args, pred, succ)), c.s0, c.s1)
}

/// A return: the value into RAX, the frame released, RBP restored.
pub open spec fn ret_ops(e: Seq<(VReg, Location)>, c: LowerContext, value: VReg) -> Seq<AsmOp> {
    let rv = read_ops(loc_of(e, c.args, value), PhysReg::Rax);
    rv.0 + (if rv.1 != PhysReg::Rax { seq![AsmOp::MovRR { dst: PhysReg::Rax, src: rv.1 }] } else { seq![] })
        + (if c.frame_bytes > 0 { seq![AsmOp::AddRsp(c.frame_bytes)] } else { seq![] })
        + seq![AsmOp::PopRbp, AsmOp::Ret]
}

/// A branch from the block at position `bi`: a test, then one stub per edge
/// with that edge's moves and the jump to its target.
pub open spec fn branch_ops(f: Function, e: Seq<(VReg, Location)>, c: LowerContext, bi: int, cond: VReg, then_bb: BlockId, else_bb: BlockId) -> Seq<AsmOp> {
    let id = f.blocks@[bi].id;
    let rc = read_ops(loc_of(e, c.args, cond), c.s0);
    let ts = AsmLabel::ThenStub(bi as u32);
    let es = AsmLabel::ElseStub(bi as u32);
    rc.0 + seq![AsmOp::Test { a: rc.1 }, AsmOp::Jnz(ts), AsmOp::Jmp(es), AsmOp::Label(ts)]
        + edge_ops(f, e, c, id, then_bb)
        + seq![AsmOp::Jmp(AsmLabel::Block(then_bb)), AsmOp::Label(es)]
        + edge_ops(f, e, c, id, else_bb)
        + seq![AsmOp::Jmp(AsmLabel::Block(else_bb))]
}

/// The instructions for the terminator of the block at position `bi`.
pub open spec fn term_ops(f: Function, e: Seq<(VReg, Location)>, c: LowerContext, bi: int) -> Seq<AsmOp> {
    let blk = f.blocks@[bi];
    match blk.term {
        Terminator::Ret { value } => ret_ops(e, c, value),
        Terminator::Jmp { target } =>
            edge_ops(f, e, c, blk.id, target) + seq![AsmOp::Jmp(AsmLabel::Block(target))],
        Terminator::Br { cond, then_bb, else_bb } => branch_ops(f, e, c, bi, cond, then_bb, else_bb),
    }
}

/// The instructions for the first `n` instructions of the block at position `bi`.
pub open spec fn insts_ops(f: Function, e: Seq<(VReg, Location)>, c: LowerContext, bi: int, n: int) -> Seq<AsmOp>
    decreases n,
{
    if n <= 0 {
        seq![]
    } else {
        insts_ops(f, e, c, bi, n - 1) + inst_ops(e, c, bi, n - 1, inst_at(f, bi, n - 1))
    }
}

/// The block's label, its instructions, then its terminator.
pub open spec fn block_ops(f: Function, e: Seq<(VReg, Location)>, c: LowerContext, bi: int) -> Seq<AsmOp> {
    seq![AsmOp::Label(AsmLabel::Block(f.blocks@[bi].id))]
        + insts_ops(f, e, c, bi, f.blocks@[bi].insts@.len() as int)
        + term_ops(f, e, c, bi)
}

/// The first `n` blocks, in order.
pub open spec fn blocks_ops(f: Function, e: Seq<(VReg, Location)>, c: LowerContext, n: int) -> Seq<AsmOp>
    decreases n,
{
    if n <= 0 {
        seq![]
    } else {
        blocks_ops(f, e, c, n - 1) + block_ops(f, e, c, n - 1)
    }
}

/// Stores of the first `n` argument registers to their shadow slots.
pub open spec fn arg_stores(n: int) -> Seq<AsmOp>
    decreases n,
{
    if n <= 0 {
        seq![]
    } else {
        arg_stores(n - 1).push(AsmOp::Store { slot: (n - 1) as u32, src: arg_register(n - 1) })
    }
}

/// Saving the caller's frame pointer, reserving the frame, and storing the arguments.
pub open spec fn prologue(c: LowerContext) -> Seq<AsmOp> {
    seq![AsmOp::PushRbp, AsmOp::MovRbpRsp]
        + (if c.frame_bytes > 0 { seq![AsmOp::SubRsp(c.frame_bytes)] } else { seq![] })
        + arg_stores(c.args as int)
}

/// The whole program: the prologue, a jump to the entry block, then every block in order.
pub open spec fn program(f: Function, e: Seq<(VReg, Location)>, c: LowerContext) -> Seq<AsmOp> {
    prologue(c) + seq![AsmOp::Jmp(AsmLabel::Block(f.entry))] + blocks_ops(f, e, c, f.blocks@.len() as int)
}

/// Every checked condition before the frame: the function is valid, the
/// register set usable, at most six arguments, and live intervals computable.
pub open spec fn lowering_inputs_ok(f: Function, regs: PhysRegSet) -> bool {
    &&& function_valid(f)
    &&& codegen_ready(regs)
    &&& f.args <= 6
    &&& intervals_computable(f)
}

/// Some exact live intervals of `f` accept the assignment.
pub open spec fn assignment_accepted(f: Function, regs: PhysRegSet, a: Assignment) -> bool {
    exists|ivs: Seq<LiveInterval>| intervals_exact(f, ivs) && assignment_valid(ivs, regs, regs.regs@.len() as usize, a)
}

/// What lowering gives: the first failed check in order (validation, register
/// set, argument count, live intervals, assignment, frame size), else the program.
pub open spec fn lowering_result(f: Function, regs: PhysRegSet, a: Assignment, r: Result<Seq<AsmOp>, CodegenError>) -> bool {
    if validation_result(f) is Err {
        r == Err::<Seq<AsmOp>, CodegenError>(CodegenError::Validation(validation_result(f)->Err_0))
    } else if !codegen_ready(regs) {
        r matches Err(CodegenError::Registers(err)) && register_error_holds(regs, err) && register_checks_before(regs, err)
    } else if f.args > 6 {
        r == Err::<Seq<AsmOp>, CodegenError>(CodegenError::TooManyArguments(f.args))
    } else if !intervals_computable(f) {
        r matches Err(CodegenError::Intervals(err)) && interval_error_holds(f, err)
    } else {
        match r {
            Err(CodegenError::Assignment(err)) => exists|ivs: Seq<LiveInterval>| intervals_exact(f, ivs)
                && !assignment_valid(ivs, regs, regs.regs@.len() as usize, a)
                && assignment_error_holds(ivs, regs, regs.regs@.len() as usize, a, err)
                && earlier_checks_pass(ivs, regs, regs.regs@.len() as usize, a, err),
            Err(CodegenError::FrameTooLarge) => assignment_accepted(f, regs, a) && !frame_fits(f.args, a.stack_slots),
            Ok(ops) => assignment_accepted(f, regs, a) && frame_fits(f.args, a.stack_slots)
                && live_least(f, live_fix(f).0, live_fix(f).1)
                && ops == program(f, location_entries(a.map), lowering_context(f, regs, a.stack_slots)),
            _ => false,
        }
    }
}

// ---------------------------------------------------------------------------
// Every value the function mentions has a location.

/// Every touched value of `f` has an entry.
pub open spec fn located(f: Function, e: Seq<(VReg, Location)>) -> bool {
    forall|v: VReg| #[trigger] touched(f, v) ==> has_key(e, v)
}

/// Spill slots, counted after the arguments, stay within a `u32`.
pub open spec fn slots_bounded(e: Seq<(VReg, Location)>, args: u32) -> bool {
    forall|i: int| 0 <= i < e.len() && (#[trigger] e[i]).1 is Stack ==> args + e[i].1->Stack_0.index <= u32::MAX
}

proof fn lemma_def_touched(f: Function, bi: int, x: int)
    requires
        0 <= bi < f.blocks@.len(),
        0 <= x < f.blocks@[bi].insts@.len(),
    ensures
        touched(f, spec_def(inst_at(f, bi, x))),
{
    let p = pos_of(f, bi, x);
    assert(touch_inst(f, spec_def(inst_at(f, bi, x)), p));
    assert(touches(f, spec_def(inst_at(f, bi, x)), p));
}

proof fn lemma_use_touched(f: Function, bi: int, x: int, v: VReg)
    requires
        0 <= bi < f.blocks@.len(),
        0 <= x < f.blocks@[bi].insts@.len(),
        !is_phi(inst_at(f, bi, x)),
        spec_uses(inst_at(f, bi, x)).contains(v),
    ensures
        touched(f, v),
{
    let p = pos_of(f, bi, x);
    assert(spec_def(inst_at(f, bi, x)) == spec_def(inst_at(f, bi, x)));
    assert(touch_inst(f, v, p));
    assert(touches(f, v, p));
}

proof fn lemma_term_use_touched(f: Function, bi: int, v: VReg)
    requires
        0 <= bi < f.blocks@.len(),
        spec_term_uses(f.blocks@[bi].term).contains(v),
    ensures
        touched(f, v),
{
    let p = pos_of(f, bi, f.blocks@[bi].insts@.len() as int);
    assert(touch_term(f, v, p));
    assert(touches(f, v, p));
}

proof fn lemma_phi_input_touched(f: Function, s: int, x: int, y: int)
    requires
        0 <= s < f.blocks@.len(),
        0 <= x < f.blocks@[s].insts@.len(),
        0 <= y < spec_phi_inputs(inst_at(f, s, x)).len(),
    ensures
        touched(f, spec_phi_inputs(inst_at(f, s, x))[y].1),
{
    let v = spec_phi_inputs(inst_at(f, s, x))[y].1;
    let p = crate::intervals::phi_pred_pos(f, spec_phi_inputs(inst_at(f, s, x))[y].0);
    assert(touch_phi(f, v, p));
    assert(touches(f, v, p));
}

/// A stack entry's slot is at most the highest slot.
proof fn lemma_slot_at_most_highest(e: Seq<(VReg, Location)>, i: int)
    requires
        0 <= i < e.len(),
        e[i].1 is Stack,
    ensures
        highest_slot(e) is Some,
        e[i].1->Stack_0.index <= highest_slot(e)->Some_0,
    decreases e.len(),
{
    if i < e.len() - 1 {
        lemma_slot_at_most_highest(e.drop_last(), i);
        assert(e.drop_last()[i] == e[i]);
    }
}

/// Accepted intervals and assignment locate every touched value, and a fitting
/// frame bounds every spill slot.
pub(crate) proof fn lemma_lowering_ready(f: Function, regs: PhysRegSet, a: Assignment, ivs: Seq<LiveInterval>)
    requires
        intervals_exact(f, ivs),
        assignment_valid(ivs, regs, regs.regs@.len() as usize, a),
        frame_fits(f.args, a.stack_slots),
        f.args <= 6,
    ensures
        located(f, location_entries(a.map)),
        slots_bounded(location_entries(a.map), f.args),
{
    let e = location_entries(a.map);
    assert forall|v: VReg| #[trigger] touched(f, v) implies has_key(e, v) by {
        let i = choose|i: int| 0 <= i < ivs.len() && (#[trigger] ivs[i]).v == v;
        assert(ivs.map_values(|iv: LiveInterval| iv.v)[i] == v);
        assert(interval_values(ivs).contains(v));
    }
    assert forall|i: int| 0 <= i < e.len() && (#[trigger] e[i]).1 is Stack implies f.args + e[i].1->Stack_0.index <= u32::MAX by {
        lemma_slot_at_most_highest(e, i);
    }
}

// ---------------------------------------------------------------------------
// Lowering, executed.

/// The location of a value that has one.
fn locate(map: &IndexMap<VReg, Location>, v: VReg) -> (l: Location)
    requires
        has_key(location_entries(*map), v),
    ensures
        l == value_at(location_entries(*map), v),
{
    match location_map_get(map, v) {
        Some(l) => l,
        None => Location::Reg(PhysReg::Rax),
    }
}

/// The move location of a value that has one.
fn move_loc(map: &IndexMap<VReg, Location>, args: u32, v: VReg) -> (l: MoveLoc)
    requires
        has_key(location_entries(*map), v),
        slots_bounded(location_entries(*map), args),
    ensures
        l == loc_of(location_entries(*map), args, v),
{
    let ghost e = location_entries(*map);
    proof { lemma_key_index(e, v); }
    match locate(map, v) {
        Location::Reg(r) => MoveLoc::Reg(r),
        Location::Stack(s) => {
            assert(e[key_index(e, v)].1 is Stack);
            MoveLoc::Frame(args + s.index)
        },
    }
}

/// The register a result is formed in.
fn result_register(map: &IndexMap<VReg, Location>, v: VReg, s0: PhysReg) -> (r: PhysReg)
    requires
        has_key(location_entries(*map), v),
    ensures
        r == result_reg(location_entries(*map), v, s0),
{
    match locate(map, v) {
        Location::Reg(r) => r,
        Location::Stack(_) => s0,
    }
}

/// Appends the instructions of an addition or multiplication.
#[verifier::rlimit(40)]
fn lower_arith(map: &IndexMap<VReg, Location>, c: LowerContext, dst: VReg, a: VReg, b: VReg, mul: bool, ops: &mut Vec<AsmOp>)
    requires
        has_key(location_entries(*map), dst),
        has_key(location_entries(*map), a),
        has_key(location_entries(*map), b),
        slots_bounded(location_entries(*map), c.args),
    ensures
        final(ops)@ == old(ops)@ + arith_ops(location_entries(*map), c, dst, a, b, mul),
{
    let ghost e = location_entries(*map);
    let d = result_register(map, dst, c.s0);
    let (ra, left) = read_into(move_loc(map, c.args, a), d);
    let ghost rav = ra@;
    append_ops(ops, ra);
    let mv: Vec<AsmOp> = if left != d { vec![AsmOp::MovRR { dst: d, src: left }] } else { Vec::new() };
    let ghost mvv = mv@;
    append_ops(ops, mv);
    let (rb, right) = read_into(move_loc(map, c.args, b), c.s1);
    let ghost rbv = rb@;
    append_ops(ops, rb);
    ops.push(if mul { AsmOp::Imul { dst: d, src: right } } else { AsmOp::Add { dst: d, src: right } });
    let ghost opv = ops@;
    let wr = write_to(move_loc(map, c.args, dst), d);
    append_ops(ops, wr);
    proof {
        let op = if mul { AsmOp::Imul { dst: d, src: right } } else { AsmOp::Add { dst: d, src: right } };
        assert(mvv == (if left != d { seq![AsmOp::MovRR { dst: d, src: left }] } else { Seq::<AsmOp>::empty() }));
        assert(arith_ops(e, c, dst, a, b, mul) == rav + mvv + rbv + seq![op] + write_ops(loc_of(e, c.args, dst), d));
        assert(ops@ =~= old(ops)@ + arith_ops(e, c, dst, a, b, mul));
    }
}

/// Appends the instructions of a constant.
fn lower_const(map: &IndexMap<VReg, Location>, c: LowerContext, dst: VReg, imm: i64, ops: &mut Vec<AsmOp>)
    requires
        has_key(location_entries(*map), dst),
        slots_bounded(location_entries(*map), c.args),
    ensures
        final(ops)@ == old(ops)@ + const_ops(location_entries(*map), c, dst, imm),
{
    let d = result_register(map, dst, c.s0);
    ops.push(AsmOp::MovRI { dst: d, imm });
    let wr = write_to(move_loc(map, c.args, dst), d);
    append_ops(ops, wr);
    assert(ops@ =~= old(ops)@ + const_ops(location_entries(*map), c, dst, imm));
}

/// Appends the instructions of a copy.
fn lower_mov(map: &IndexMap<VReg, Location>, c: LowerContext, dst: VReg, src: VReg, ops: &mut Vec<AsmOp>)
    requires
        has_key(location_entries(*map), dst),
        has_key(location_entries(*map), src),
        slots_bounded(location_entries(*map), c.args),
    ensures
        final(ops)@ == old(ops)@ + mov_ops(location_entries(*map), c, dst, src),
{
    let (rs, reg) = read_into(move_loc(map, c.args, src), c.s0);
    let ghost rsv = rs@;
    append_ops(ops, rs);
    let wr = write_to(move_loc(map, c.args, dst), reg);
    append_ops(ops, wr);
    assert(ops@ =~= old(ops)@ + mov_ops(location_entries(*map), c, dst, src));
}

/// Appends the instructions of a comparison.
#[verifier::rlimit(40)]
fn lower_compare(map: &IndexMap<VReg, Location>, c: LowerContext, bi: usize, x: usize, dst: VReg, a: VReg, b: VReg, ops: &mut Vec<AsmOp>)
    requires
        has_key(location_entries(*map), dst),
        has_key(location_entries(*map), a),
        has_key(location_entries(*map), b),
        slots_bounded(location_entries(*map), c.args),
    ensures
        final(ops)@ == old(ops)@ + compare_ops(location_entries(*map), c, bi as int, x as int, dst, a, b),
{
    let (ra, left) = read_into(move_loc(map, c.args, a), c.s0);
    let ghost rav = ra@;
    append_ops(ops, ra);
    let (rb, right) = read_into(move_loc(map, c.args, b), c.s1);
    let ghost rbv = rb@;
    append_ops(ops, rb);
    let t = AsmLabel::CmpTrue(bi as u32, x as u32);
    let done = AsmLabel::CmpDone(bi as u32, x as u32);
    let mid: Vec<AsmOp> = vec![
        AsmOp::Cmp { a: left, b: right },
        AsmOp::Jg(t),
        AsmOp::MovRI { dst: c.s0, imm: 0 },
        AsmOp::Jmp(done),
        AsmOp::Label(t),
        AsmOp::MovRI { dst: c.s0, imm: 1 },
        AsmOp::Label(done),
    ];
    append_ops(ops, mid);
    let wr = write_to(move_loc(map, c.args, dst), c.s0);
    append_ops(ops, wr);
    assert(ops@ =~= old(ops)@ + compare_ops(location_entries(*map), c, bi as int, x as int, dst, a, b));
}

/// Appends the instructions of an argument read.
fn lower_arg(map: &IndexMap<VReg, Location>, c: LowerContext, dst: VReg, idx: u32, ops: &mut Vec<AsmOp>)
    requires
        has_key(location_entries(*map), dst),
        slots_bounded(location_entries(*map), c.args),
    ensures
        final(ops)@ == old(ops)@ + arg_ops(location_entries(*map), c, dst, idx),
{
    ops.push(AsmOp::Load { dst: c.s0, slot: idx });
    let wr = write_to(move_loc(map, c.args, dst), c.s0);
    append_ops(ops, wr);
    assert(ops@ =~= old(ops)@ + arg_ops(location_entries(*map), c, dst, idx));
}

/// Appends the instructions of one instruction.
fn lower_inst(map: &IndexMap<VReg, Location>, c: LowerContext, bi: usize, x: usize, inst: &Inst, ops: &mut Vec<AsmOp>)
    requires
        has_key(location_entries(*map), spec_def(*inst)),
        !is_phi(*inst) ==> forall|v: VReg| spec_uses(*inst).contains(v) ==> has_key(location_entries(*map), v),
        slots_bounded(location_entries(*map), c.args),
    ensures
        final(ops)@ == old(ops)@ + inst_ops(location_entries(*map), c, bi as int, x as int, *inst),
{
    match inst {
        Inst::ConstI64 { dst, imm } => lower_const(map, c, *dst, *imm, ops),
        Inst::AddI64 { dst, a, b } => {
            assert(spec_uses(*inst)[0] == *a && spec_uses(*inst)[1] == *b);
            lower_arith(map, c, *dst, *a, *b, false, ops);
        },
        Inst::MulI64 { dst, a, b } => {
            assert(spec_uses(*inst)[0] == *a && spec_uses(*inst)[1] == *b);
            lower_arith(map, c, *dst, *a, *b, true, ops);
        },
        Inst::MovI64 { dst, src } => {
            assert(spec_uses(*inst)[0] == *src);
            lower_mov(map, c, *dst, *src, ops);
        },
        Inst::CmpGtI64 { dst, a, b } => {
            assert(spec_uses(*inst)[0] == *a && spec_uses(*inst)[1] == *b);
            lower_compare(map, c, bi, x, *dst, *a, *b, ops);
        },
        Inst::PhiI64 { .. } => {
            assert(ops@ =~= old(ops)@ + inst_ops(location_entries(*map), c, bi as int, x as int, *inst));
        },
        Inst::ArgI64 { dst, idx } => lower_arg(map, c, *dst, idx.0, ops),
    }
}

/// The value a phi takes from `pred`.
pub(crate) fn phi_source_of(inputs: &Vec<(BlockId, VReg)>, pred: BlockId) -> (r: Option<VReg>)
    ensures
        r == phi_source(inputs@, pred),
{
    proof { lemma_key_index(inputs@, pred); }
    let mut k: usize = 0;
    while k < inputs.len()
        invariant
            k <= inputs@.len(),
            forall|j: int| 0 <= j < k ==> inputs@[j].0 != pred,
        decreases inputs.len() - k,
    {
        if inputs[k].0 == pred {
            let ghost ki = key_index(inputs@, pred);
            assert(ki == k) by {
                lemma_key_index(inputs@, pred);
                if ki < 0 || k < ki {
                    assert(inputs@[k as int].0 != pred);
                } else if ki < k {
                    assert(inputs@[ki].0 == pred);
                }
            }
            return Some(inputs[k].1);
        }
        k += 1;
    }
    None
}

/// The phi moves on the edge from `pred` to `succ`.
fn edge_moves_of(f: &Function, map: &IndexMap<VReg, Location>, args: u32, pred: BlockId, succ: BlockId) -> (r: Vec<(MoveLoc, MoveLoc)>)
    requires
        located(*f, location_entries(*map)),
        slots_bounded(location_entries(*map), args),
    ensures
        r@ == edge_moves(*f, location_entries(*map), args, pred, succ),
{
    let ghost e = location_entries(*map);
    let mut moves: Vec<(MoveLoc, MoveLoc)> = Vec::new();
    proof { lemma_first_block_index(f.blocks@, succ); }
    match f.find_block(succ) {
        None => moves,
        Some(s) => {
            let blk = &f.blocks[s];
            let mut x: usize = 0;
            while x < blk.insts.len()
                invariant
                    s < f.blocks@.len(),
                    s as int == first_block_index(f.blocks@, succ),
                    *blk == f.blocks@[s as int],
                    x <= blk.insts@.len(),
                    located(*f, e),
                    slots_bounded(e, args),
                    e == location_entries(*map),
                    moves@ == phi_moves(*f, e, args, pred, s as int, x as int),
                decreases blk.insts.len() - x,
            {
                match &blk.insts[x] {
                    Inst::PhiI64 { dst, incoming } => {
                        let ins = incoming.to_vec();
                        match phi_source_of(&ins, pred) {
                            Some(v) => {
                                proof {
                                    lemma_def_touched(*f, s as int, x as int);
                                    lemma_key_index(ins@, pred);
                                    lemma_phi_input_touched(*f, s as int, x as int, key_index(ins@, pred));
                                }
                                let d = move_loc(map, args, *dst);
                                let src = move_loc(map, args, v);
                                drop_moves_to(&mut moves, d);
                                if d != src {
                                    moves.push((d, src));
                                }
                            },
                            None => {},
                        }
                    },
                    _ => {},
                }
                x += 1;
            }
            moves
        },
    }
}

/// Appends a return: the value into RAX, the frame released, RBP restored.
fn lower_ret(map: &IndexMap<VReg, Location>, c: LowerContext, value: VReg, ops: &mut Vec<AsmOp>)
    requires
        has_key(location_entries(*map), value),
        slots_bounded(location_entries(*map), c.args),
    ensures
        final(ops)@ == old(ops)@ + ret_ops(location_entries(*map), c, value),
{
    let (rv, reg) = read_into(move_loc(map, c.args, value), PhysReg::Rax);
    let ghost rvv = rv@;
    append_ops(ops, rv);
    if reg != PhysReg::Rax {
        ops.push(AsmOp::MovRR { dst: PhysReg::Rax, src: reg });
    }
    if c.frame_bytes > 0 {
        ops.push(AsmOp::AddRsp(c.frame_bytes));
    }
    ops.push(AsmOp::PopRbp);
    ops.push(AsmOp::Ret);
    assert(ops@ =~= old(ops)@ + ret_ops(location_entries(*map), c, value));
}

/// Appends the instructions of an edge and the jump to its target.
fn lower_edge(f: &Function, map: &IndexMap<VReg, Location>, c: LowerContext, pred: BlockId, succ: BlockId, ops: &mut Vec<AsmOp>)
    requires
        located(*f, location_entries(*map)),
        slots_bounded(location_entries(*map), c.args),
    ensures
        final(ops)@ == old(ops)@ + edge_ops(*f, location_entries(*map), c, pred, succ) + seq![AsmOp::Jmp(AsmLabel::Block(succ))],
{
    let mv = edge_moves_of(f, map, c.args, pred, succ);
    let eo = emit_parallel_moves(&mv, c.s0, c.s1);
    append_ops(ops, eo);
    ops.push(AsmOp::Jmp(AsmLabel::Block(succ)));
}

/// Appends a branch from the block at position `bi`.
#[verifier::rlimit(40)]
fn lower_branch(f: &Function, map: &IndexMap<VReg, Location>, c: LowerContext, bi: usize, cond: VReg, then_bb: BlockId, else_bb: BlockId, ops: &mut Vec<AsmOp>)
    requires
        bi < f.blocks@.len(),
        has_key(location_entries(*map), cond),
        located(*f, location_entries(*map)),
        slots_bounded(location_entries(*map), c.args),
    ensures
        final(ops)@ == old(ops)@ + branch_ops(*f, location_entries(*map), c, bi as int, cond, then_bb, else_bb),
{
    let ghost e = location_entries(*map);
    let id = f.blocks[bi].id;
    let ghost o0 = ops@;
    let (rc, reg) = read_into(move_loc(map, c.args, cond), c.s0);
    let ghost rcv = rc@;
    append_ops(ops, rc);
    let ts = AsmLabel::ThenStub(bi as u32);
    let es = AsmLabel::ElseStub(bi as u32);
    ops.push(AsmOp::Test { a: reg });
    ops.push(AsmOp::Jnz(ts));
    ops.push(AsmOp::Jmp(es));
    ops.push(AsmOp::Label(ts));
    let ghost o1 = ops@;
    assert(o1 =~= o0 + (rcv + seq![AsmOp::Test { a: reg }, AsmOp::Jnz(ts), AsmOp::Jmp(es), AsmOp::Label(ts)]));
    lower_edge(f, map, c, id, then_bb, ops);
    ops.push(AsmOp::Label(es));
    lower_edge(f, map, c, id, else_bb, ops);
    assert(ops@ =~= o0 + branch_ops(*f, e, c, bi as int, cond, then_bb, else_bb));
}

/// Appends the instructions of the terminator of the block at position `bi`.
fn lower_term(f: &Function, map: &IndexMap<VReg, Location>, c: LowerContext, bi: usize, ops: &mut Vec<AsmOp>)
    requires
        bi < f.blocks@.len(),
        located(*f, location_entries(*map)),
        slots_bounded(location_entries(*map), c.args),
    ensures
        final(ops)@ == old(ops)@ + term_ops(*f, location_entries(*map), c, bi as int),
{
    let blk = &f.blocks[bi];
    match blk.term {
        Terminator::Ret { value } => {
            proof {
                assert(spec_term_uses(blk.term)[0] == value);
                lemma_term_use_touched(*f, bi as int, value);
            }
            lower_ret(map, c, value, ops);
        },
        Terminator::Jmp { target } => {
            lower_edge(f, map, c, blk.id, target, ops);
        },
        Terminator::Br { cond, then_bb, else_bb } => {
            proof {
                assert(spec_term_uses(blk.term)[0] == cond);
                lemma_term_use_touched(*f, bi as int, cond);
            }
            lower_branch(f, map, c, bi, cond, then_bb, else_bb, ops);
        },
    }
}

/// Appends every block: its label, its instructions, its terminator.
fn lower_blocks(f: &Function, map: &IndexMap<VReg, Location>, c: LowerContext, ops: &mut Vec<AsmOp>)
    requires
        located(*f, location_entries(*map)),
        slots_bounded(location_entries(*map), c.args),
    ensures
        final(ops)@ == old(ops)@ + blocks_ops(*f, location_entries(*map), c, f.blocks@.len() as int),
{
    let ghost e = location_entries(*map);
    let ghost start = ops@;
    let mut bi: usize = 0;
    while bi < f.blocks.len()
        invariant
            bi <= f.blocks@.len(),
            e == location_entries(*map),
            located(*f, e),
            slots_bounded(e, c.args),
            ops@ == start + blocks_ops(*f, e, c, bi as int),
        decreases f.blocks.len() - bi,
    {
        let ghost before = ops@;
        ops.push(AsmOp::Label(AsmLabel::Block(f.blocks[bi].id)));
        let mut x: usize = 0;
        while x < f.blocks[bi].insts.len()
            invariant
                bi < f.blocks@.len(),
                x <= f.blocks@[bi as int].insts@.len(),
                e == location_entries(*map),
                located(*f, e),
                slots_bounded(e, c.args),
                ops@ == before + seq![AsmOp::Label(AsmLabel::Block(f.blocks@[bi as int].id))] + insts_ops(*f, e, c, bi as int, x as int),
            decreases f.blocks@[bi as int].insts@.len() - x,
        {
            let inst = &f.blocks[bi].insts[x];
            proof {
                lemma_def_touched(*f, bi as int, x as int);
                if !is_phi(*inst) {
                    assert forall|v: VReg| spec_uses(*inst).contains(v) implies has_key(e, v) by {
                        lemma_use_touched(*f, bi as int, x as int, v);
                    }
                }
            }
            let ghost o = ops@;
            lower_inst(map, c, bi, x, inst, ops);
            assert(ops@ =~= before + seq![AsmOp::Label(AsmLabel::Block(f.blocks@[bi as int].id))] + insts_ops(*f, e, c, bi as int, x + 1));
            x += 1;
        }
        lower_term(f, map, c, bi, ops);
        assert(ops@ =~= start + blocks_ops(*f, e, c, bi + 1));
        bi += 1;
    }
}

/// The register of argument `i`.
fn arg_register_of(i: u32) -> (r: PhysReg)
    ensures
        r == arg_register(i as int),
{
    if i == 0 {
        PhysReg::Rdi
    } else if i == 1 {
        PhysReg::Rsi
    } else if i == 2 {
        PhysReg::Rdx
    } else if i == 3 {
        PhysReg::Rcx
    } else if i == 4 {
        PhysReg::R8
    } else {
        PhysReg::R9
    }
}

/// Appends the prologue.
fn lower_prologue(c: LowerContext, ops: &mut Vec<AsmOp>)
    ensures
        final(ops)@ == old(ops)@ + prologue(c),
{
    let ghost start = ops@;
    ops.push(AsmOp::PushRbp);
    ops.push(AsmOp::MovRbpRsp);
    if c.frame_bytes > 0 {
        ops.push(AsmOp::SubRsp(c.frame_bytes));
    }
    let ghost head = ops@;
    assert(head =~= start + (seq![AsmOp::PushRbp, AsmOp::MovRbpRsp]
        + (if c.frame_bytes > 0 { seq![AsmOp::SubRsp(c.frame_bytes)] } else { seq![] })));
    let mut i: u32 = 0;
    while i < c.args
        invariant
            i <= c.args,
            ops@ == head + arg_stores(i as int),
        decreases c.args - i,
    {
        ops.push(AsmOp::Store { slot: i, src: arg_register_of(i) });
        i += 1;
    }
    assert(ops@ =~= start + prologue(c));
}

/// Whether rounding the frame of `args` argument slots and `slots` spill
/// slots up to 16 bytes would overflow an `i32` (see `frame_rounding_overflows`).
pub fn frame_rounding_would_overflow(args: u32, slots: u32) -> (r: bool)
    ensures
        r == frame_rounding_overflows(args, slots),
{
    let bytes: u64 = (args as u64 + slots as u64) * 8;
    bytes <= 0x7fff_ffff && bytes + 15 > 0x7fff_ffff
}

/// The frame size, when the frame fits.
fn frame_bytes_of(args: u32, slots: u32) -> (r: Option<i32>)
    requires
        args <= 6,
        !frame_rounding_overflows(args, slots),
    ensures
        r is Some <==> frame_fits(args, slots),
        r matches Some(b) ==> b == frame_size(args, slots),
{
    if slots > 0x7fff_ffff {
        return None;
    }
    let total: u64 = args as u64 + slots as u64;
    if total > 0x7fff_ffff {
        return None;
    }
    let bytes: u64 = total * 8;
    if bytes > 0x7fff_ffff {
        return None;
    }
    if total == 0 {
        Some(0)
    } else {
        let rounded: u64 = (bytes + 15) / 16 * 16;
        Some(rounded as i32)
    }
}

/// Lowers a function to x86-64 instructions: checks the function, the
/// register set, the argument count, the live intervals and the assignment,
/// sizes the frame, then lowers every block (see `program`).
pub fn lower_function_i64(f: &Function, assignment: &Assignment, registers: &PhysRegSet) -> (r: Result<Vec<AsmOp>, CodegenError>)
    requires
        lowering_inputs_ok(*f, *registers) && assignment_accepted(*f, *registers, *assignment)
            ==> !frame_rounding_overflows(f.args, assignment.stack_slots),
    ensures
        lowering_result(*f, *registers, *assignment, match r { Ok(ops) => Ok(ops@), Err(e) => Err(e) }),
{
    if let Err(e) = validate_function(f) {
        return Err(CodegenError::Validation(e));
    }
    if let Err(e) = registers.validate_for_codegen() {
        return Err(CodegenError::Registers(e));
    }
    if f.args > 6 {
        return Err(CodegenError::TooManyArguments(f.args));
    }
    let li = match compute_live_intervals(f) {
        Ok(li) => li,
        Err(e) => {
            return Err(CodegenError::Intervals(e));
        },
    };
    proof { lemma_valid_ids_distinct(*f); }
    let ghost ivs = li.intervals@;
    if let Err(e) = verify_assignment(&li, registers, registers.regs.len(), assignment) {
        return Err(CodegenError::Assignment(e));
    }
    assert(lowering_inputs_ok(*f, *registers));
    assert(assignment_accepted(*f, *registers, *assignment));
    let frame_bytes = match frame_bytes_of(f.args, assignment.stack_slots) {
        Some(b) => b,
        None => {
            return Err(CodegenError::FrameTooLarge);
        },
    };
    proof { lemma_lowering_ready(*f, *registers, *assignment, ivs); }
    let c = LowerContext { args: f.args, s0: registers.scratch[0], s1: registers.scratch[1], frame_bytes };
    let mut ops: Vec<AsmOp> = Vec::new();
    lower_prologue(c, &mut ops);
    ops.push(AsmOp::Jmp(AsmLabel::Block(f.entry)));
    let ghost head = ops@;
    lower_blocks(f, &assignment.map, c, &mut ops);
    assert(ops@ =~= program(*f, location_entries(assignment.map), c));
    Ok(ops)
}

/// The program lowering gives for `f` with `regs` and assignment `a`.
pub open spec fn lowered_program(f: Function, regs: PhysRegSet, a: Assignment) -> Seq<AsmOp> {
    program(f, location_entries(a.map), lowering_context(f, regs, a.stack_slots))
}

/// The number of loads from frame slots.
pub open spec fn load_count(ops: Seq<AsmOp>) -> nat
    decreases ops.len(),
{
    if ops.len() == 0 {
        0
    } else {
        load_count(ops.drop_last()) + if ops.last() is Load { 1nat } else { 0nat }
    }
}

/// The number of stores to frame slots.
pub open spec fn store_count(ops: Seq<AsmOp>) -> nat
    decreases ops.len(),
{
    if ops.len() == 0 {
        0
    } else {
        store_count(ops.drop_last()) + if ops.last() is Store { 1nat } else { 0nat }
    }
}

/// The loads and stores among the instructions, each counted in a `u32` that wraps.
fn memory_traffic(ops: &Vec<AsmOp>) -> (r: (u32, u32))
    ensures
        r.0 == load_count(ops@) as u32,
        r.1 == store_count(ops@) as u32,
{
    let mut loads: u64 = 0;
    let mut stores: u64 = 0;
    let mut i: usize = 0;
    while i < ops.len()
        invariant
            i <= ops@.len(),
            loads == load_count(ops@.take(i as int)),
            stores == store_count(ops@.take(i as int)),
            loads <= i,
            stores <= i,
        decreases ops.len() - i,
    {
        proof {
            assert(ops@.take(i + 1).drop_last() =~= ops@.take(i as int));
        }
        match ops[i] {
            AsmOp::Load { .. } => {
                loads = loads + 1;
            },
            AsmOp::Store { .. } => {
                stores = stores + 1;
            },
            _ => {},
        }
        i += 1;
    }
    assert(ops@.take(ops@.len() as int) =~= ops@);
    (loads as u32, stores as u32)
}

/// Lowering either fails or succeeds: an input on which it gives an error
/// gives no program.
proof fn lemma_lowering_exclusive(f: Function, regs: PhysRegSet, a: Assignment, e: CodegenError, p: Seq<AsmOp>)
    requires
        lowering_result(f, regs, a, Err(e)),
    ensures
        !lowering_result(f, regs, a, Ok(p)),
{
    if !(validation_result(f) is Err) && codegen_ready(regs) && f.args <= 6 && intervals_computable(f) {
        if e is Assignment && assignment_accepted(f, regs, a) {
            let err = e->Assignment_0;
            let ivs = choose|ivs: Seq<LiveInterval>| intervals_exact(f, ivs)
                && !assignment_valid(ivs, regs, regs.regs@.len() as usize, a)
                && assignment_error_holds(ivs, regs, regs.regs@.len() as usize, a, err);
            let ivs2 = choose|ivs2: Seq<LiveInterval>| intervals_exact(f, ivs2)
                && assignment_valid(ivs2, regs, regs.regs@.len() as usize, a);
            lemma_intervals_exact_unique(f, ivs, ivs2);
        }
    }
}

// ---------------------------------------------------------------------------
// What the instructions of one straight-line IR instruction compute.

/// The value `r` holds after the interpreter's effect of `inst` on `regs`.
pub open spec fn effect_value(args: Seq<i64>, regs: Seq<(VReg, i64)>, inst: Inst, r: VReg) -> i64 {
    value_at(inst_effect(args, regs, inst)->Ok_0, r)
}

/// The machine holds the interpreter's value of `v` at `v`'s location.
pub open spec fn holds(e: Seq<(VReg, Location)>, args: u32, regs: Seq<(VReg, i64)>, st: MState, v: VReg) -> bool {
    has_key(regs, v) && val(st, loc_of(e, args, v)) == value_at(regs, v)
}

/// No value of the instruction lives in a scratch register.
pub open spec fn off_scratch(e: Seq<(VReg, Location)>, c: LowerContext, v: VReg) -> bool {
    loc_of(e, c.args, v) != MoveLoc::Reg(c.s0) && loc_of(e, c.args, v) != MoveLoc::Reg(c.s1)
}

proof fn lemma_arith_ops(
    e: Seq<(VReg, Location)>, c: LowerContext, dst: VReg, a: VReg, b: VReg, mul: bool, st: MState,
)
    requires
        c.s0 != c.s1,
        off_scratch(e, c, dst),
        off_scratch(e, c, a),
        off_scratch(e, c, b),
        a == b || loc_of(e, c.args, dst) != loc_of(e, c.args, b),
    ensures
        ({
            let va = val(st, loc_of(e, c.args, a));
            let vb = val(st, loc_of(e, c.args, b));
            let after = run(arith_ops(e, c, dst, a, b, mul), st);
            &&& val(after, loc_of(e, c.args, dst)) == (if mul { va.wrapping_mul(vb) } else { va.wrapping_add(vb) })
            &&& forall|l: MoveLoc| l != loc_of(e, c.args, dst) && l != MoveLoc::Reg(c.s0) && l != MoveLoc::Reg(c.s1)
                ==> val(after, l) == val(st, l)
        }),
{
    let la = loc_of(e, c.args, a);
    let lb = loc_of(e, c.args, b);
    let ld = loc_of(e, c.args, dst);
    let d = result_reg(e, dst, c.s0);
    assert(d == c.s0 || ld == MoveLoc::Reg(d)) by {
        match value_at(e, dst) { Location::Reg(r) => {}, Location::Stack(_) => {} }
    }
    assert(d != c.s1);
    let ra = read_ops(la, d);
    let mv = if ra.1 != d { seq![AsmOp::MovRR { dst: d, src: ra.1 }] } else { seq![] };
    let rb = read_ops(lb, c.s1);
    let op = if mul { AsmOp::Imul { dst: d, src: rb.1 } } else { AsmOp::Add { dst: d, src: rb.1 } };
    let wr = write_ops(ld, d);
    let va = val(st, la);
    let vb = val(st, lb);
    lemma_read(la, d, st);
    let st1 = run(ra.0, st);
    let st2 = run(mv, st1);
    if ra.1 != d {
        lemma_run_single(AsmOp::MovRR { dst: d, src: ra.1 }, st1);
    }
    assert((st2.0)(d) == va);
    assert forall|l: MoveLoc| l != MoveLoc::Reg(d) implies val(st2, l) == val(st, l) by {
        match l { MoveLoc::Reg(q) => {}, MoveLoc::Frame(k) => {} }
    }
    lemma_read(lb, c.s1, st2);
    let st3 = run(rb.0, st2);
    assert((st3.0)(rb.1) == vb) by {
        if lb == MoveLoc::Reg(d) {
            assert(a == b);
        }
    }
    assert(val(st3, MoveLoc::Reg(d)) == val(st2, MoveLoc::Reg(d)));
    assert((st3.0)(d) == va);
    lemma_run_single(op, st3);
    let st4 = step(op, st3);
    assert((st4.0)(d) == (if mul { va.wrapping_mul(vb) } else { va.wrapping_add(vb) }));
    assert forall|l: MoveLoc| l != MoveLoc::Reg(d) && l != MoveLoc::Reg(c.s1) implies val(st4, l) == val(st, l) by {
        match l { MoveLoc::Reg(q) => {}, MoveLoc::Frame(k) => {} }
    }
    lemma_write(ld, d, st4);
    lemma_run_append(ra.0, mv, st);
    lemma_run_append(ra.0 + mv, rb.0, st);
    lemma_run_append(ra.0 + mv + rb.0, seq![op], st);
    lemma_run_append(ra.0 + mv + rb.0 + seq![op], wr, st);
}

/// The instructions of a constant, an argument, a copy, an addition or a
/// multiplication compute what the interpreter computes: when the machine
/// holds the interpreter's values of the operands at their locations (and the
/// argument's shadow slot holds the argument), afterwards the destination's
/// location holds the interpreter's new value of the destination, and every
/// other location but the two scratch registers keeps its value. No value may
/// live in a scratch register, and when the two operands of an addition or a
/// multiplication differ, the right one must not share the destination's
/// location (overlapping live intervals never do).
pub proof fn lemma_straight_line_inst(
    e: Seq<(VReg, Location)>, c: LowerContext, bi: int, x: int, inst: Inst,
    args: Seq<i64>, regs: Seq<(VReg, i64)>, st: MState,
)
    requires
        !(inst is PhiI64),
        !(inst is CmpGtI64),
        c.s0 != c.s1,
        keys_distinct(regs),
        off_scratch(e, c, spec_def(inst)),
        forall|v: VReg| #[trigger] spec_uses(inst).contains(v) ==> off_scratch(e, c, v) && holds(e, c.args, regs, st, v),
        inst matches Inst::ArgI64 { idx, .. } ==> idx.0 < args.len() && (st.1)(idx.0 as int) == args[idx.0 as int],
        inst matches Inst::AddI64 { dst, a, b } ==> a == b || loc_of(e, c.args, dst) != loc_of(e, c.args, b),
        inst matches Inst::MulI64 { dst, a, b } ==> a == b || loc_of(e, c.args, dst) != loc_of(e, c.args, b),
    ensures
        inst_effect(args, regs, inst) is Ok,
        ({
            let after = run(inst_ops(e, c, bi, x, inst), st);
            let d = spec_def(inst);
            &&& val(after, loc_of(e, c.args, d)) == effect_value(args, regs, inst, d)
            &&& forall|l: MoveLoc| l != loc_of(e, c.args, d) && l != MoveLoc::Reg(c.s0) && l != MoveLoc::Reg(c.s1)
                ==> val(after, l) == val(st, l)
        }),
{
    match inst {
        Inst::ConstI64 { dst, imm } => {
            lemma_entries_insert(regs, dst, imm);
            let r = result_reg(e, dst, c.s0);
            lemma_run_single(AsmOp::MovRI { dst: r, imm }, st);
            let st1 = step(AsmOp::MovRI { dst: r, imm }, st);
            lemma_write(loc_of(e, c.args, dst), r, st1);
            lemma_run_append(seq![AsmOp::MovRI { dst: r, imm }], write_ops(loc_of(e, c.args, dst), r), st);
            assert(r == c.s0 || loc_of(e, c.args, dst) == MoveLoc::Reg(r)) by {
                match value_at(e, dst) { Location::Reg(q) => {}, Location::Stack(_) => {} }
            }
            assert forall|l: MoveLoc| l != MoveLoc::Reg(r) implies val(st1, l) == val(st, l) by {
                match l { MoveLoc::Reg(q) => {}, MoveLoc::Frame(k) => {} }
            }
        },
        Inst::ArgI64 { dst, idx } => {
            lemma_entries_insert(regs, dst, args[idx.0 as int]);
            let ld = AsmOp::Load { dst: c.s0, slot: idx.0 };
            lemma_run_single(ld, st);
            let st1 = step(ld, st);
            lemma_write(loc_of(e, c.args, dst), c.s0, st1);
            lemma_run_append(seq![ld], write_ops(loc_of(e, c.args, dst), c.s0), st);
            assert forall|l: MoveLoc| l != MoveLoc::Reg(c.s0) implies val(st1, l) == val(st, l) by {
                match l { MoveLoc::Reg(q) => {}, MoveLoc::Frame(k) => {} }
            }
        },
        Inst::MovI64 { dst, src } => {
            assert(spec_uses(inst)[0] == src);
            assert(spec_uses(inst).contains(src));
            lemma_entries_insert(regs, dst, value_at(regs, src));
            let rs = read_ops(loc_of(e, c.args, src), c.s0);
            lemma_read(loc_of(e, c.args, src), c.s0, st);
            let st1 = run(rs.0, st);
            lemma_write(loc_of(e, c.args, dst), rs.1, st1);
            lemma_run_append(rs.0, write_ops(loc_of(e, c.args, dst), rs.1), st);
        },
        Inst::AddI64 { dst, a, b } => {
            assert(spec_uses(inst).contains(a));
            assert(spec_uses(inst).contains(b));
            lemma_entries_insert(regs, dst, value_at(regs, a).wrapping_add(value_at(regs, b)));
            lemma_arith_ops(e, c, dst, a, b, false, st);
        },
        Inst::MulI64 { dst, a, b } => {
            assert(spec_uses(inst).contains(a));
            assert(spec_uses(inst).contains(b));
            lemma_entries_insert(regs, dst, value_at(regs, a).wrapping_mul(value_at(regs, b)));
            lemma_arith_ops(e, c, dst, a, b, true, st);
        },
        _ => {},
    }
}

/// Compiling refuses what its checks refuse: a function that is not valid, a
/// register set the emitter cannot use, more than six arguments, or an
/// assignment no exact live intervals accept give no program.
pub proof fn lemma_lowering_refuses(f: Function, regs: PhysRegSet, a: Assignment, p: Seq<AsmOp>)
    requires
        !lowering_inputs_ok(f, regs) || !assignment_accepted(f, regs, a),
    ensures
        !lowering_result(f, regs, a, Ok(p)),
{
}

/// Whether `code` is what compiling `f` with `regs` and assignment `a` gives:
/// the block encoder's bytes for the lowered program, their count, and the
/// program's frame loads and stores.
pub open spec fn emitted_as(f: Function, regs: PhysRegSet, a: Assignment, code: EmittedCode) -> bool {
    let p = lowered_program(f, regs, a);
    &&& lowering_result(f, regs, a, Ok(p))
    &&& encoded(64, listing(p), 0) == Some(code.bytes@)
    &&& code.metrics.code_size == code.bytes@.len()
    &&& code.metrics.loads == load_count(p) as u32
    &&& code.metrics.stores == store_count(p) as u32
}

/// Compiling is deterministic: whether it succeeds depends on its inputs
/// alone, and two successful compilations of the same inputs give the same
/// bytes and the same metrics.
pub proof fn lemma_emit_deterministic(f: Function, regs: PhysRegSet, a: Assignment, c1: EmittedCode, c2: EmittedCode)
    requires
        emitted_as(f, regs, a, c1),
        emitted_as(f, regs, a, c2),
    ensures
        c1.bytes@ == c2.bytes@,
        c1.metrics.code_size == c2.metrics.code_size,
        c1.metrics.loads == c2.metrics.loads,
        c1.metrics.stores == c2.metrics.stores,
{
}

/// Compiles a function to x86-64 machine code: lowers it (see
/// `lower_function_i64`), encodes the instructions with iced-x86 (the bytes
/// are the block encoder's for `listing` of the program), and counts the code
/// size and the frame loads and stores.
pub fn emit_function_i64(f: &Function, assignment: &Assignment, registers: &PhysRegSet) -> (r: Result<EmittedCode, CodegenError>)
    requires
        lowering_inputs_ok(*f, *registers) && assignment_accepted(*f, *registers, *assignment)
            ==> !frame_rounding_overflows(f.args, assignment.stack_slots),
    ensures
        r is Ok <==> lowering_result(*f, *registers, *assignment, Ok(lowered_program(*f, *registers, *assignment)))
            && ops_encodable(lowered_program(*f, *registers, *assignment))
            && encoded(64, listing(lowered_program(*f, *registers, *assignment)), 0) is Some,
        r matches Err(e) ==> (e is Assembler || lowering_result(*f, *registers, *assignment, Err(e))),
        r matches Err(CodegenError::Assembler(_))
            ==> lowering_result(*f, *registers, *assignment, Ok(lowered_program(*f, *registers, *assignment))),
        r matches Ok(code) ==> emitted_as(*f, *registers, *assignment, code),
        !lowering_inputs_ok(*f, *registers) || !assignment_accepted(*f, *registers, *assignment) ==> r is Err,
{
    proof {
        if !lowering_inputs_ok(*f, *registers) || !assignment_accepted(*f, *registers, *assignment) {
            lemma_lowering_refuses(*f, *registers, *assignment, lowered_program(*f, *registers, *assignment));
        }
    }
    let ops = match lower_function_i64(f, assignment, registers) {
        Ok(ops) => ops,
        Err(e) => {
            proof { lemma_lowering_exclusive(*f, *registers, *assignment, e, lowered_program(*f, *registers, *assignment)); }
            return Err(e);
        },
    };
    let (loads, stores) = memory_traffic(&ops);
    match encode_ops(&ops) {
        Ok(bytes) => {
            let code_size = bytes.len();
            Ok(EmittedCode { bytes, metrics: CodegenMetrics { code_size, loads, stores } })
        },
        Err(message) => Err(CodegenError::Assembler(message)),
    }
}

} // verus!
