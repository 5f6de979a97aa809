//! Encoding instructions with the iced-x86 code assembler. What the assembler
//! holds is modelled as the list of instructions handed to it, each with the
//! id of its label; the bytes are the block encoder's for that list (`encoded`,
//! left to iced-x86). This module decides which instructions are handed over,
//! in which order, with which operands and labels.
use vstd::prelude::*;
use iced_x86::IcedError;
use iced_x86::code_asm::{CodeAssembler, CodeLabel, AsmRegister64, AsmRegisterXmm, qword_ptr, dword_ptr, xmmword_ptr};
use iced_x86::code_asm::asm_traits::{
    CodeAsmMov, CodeAsmPush, CodeAsmPop, CodeAsmRet, CodeAsmSub, CodeAsmAdd, CodeAsmImul2, CodeAsmCmp,
    CodeAsmTest, CodeAsmJg, CodeAsmJnz, CodeAsmJmp, CodeAsmXorps, CodeAsmMovss, CodeAsmAddss, CodeAsmMovups,
    CodeAsmAddps, CodeAsmMovaps, CodeAsmShufps,
};
use crate::regalloc::PhysReg;
use crate::moves::{AsmOp, AsmLabel};

verus! {

#[verifier::external_type_specification]
#[verifier::external_body]
pub struct ExCodeAssembler(CodeAssembler);

#[verifier::external_type_specification]
#[verifier::external_body]
pub struct ExCodeLabel(CodeLabel);

#[verifier::external_type_specification]
#[verifier::external_body]
pub struct ExAsmRegister64(AsmRegister64);

#[verifier::external_type_specification]
#[verifier::external_body]
pub struct ExIcedError(IcedError);

#[verifier::external_type_specification]
#[verifier::external_body]
pub struct ExAsmRegisterXmm(AsmRegisterXmm);

/// A 64-bit general register as an operand of the assembler.
#[derive(Debug, Clone, Copy, PartialEq, Eq, Structural)]
pub enum Gpr {
    Rbp,
    Rsp,
    Phys(PhysReg),
}

/// An instruction as handed to the assembler. Memory operands are
/// `[base + disp]`; branch targets are label ids; `short` records whether the
/// assembler preferred short branches when the branch was added.
#[derive(Debug, Clone, Copy, PartialEq, Eq, Structural)]
pub enum Instr {
    Push(Gpr),
    Pop(Gpr),
    Ret,
    MovRR { dst: Gpr, src: Gpr },
    MovRI { dst: Gpr, imm: i64 },
    Load { dst: Gpr, base: Gpr, disp: i64 },
    Store { base: Gpr, disp: i64, src: Gpr },
    SubRI { dst: Gpr, imm: i32 },
    AddRI { dst: Gpr, imm: i32 },
    AddRR { dst: Gpr, src: Gpr },
    ImulRR { dst: Gpr, src: Gpr },
    CmpRR { a: Gpr, b: Gpr },
    TestRR { a: Gpr, b: Gpr },
    Jg { target: u64, short: bool },
    Jnz { target: u64, short: bool },
    Jmp { target: u64, short: bool },
    Xorps { dst: u8, src: u8 },
    MovssLoad { dst: u8, base: Gpr, disp: i64 },
    Addss { dst: u8, src: u8 },
    MovupsLoad { dst: u8, base: Gpr, disp: i64 },
    Addps { dst: u8, src: u8 },
    Movaps { dst: u8, src: u8 },
    Shufps { dst: u8, src: u8, imm: i32 },
}

/// The state of a `CodeAssembler` besides its instructions: the bitness, the
/// short-branch preference, how many labels it has created, the id of the
/// label set for the next instruction (0 for none), whether an anonymous
/// label is pending, whether a forward anonymous label is awaited, and the
/// pending prefix flags.
#[derive(Debug, Clone, Copy, PartialEq, Eq, Structural)]
pub struct AsmStatus {
    pub bitness: u32,
    pub short_branches: bool,
    pub labels_created: u64,
    pub pending_label: u64,
    pub anon_label: bool,
    pub forward_label: bool,
    pub prefixes: u8,
}

/// The instructions a `CodeAssembler` holds, in order, each with the id of
/// the label set on it (0 for none).
pub uninterp spec fn asm_items(a: CodeAssembler) -> Seq<(u64, Instr)>;

/// The rest of a `CodeAssembler`'s state (see `AsmStatus`).
pub uninterp spec fn asm_status(a: CodeAssembler) -> AsmStatus;

/// The id of a `CodeLabel`.
pub uninterp spec fn label_id(l: CodeLabel) -> u64;

/// Whether a `CodeLabel` has been set on an instruction.
pub uninterp spec fn label_placed(l: CodeLabel) -> bool;

/// The message an iced-x86 error carries.
pub uninterp spec fn iced_message(e: IcedError) -> Seq<char>;

/// The general register an iced-x86 register operand stands for.
pub uninterp spec fn register_of(r: AsmRegister64) -> Gpr;

/// The number of an iced-x86 XMM register operand.
pub uninterp spec fn xmm_index(r: AsmRegisterXmm) -> u8;

/// The bytes iced-x86's block encoder produces for these instructions at
/// address `ip` with this bitness, or `None` when it refuses them.
pub uninterp spec fn encoded(bitness: u32, items: Seq<(u64, Instr)>, ip: u64) -> Option<Seq<u8>>;

/// Only instructions and labels were asked of the assembler: no prefix and no
/// anonymous label is pending.
pub open spec fn asm_plain(a: CodeAssembler) -> bool {
    asm_status(a).prefixes == 0 && !asm_status(a).anon_label
}

/// `new_a` is `old_a` with `i` appended, carrying the pending label, which is cleared.
pub open spec fn appended(old_a: CodeAssembler, new_a: CodeAssembler, i: Instr) -> bool {
    &&& asm_items(new_a) == asm_items(old_a).push((asm_status(old_a).pending_label, i))
    &&& asm_status(new_a) == (AsmStatus { pending_label: 0, ..asm_status(old_a) })
}

/// `CodeAssembler::new`: fails exactly when the bitness is not 16, 32 or 64;
/// a new assembler holds nothing and prefers short branches.
#[verifier::external_body]
fn assembler_new(bitness: u32) -> (r: Result<CodeAssembler, IcedError>)
    ensures
        r is Ok <==> (bitness == 16 || bitness == 32 || bitness == 64),
        r matches Ok(a) ==> asm_items(a) == Seq::<(u64, Instr)>::empty() && asm_status(a) == (AsmStatus {
            bitness,
            short_branches: true,
            labels_created: 0,
            pending_label: 0,
            anon_label: false,
            forward_label: false,
            prefixes: 0,
        }),
{
    CodeAssembler::new(bitness)
}

/// `CodeAssembler::create_label`: a label whose id is the number of labels
/// created so far, this one included.
#[verifier::external_body]
fn new_label(a: &mut CodeAssembler) -> (r: CodeLabel)
    requires
        asm_status(*old(a)).labels_created < u64::MAX,
    ensures
        label_id(r) == asm_status(*old(a)).labels_created + 1,
        !label_placed(r),
        asm_items(*final(a)) == asm_items(*old(a)),
        asm_status(*final(a)) == (AsmStatus { labels_created: label_id(r), ..asm_status(*old(a)) }),
{
    a.create_label()
}

/// `CodeAssembler::set_label`: the label is set for the next instruction. It
/// fails, changing nothing, on a label that was not created, a label set
/// before, or when the next instruction already has a label.
#[verifier::external_body]
fn place_label(a: &mut CodeAssembler, label: &mut CodeLabel) -> (r: Result<(), IcedError>)
    ensures
        label_id(*final(label)) == label_id(*old(label)),
        r is Ok <==> label_id(*old(label)) != 0 && !label_placed(*old(label)) && asm_status(*old(a)).pending_label == 0,
        r is Ok ==> label_placed(*final(label)) && asm_items(*final(a)) == asm_items(*old(a))
            && asm_status(*final(a)) == (AsmStatus { pending_label: label_id(*old(label)), ..asm_status(*old(a)) }),
        r is Err ==> *final(label) == *old(label) && *final(a) == *old(a),
{
    a.set_label(label)
}

/// The iced-x86 register for `g` (the constants of `code_asm::registers`).
#[verifier::external_body]
fn reg64(g: Gpr) -> (r: AsmRegister64)
    ensures
        register_of(r) == g,
{
    match g {
        Gpr::Rbp => iced_x86::code_asm::rbp,
        Gpr::Rsp => iced_x86::code_asm::rsp,
        Gpr::Phys(PhysReg::Rax) => iced_x86::code_asm::rax,
        Gpr::Phys(PhysReg::Rcx) => iced_x86::code_asm::rcx,
        Gpr::Phys(PhysReg::Rdx) => iced_x86::code_asm::rdx,
        Gpr::Phys(PhysReg::Rbx) => iced_x86::code_asm::rbx,
        Gpr::Phys(PhysReg::Rsi) => iced_x86::code_asm::rsi,
        Gpr::Phys(PhysReg::Rdi) => iced_x86::code_asm::rdi,
        Gpr::Phys(PhysReg::R8) => iced_x86::code_asm::r8,
        Gpr::Phys(PhysReg::R9) => iced_x86::code_asm::r9,
        Gpr::Phys(PhysReg::R10) => iced_x86::code_asm::r10,
        Gpr::Phys(PhysReg::R11) => iced_x86::code_asm::r11,
    }
}

/// `mov r64, r64`.
#[verifier::external_body]
fn mov_reg(a: &mut CodeAssembler, dst: AsmRegister64, src: AsmRegister64) -> (r: Result<(), IcedError>)
    ensures
        asm_plain(*old(a)) ==> r is Ok,
        asm_plain(*old(a)) && r is Ok ==> appended(*old(a), *final(a),
            Instr::MovRR { dst: register_of(dst), src: register_of(src) }),
{
    a.mov(dst, src)
}

/// `mov r64, imm64`.
#[verifier::external_body]
fn mov_imm(a: &mut CodeAssembler, dst: AsmRegister64, imm: i64) -> (r: Result<(), IcedError>)
    ensures
        asm_plain(*old(a)) ==> r is Ok,
        asm_plain(*old(a)) && r is Ok ==> appended(*old(a), *final(a), Instr::MovRI { dst: register_of(dst), imm }),
{
    a.mov(dst, imm)
}

/// `mov r64, qword ptr [base - offset]`.
#[verifier::external_body]
fn mov_load(a: &mut CodeAssembler, dst: AsmRegister64, base: AsmRegister64, offset: i32) -> (r: Result<(), IcedError>)
    ensures
        asm_plain(*old(a)) ==> r is Ok,
        asm_plain(*old(a)) && r is Ok ==> appended(*old(a), *final(a),
            Instr::Load { dst: register_of(dst), base: register_of(base), disp: (0 - offset) as i64 }),
{
    a.mov(dst, qword_ptr(base - offset))
}

/// `mov qword ptr [base - offset], r64`.
#[verifier::external_body]
fn mov_store(a: &mut CodeAssembler, base: AsmRegister64, offset: i32, src: AsmRegister64) -> (r: Result<(), IcedError>)
    ensures
        asm_plain(*old(a)) ==> r is Ok,
        asm_plain(*old(a)) && r is Ok ==> appended(*old(a), *final(a),
            Instr::Store { base: register_of(base), disp: (0 - offset) as i64, src: register_of(src) }),
{
    a.mov(qword_ptr(base - offset), src)
}

/// `push r64`.
#[verifier::external_body]
fn push_reg(a: &mut CodeAssembler, r: AsmRegister64) -> (res: Result<(), IcedError>)
    ensures
        asm_plain(*old(a)) ==> res is Ok,
        asm_plain(*old(a)) && res is Ok ==> appended(*old(a), *final(a), Instr::Push(register_of(r))),
{
    a.push(r)
}

/// `pop r64`.
#[verifier::external_body]
fn pop_reg(a: &mut CodeAssembler, r: AsmRegister64) -> (res: Result<(), IcedError>)
    ensures
        asm_plain(*old(a)) ==> res is Ok,
        asm_plain(*old(a)) && res is Ok ==> appended(*old(a), *final(a), Instr::Pop(register_of(r))),
{
    a.pop(r)
}

/// `ret`.
#[verifier::external_body]
fn ret_near(a: &mut CodeAssembler) -> (r: Result<(), IcedError>)
    ensures
        asm_plain(*old(a)) ==> r is Ok,
        asm_plain(*old(a)) && r is Ok ==> appended(*old(a), *final(a), Instr::Ret),
{
    a.ret()
}

/// `sub r64, imm32`.
#[verifier::external_body]
fn sub_imm(a: &mut CodeAssembler, r: AsmRegister64, imm: i32) -> (res: Result<(), IcedError>)
    ensures
        asm_plain(*old(a)) ==> res is Ok,
        asm_plain(*old(a)) && res is Ok ==> appended(*old(a), *final(a), Instr::SubRI { dst: register_of(r), imm }),
{
    a.sub(r, imm)
}

/// `add r64, imm32`.
#[verifier::external_body]
fn add_imm(a: &mut CodeAssembler, r: AsmRegister64, imm: i32) -> (res: Result<(), IcedError>)
    ensures
        asm_plain(*old(a)) ==> res is Ok,
        asm_plain(*old(a)) && res is Ok ==> appended(*old(a), *final(a), Instr::AddRI { dst: register_of(r), imm }),
{
    a.add(r, imm)
}

/// `add r64, r64`.
#[verifier::external_body]
fn add_reg(a: &mut CodeAssembler, dst: AsmRegister64, src: AsmRegister64) -> (r: Result<(), IcedError>)
    ensures
        asm_plain(*old(a)) ==> r is Ok,
        asm_plain(*old(a)) && r is Ok ==> appended(*old(a), *final(a),
            Instr::AddRR { dst: register_of(dst), src: register_of(src) }),
{
    a.add(dst, src)
}

/// `imul r64, r64`.
#[verifier::external_body]
fn imul_reg(a: &mut CodeAssembler, dst: AsmRegister64, src: AsmRegister64) -> (r: Result<(), IcedError>)
    ensures
        asm_plain(*old(a)) ==> r is Ok,
        asm_plain(*old(a)) && r is Ok ==> appended(*old(a), *final(a),
            Instr::ImulRR { dst: register_of(dst), src: register_of(src) }),
{
    a.imul_2(dst, src)
}

/// `cmp r64, r64`.
#[verifier::external_body]
fn compare_reg(a: &mut CodeAssembler, x: AsmRegister64, y: AsmRegister64) -> (r: Result<(), IcedError>)
    ensures
        asm_plain(*old(a)) ==> r is Ok,
        asm_plain(*old(a)) && r is Ok ==> appended(*old(a), *final(a),
            Instr::CmpRR { a: register_of(x), b: register_of(y) }),
{
    a.cmp(x, y)
}

/// `test r64, r64`.
#[verifier::external_body]
fn test_reg(a: &mut CodeAssembler, x: AsmRegister64, y: AsmRegister64) -> (r: Result<(), IcedError>)
    ensures
        asm_plain(*old(a)) ==> r is Ok,
        asm_plain(*old(a)) && r is Ok ==> appended(*old(a), *final(a),
            Instr::TestRR { a: register_of(x), b: register_of(y) }),
{
    a.test(x, y)
}

/// `jg label`.
#[verifier::external_body]
fn jump_greater(a: &mut CodeAssembler, label: CodeLabel) -> (r: Result<(), IcedError>)
    ensures
        asm_plain(*old(a)) ==> r is Ok,
        asm_plain(*old(a)) && r is Ok ==> appended(*old(a), *final(a),
            Instr::Jg { target: label_id(label), short: asm_status(*old(a)).short_branches }),
{
    a.jg(label)
}

/// `jnz label`.
#[verifier::external_body]
fn jump_nonzero(a: &mut CodeAssembler, label: CodeLabel) -> (r: Result<(), IcedError>)
    ensures
        asm_plain(*old(a)) ==> r is Ok,
        asm_plain(*old(a)) && r is Ok ==> appended(*old(a), *final(a),
            Instr::Jnz { target: label_id(label), short: asm_status(*old(a)).short_branches }),
{
    a.jnz(label)
}

/// `jmp label`.
#[verifier::external_body]
fn jump(a: &mut CodeAssembler, label: CodeLabel) -> (r: Result<(), IcedError>)
    ensures
        asm_plain(*old(a)) ==> r is Ok,
        asm_plain(*old(a)) && r is Ok ==> appended(*old(a), *final(a),
            Instr::Jmp { target: label_id(label), short: asm_status(*old(a)).short_branches }),
{
    a.jmp(label)
}

/// `CodeAssembler::assemble`: the block encoder's bytes for the instructions
/// held, placed at `ip`; it fails on a pending prefix or label, or when the
/// block encoder refuses the instructions.
#[verifier::external_body]
fn assemble_at(a: &mut CodeAssembler, ip: u64) -> (r: Result<Vec<u8>, IcedError>)
    ensures
        r matches Ok(v) ==> encoded(asm_status(*old(a)).bitness, asm_items(*old(a)), ip) == Some(v@),
        r is Ok <==> asm_plain(*old(a)) && asm_status(*old(a)).pending_label == 0 && !asm_status(*old(a)).forward_label
            && encoded(asm_status(*old(a)).bitness, asm_items(*old(a)), ip) is Some,
{
    a.assemble(ip)
}

/// The message of an iced-x86 error (its `Display`).
#[verifier::external_body]
fn error_text(e: &IcedError) -> (r: String)
    ensures
        r@ == iced_message(*e),
{
    e.to_string()
}

/// The label an instruction defines or jumps to.
pub open spec fn op_label(op: AsmOp) -> Option<AsmLabel> {
    match op {
        AsmOp::Jg(l) => Some(l),
        AsmOp::Jnz(l) => Some(l),
        AsmOp::Jmp(l) => Some(l),
        AsmOp::Label(l) => Some(l),
        _ => None,
    }
}

fn label_of(op: AsmOp) -> (r: Option<AsmLabel>)
    ensures
        r == op_label(op),
{
    match op {
        AsmOp::Jg(l) => Some(l),
        AsmOp::Jnz(l) => Some(l),
        AsmOp::Jmp(l) => Some(l),
        AsmOp::Label(l) => Some(l),
        _ => None,
    }
}

/// The distinct labels of the first `k` instructions, in order of first mention.
pub open spec fn label_order(ops: Seq<AsmOp>, k: int) -> Seq<AsmLabel>
    decreases k,
{
    if k <= 0 || k > ops.len() {
        seq![]
    } else {
        let s = label_order(ops, k - 1);
        match op_label(ops[k - 1]) {
            Some(l) => if s.contains(l) { s } else { s.push(l) },
            None => s,
        }
    }
}

/// The id the assembler gives label `l`: its position in `order`, from 1.
pub open spec fn label_number(order: Seq<AsmLabel>, l: AsmLabel) -> u64 {
    ((choose|i: int| 0 <= i < order.len() && order[i] == l) + 1) as u64
}

/// The displacement below the frame pointer of frame slot `slot`.
pub open spec fn slot_disp(slot: u32) -> i64 {
    (0 - 8 * (slot + 1)) as i64
}

/// The assembler instruction of `op` (a label is no instruction).
pub open spec fn op_instr(op: AsmOp, order: Seq<AsmLabel>) -> Instr {
    match op {
        AsmOp::PushRbp => Instr::Push(Gpr::Rbp),
        AsmOp::MovRbpRsp => Instr::MovRR { dst: Gpr::Rbp, src: Gpr::Rsp },
        AsmOp::SubRsp(b) => Instr::SubRI { dst: Gpr::Rsp, imm: b },
        AsmOp::AddRsp(b) => Instr::AddRI { dst: Gpr::Rsp, imm: b },
        AsmOp::PopRbp => Instr::Pop(Gpr::Rbp),
        AsmOp::Ret => Instr::Ret,
        AsmOp::MovRR { dst, src } => Instr::MovRR { dst: Gpr::Phys(dst), src: Gpr::Phys(src) },
        AsmOp::MovRI { dst, imm } => Instr::MovRI { dst: Gpr::Phys(dst), imm },
        AsmOp::Load { dst, slot } => Instr::Load { dst: Gpr::Phys(dst), base: Gpr::Rbp, disp: slot_disp(slot) },
        AsmOp::Store { slot, src } => Instr::Store { base: Gpr::Rbp, disp: slot_disp(slot), src: Gpr::Phys(src) },
        AsmOp::Add { dst, src } => Instr::AddRR { dst: Gpr::Phys(dst), src: Gpr::Phys(src) },
        AsmOp::Imul { dst, src } => Instr::ImulRR { dst: Gpr::Phys(dst), src: Gpr::Phys(src) },
        AsmOp::Cmp { a, b } => Instr::CmpRR { a: Gpr::Phys(a), b: Gpr::Phys(b) },
        AsmOp::Test { a } => Instr::TestRR { a: Gpr::Phys(a), b: Gpr::Phys(a) },
        AsmOp::Jg(l) => Instr::Jg { target: label_number(order, l), short: true },
        AsmOp::Jnz(l) => Instr::Jnz { target: label_number(order, l), short: true },
        AsmOp::Jmp(l) => Instr::Jmp { target: label_number(order, l), short: true },
        AsmOp::Label(l) => Instr::Ret,
    }
}

/// The assembler's instructions after the first `k` of `ops`, and the id of
/// the label set for the next one.
pub open spec fn listing_state(ops: Seq<AsmOp>, order: Seq<AsmLabel>, k: int) -> (Seq<(u64, Instr)>, u64)
    decreases k,
{
    if k <= 0 || k > ops.len() {
        (seq![], 0)
    } else {
        let (items, pending) = listing_state(ops, order, k - 1);
        match ops[k - 1] {
            AsmOp::Label(l) => (items, label_number(order, l)),
            op => (items.push((pending, op_instr(op, order))), 0),
        }
    }
}

/// What the assembler holds after all of `ops`: one instruction per
/// instruction of `ops`, each carrying the id of the label just before it.
pub open spec fn listing(ops: Seq<AsmOp>) -> Seq<(u64, Instr)> {
    listing_state(ops, label_order(ops, ops.len() as int), ops.len() as int).0
}

/// Whether `op` can be handed to the assembler after the instructions
/// `done`, with label id `pending` set for the next instruction: a frame slot
/// within a 32-bit displacement, a label of the table, and a label that was
/// not set before and does not follow another label.
pub open spec fn op_encodable(op: AsmOp, order: Seq<AsmLabel>, done: Seq<AsmOp>, pending: u64) -> bool {
    match op {
        AsmOp::Load { dst, slot } => 8 * (slot + 1) <= i32::MAX,
        AsmOp::Store { slot, src } => 8 * (slot + 1) <= i32::MAX,
        AsmOp::Jg(l) => order.contains(l),
        AsmOp::Jnz(l) => order.contains(l),
        AsmOp::Jmp(l) => order.contains(l),
        AsmOp::Label(l) => order.contains(l) && !done.contains(AsmOp::Label(l)) && pending == 0,
        _ => true,
    }
}

/// Every instruction of `ops` can be handed to the assembler in turn, and no
/// label is left without an instruction after it.
pub open spec fn ops_encodable(ops: Seq<AsmOp>) -> bool {
    let order = label_order(ops, ops.len() as int);
    &&& forall|k: int| 0 <= k < ops.len() ==>
        op_encodable(#[trigger] ops[k], order, ops.take(k), listing_state(ops, order, k).1)
    &&& listing_state(ops, order, ops.len() as int).1 == 0
}

/// The label table holds one assembler label per label of `order`, in that
/// order, with ids from 1.
pub open spec fn table_ok(labels: Seq<(AsmLabel, CodeLabel)>, order: Seq<AsmLabel>) -> bool {
    &&& labels.len() == order.len()
    &&& order.no_duplicates()
    &&& forall|i: int| 0 <= i < labels.len() ==> (#[trigger] labels[i]).0 == order[i] && label_id(labels[i].1) == i + 1
}

proof fn lemma_label_number(order: Seq<AsmLabel>, i: int, l: AsmLabel)
    requires
        order.no_duplicates(),
        0 <= i < order.len(),
        order[i] == l,
    ensures
        label_number(order, l) == (i + 1) as u64,
{
    let j = choose|j: int| 0 <= j < order.len() && order[j] == l;
    assert(0 <= j < order.len() && order[j] == l);
}

/// The position of `l` in the label table.
fn find_label(labels: &Vec<(AsmLabel, CodeLabel)>, l: AsmLabel) -> (r: Option<usize>)
    ensures
        match r {
            Some(i) => i < labels@.len() && labels@[i as int].0 == l,
            None => forall|i: int| 0 <= i < labels@.len() ==> labels@[i].0 != l,
        },
{
    let mut i: usize = 0;
    while i < labels.len()
        invariant
            i <= labels@.len(),
            forall|j: int| 0 <= j < i ==> labels@[j].0 != l,
        decreases labels.len() - i,
    {
        if labels[i].0 == l {
            return Some(i);
        }
        i += 1;
    }
    None
}

/// The displacement below the frame pointer of frame slot `slot`: `8 * (slot + 1)`.
fn slot_offset(slot: u32) -> (r: Option<i32>)
    ensures
        r is Some <==> 8 * (slot + 1) <= i32::MAX,
        r matches Some(o) ==> o == 8 * (slot + 1),
{
    if slot < 268435455 {
        Some(8 * (slot as i32 + 1))
    } else {
        None
    }
}

/// The message of an error the assembler returned.
fn refused(e: IcedError) -> (r: String)
    ensures
        r@ == iced_message(e),
{
    error_text(&e)
}

/// The assembler label of `l`, looked up in the table.
fn table_label(labels: &Vec<(AsmLabel, CodeLabel)>, l: AsmLabel, Ghost(order): Ghost<Seq<AsmLabel>>) -> (r: Option<CodeLabel>)
    requires
        table_ok(labels@, order),
    ensures
        r is Some <==> order.contains(l),
        r matches Some(t) ==> label_id(t) == label_number(order, l),
{
    match find_label(labels, l) {
        Some(i) => {
            proof { lemma_label_number(order, i as int, l); }
            Some(labels[i].1)
        },
        None => {
            proof {
                assert forall|i: int| 0 <= i < order.len() implies order[i] != l by {
                    assert(labels@[i].0 == order[i]);
                }
            }
            None
        },
    }
}

/// Hands one instruction to the assembler; labels are looked up in the table
/// and placed labels written back.
fn encode_op(
    a: &mut CodeAssembler,
    labels: &mut Vec<(AsmLabel, CodeLabel)>,
    op: AsmOp,
    Ghost(order): Ghost<Seq<AsmLabel>>,
    Ghost(before): Ghost<Seq<AsmOp>>,
) -> (r: Result<(), String>)
    requires
        table_ok(old(labels)@, order),
        asm_plain(*old(a)),
        asm_status(*old(a)).short_branches,
        forall|i: int| 0 <= i < old(labels)@.len() ==>
            (label_placed(#[trigger] old(labels)@[i].1) <==> before.contains(AsmOp::Label(order[i]))),
    ensures
        table_ok(final(labels)@, order),
        r is Ok <==> op_encodable(op, order, before, asm_status(*old(a)).pending_label),
        r is Ok ==> forall|i: int| 0 <= i < final(labels)@.len() ==>
            (label_placed(#[trigger] final(labels)@[i].1) <==> before.push(op).contains(AsmOp::Label(order[i]))),
        r is Ok ==> match op {
            AsmOp::Label(l) => asm_items(*final(a)) == asm_items(*old(a))
                && asm_status(*final(a)) == (AsmStatus { pending_label: label_number(order, l), ..asm_status(*old(a)) }),
            _ => appended(*old(a), *final(a), op_instr(op, order)),
        },
{
    proof {
        assert forall|x: AsmOp| #[trigger] before.push(op).contains(x) <==> before.contains(x) || x == op by {
            if before.push(op).contains(x) {
                let j = choose|j: int| 0 <= j < before.len() + 1 && before.push(op)[j] == x;
                if j < before.len() { assert(before[j] == x); }
            }
            if before.contains(x) {
                let j = choose|j: int| 0 <= j < before.len() && before[j] == x;
                assert(before.push(op)[j] == x);
            }
            if x == op { assert(before.push(op)[before.len() as int] == x); }
        }
    }
    let done = match op {
        AsmOp::PushRbp => push_reg(a, reg64(Gpr::Rbp)),
        AsmOp::MovRbpRsp => mov_reg(a, reg64(Gpr::Rbp), reg64(Gpr::Rsp)),
        AsmOp::SubRsp(b) => sub_imm(a, reg64(Gpr::Rsp), b),
        AsmOp::AddRsp(b) => add_imm(a, reg64(Gpr::Rsp), b),
        AsmOp::PopRbp => pop_reg(a, reg64(Gpr::Rbp)),
        AsmOp::Ret => ret_near(a),
        AsmOp::MovRR { dst, src } => mov_reg(a, reg64(Gpr::Phys(dst)), reg64(Gpr::Phys(src))),
        AsmOp::MovRI { dst, imm } => mov_imm(a, reg64(Gpr::Phys(dst)), imm),
        AsmOp::Load { dst, slot } => match slot_offset(slot) {
            Some(o) => mov_load(a, reg64(Gpr::Phys(dst)), reg64(Gpr::Rbp), o),
            None => {
                return Err(String::from_str("frame slot beyond 32-bit displacement"));
            },
        },
        AsmOp::Store { slot, src } => match slot_offset(slot) {
            Some(o) => mov_store(a, reg64(Gpr::Rbp), o, reg64(Gpr::Phys(src))),
            None => {
                return Err(String::from_str("frame slot beyond 32-bit displacement"));
            },
        },
        AsmOp::Add { dst, src } => add_reg(a, reg64(Gpr::Phys(dst)), reg64(Gpr::Phys(src))),
        AsmOp::Imul { dst, src } => imul_reg(a, reg64(Gpr::Phys(dst)), reg64(Gpr::Phys(src))),
        AsmOp::Cmp { a: x, b: y } => compare_reg(a, reg64(Gpr::Phys(x)), reg64(Gpr::Phys(y))),
        AsmOp::Test { a: x } => test_reg(a, reg64(Gpr::Phys(x)), reg64(Gpr::Phys(x))),
        AsmOp::Jg(l) => match table_label(labels, l, Ghost(order)) {
            Some(t) => jump_greater(a, t),
            None => {
                return Err(String::from_str("label without a table entry"));
            },
        },
        AsmOp::Jnz(l) => match table_label(labels, l, Ghost(order)) {
            Some(t) => jump_nonzero(a, t),
            None => {
                return Err(String::from_str("label without a table entry"));
            },
        },
        AsmOp::Jmp(l) => match table_label(labels, l, Ghost(order)) {
            Some(t) => jump(a, t),
            None => {
                return Err(String::from_str("label without a table entry"));
            },
        },
        AsmOp::Label(l) => match find_label(labels, l) {
            Some(i) => {
                proof {
                    lemma_label_number(order, i as int, l);
                    assert(labels@[i as int].0 == order[i as int]);
                }
                let mut target = labels[i].1;
                let placed = place_label(a, &mut target);
                labels.set(i, (l, target));
                placed
            },
            None => {
                proof {
                    assert forall|i: int| 0 <= i < order.len() implies order[i] != l by {
                        assert(labels@[i].0 == order[i]);
                    }
                }
                return Err(String::from_str("label without a table entry"));
            },
        },
    };
    match done {
        Ok(()) => Ok(()),
        Err(e) => Err(refused(e)),
    }
}

/// Encodes the instructions with iced-x86 at address 0: one label per
/// distinct `AsmLabel`, created in order of first mention, then every
/// instruction in order. The bytes are what the block encoder produces for
/// `listing(ops)`; it succeeds exactly when every instruction can be handed
/// over (`ops_encodable`) and the block encoder accepts the listing. The
/// error carries the assembler's message.
pub fn encode_ops(ops: &Vec<AsmOp>) -> (r: Result<Vec<u8>, String>)
    ensures
        r matches Ok(b) ==> encoded(64, listing(ops@), 0) == Some(b@),
        r is Ok <==> ops_encodable(ops@) && encoded(64, listing(ops@), 0) is Some,
{
    let ghost order = label_order(ops@, ops@.len() as int);
    let mut a = match assembler_new(64) {
        Ok(a) => a,
        Err(e) => {
            return Err(refused(e));
        },
    };
    let mut labels: Vec<(AsmLabel, CodeLabel)> = Vec::new();
    let mut i: usize = 0;
    while i < ops.len()
        invariant
            i <= ops@.len(),
            table_ok(labels@, label_order(ops@, i as int)),
            asm_items(a) == Seq::<(u64, Instr)>::empty(),
            asm_status(a) == (AsmStatus {
                bitness: 64,
                short_branches: true,
                labels_created: labels@.len() as u64,
                pending_label: 0,
                anon_label: false,
                forward_label: false,
                prefixes: 0,
            }),
            labels@.len() <= i,
            forall|j: int| 0 <= j < labels@.len() ==> !label_placed(#[trigger] labels@[j].1),
        decreases ops.len() - i,
    {
        let ghost s = label_order(ops@, i as int);
        assert(label_order(ops@, i + 1) == match op_label(ops@[i as int]) {
            Some(l) => if s.contains(l) { s } else { s.push(l) },
            None => s,
        });
        if let Some(l) = label_of(ops[i]) {
            match find_label(&labels, l) {
                Some(j) => {
                    assert(s[j as int] == l);
                },
                None => {
                    assert forall|x: int| 0 <= x < s.len() implies s[x] != l by {
                        assert(labels@[x].0 == s[x]);
                    }
                    assert(!s.contains(l));
                    let cl = new_label(&mut a);
                    labels.push((l, cl));
                    assert(s.push(l).no_duplicates()) by {
                        assert forall|x: int, y: int| 0 <= x < y < s.len() + 1 implies s.push(l)[x] != s.push(l)[y] by {
                            if y == s.len() {
                                assert(s[x] != l);
                            }
                        }
                    }
                    assert(table_ok(labels@, s.push(l)));
                },
            }
        }
        i += 1;
    }
    let mut k: usize = 0;
    while k < ops.len()
        invariant
            k <= ops@.len(),
            order == label_order(ops@, ops@.len() as int),
            table_ok(labels@, order),
            (asm_items(a), asm_status(a).pending_label) == listing_state(ops@, order, k as int),
            asm_status(a).bitness == 64,
            asm_status(a).short_branches,
            asm_plain(a),
            !asm_status(a).forward_label,
            forall|i: int| 0 <= i < labels@.len() ==>
                (label_placed(#[trigger] labels@[i].1) <==> ops@.take(k as int).contains(AsmOp::Label(order[i]))),
            forall|j: int| 0 <= j < k ==>
                op_encodable(#[trigger] ops@[j], order, ops@.take(j), listing_state(ops@, order, j).1),
        decreases ops.len() - k,
    {
        let ghost before = listing_state(ops@, order, k as int);
        match encode_op(&mut a, &mut labels, ops[k], Ghost(order), Ghost(ops@.take(k as int))) {
            Ok(()) => {},
            Err(message) => {
                return Err(message);
            },
        }
        assert(listing_state(ops@, order, k + 1) == match ops@[k as int] {
            AsmOp::Label(l) => (before.0, label_number(order, l)),
            op => (before.0.push((before.1, op_instr(op, order))), 0u64),
        });
        assert(ops@.take(k + 1) == ops@.take(k as int).push(ops@[k as int]));
        k += 1;
    }
    assert(ops@.take(ops@.len() as int) == ops@);
    match assemble_at(&mut a, 0) {
        Ok(bytes) => Ok(bytes),
        Err(e) => Err(refused(e)),
    }
}

// ---------------------------------------------------------------------------
// A demonstration kernel: the sum of eight `f32` at the address in RDI,
// returned in XMM0 (`extern "C" fn(*const f32) -> f32`).

/// `code_asm::xmm0` or `code_asm::xmm1`.
#[verifier::external_body]
fn xmm(n: u8) -> (r: AsmRegisterXmm)
    requires
        n <= 1,
    ensures
        xmm_index(r) == n,
{
    match n {
        0 => iced_x86::code_asm::xmm0,
        _ => iced_x86::code_asm::xmm1,
    }
}

/// `xorps xmm, xmm`.
#[verifier::external_body]
fn xorps_reg(a: &mut CodeAssembler, dst: AsmRegisterXmm, src: AsmRegisterXmm) -> (r: Result<(), IcedError>)
    ensures
        asm_plain(*old(a)) ==> r is Ok,
        asm_plain(*old(a)) && r is Ok ==> appended(*old(a), *final(a), Instr::Xorps { dst: xmm_index(dst), src: xmm_index(src) }),
{
    a.xorps(dst, src)
}

/// `movss xmm, dword ptr [base + offset]`.
#[verifier::external_body]
fn movss_load(a: &mut CodeAssembler, dst: AsmRegisterXmm, base: AsmRegister64, offset: i32) -> (r: Result<(), IcedError>)
    ensures
        asm_plain(*old(a)) ==> r is Ok,
        asm_plain(*old(a)) && r is Ok ==> appended(*old(a), *final(a),
            Instr::MovssLoad { dst: xmm_index(dst), base: register_of(base), disp: offset as i64 }),
{
    a.movss(dst, dword_ptr(base + offset))
}

/// `addss xmm, xmm`.
#[verifier::external_body]
fn addss_reg(a: &mut CodeAssembler, dst: AsmRegisterXmm, src: AsmRegisterXmm) -> (r: Result<(), IcedError>)
    ensures
        asm_plain(*old(a)) ==> r is Ok,
        asm_plain(*old(a)) && r is Ok ==> appended(*old(a), *final(a), Instr::Addss { dst: xmm_index(dst), src: xmm_index(src) }),
{
    a.addss(dst, src)
}

/// `movups xmm, xmmword ptr [base + offset]`.
#[verifier::external_body]
fn movups_load(a: &mut CodeAssembler, dst: AsmRegisterXmm, base: AsmRegister64, offset: i32) -> (r: Result<(), IcedError>)
    ensures
        asm_plain(*old(a)) ==> r is Ok,
        asm_plain(*old(a)) && r is Ok ==> appended(*old(a), *final(a),
            Instr::MovupsLoad { dst: xmm_index(dst), base: register_of(base), disp: offset as i64 }),
{
    a.movups(dst, xmmword_ptr(base + offset))
}

/// `addps xmm, xmm`.
#[verifier::external_body]
fn addps_reg(a: &mut CodeAssembler, dst: AsmRegisterXmm, src: AsmRegisterXmm) -> (r: Result<(), IcedError>)
    ensures
        asm_plain(*old(a)) ==> r is Ok,
        asm_plain(*old(a)) && r is Ok ==> appended(*old(a), *final(a), Instr::Addps { dst: xmm_index(dst), src: xmm_index(src) }),
{
    a.addps(dst, src)
}

/// `movaps xmm, xmm`.
#[verifier::external_body]
fn movaps_reg(a: &mut CodeAssembler, dst: AsmRegisterXmm, src: AsmRegisterXmm) -> (r: Result<(), IcedError>)
    ensures
        asm_plain(*old(a)) ==> r is Ok,
        asm_plain(*old(a)) && r is Ok ==> appended(*old(a), *final(a), Instr::Movaps { dst: xmm_index(dst), src: xmm_index(src) }),
{
    a.movaps(dst, src)
}

/// `shufps xmm, xmm, imm8`.
#[verifier::external_body]
fn shufps_reg(a: &mut CodeAssembler, dst: AsmRegisterXmm, src: AsmRegisterXmm, imm: i32) -> (r: Result<(), IcedError>)
    ensures
        asm_plain(*old(a)) && -128 <= imm <= 255 ==> r is Ok,
        asm_plain(*old(a)) && r is Ok ==> appended(*old(a), *final(a),
            Instr::Shufps { dst: xmm_index(dst), src: xmm_index(src), imm }),
{
    a.shufps(dst, src, imm)
}

/// The assembler's message when it refuses an instruction.
fn accepted(r: Result<(), IcedError>) -> (out: Result<(), String>)
    ensures
        out is Ok <==> r is Ok,
{
    match r {
        Ok(()) => Ok(()),
        Err(e) => Err(refused(e)),
    }
}

/// An instruction without a label.
pub open spec fn bare(i: Instr) -> (u64, Instr) {
    (0u64, i)
}

/// The scalar kernel: save the frame pointer, zero XMM0, then for each of the
/// eight floats load it into XMM1 and add it to XMM0, then return.
pub open spec fn scalar_kernel() -> Seq<(u64, Instr)> {
    seq![bare(Instr::Push(Gpr::Rbp)), bare(Instr::MovRR { dst: Gpr::Rbp, src: Gpr::Rsp }), bare(Instr::Xorps { dst: 0, src: 0 })]
        + Seq::new(16, |k: int| if k % 2 == 0 {
            bare(Instr::MovssLoad { dst: 1, base: Gpr::Phys(PhysReg::Rdi), disp: (k / 2 * 4) as i64 })
        } else {
            bare(Instr::Addss { dst: 0, src: 1 })
        })
        + seq![bare(Instr::Pop(Gpr::Rbp)), bare(Instr::Ret)]
}

/// The packed kernel: load both halves, add them, then fold the four lanes
/// with two shuffles and adds, and return.
pub open spec fn sse_kernel() -> Seq<(u64, Instr)> {
    let rdi = Gpr::Phys(PhysReg::Rdi);
    seq![
        bare(Instr::Push(Gpr::Rbp)),
        bare(Instr::MovRR { dst: Gpr::Rbp, src: Gpr::Rsp }),
        bare(Instr::MovupsLoad { dst: 0, base: rdi, disp: 0 }),
        bare(Instr::MovupsLoad { dst: 1, base: rdi, disp: 16 }),
        bare(Instr::Addps { dst: 0, src: 1 }),
        bare(Instr::Movaps { dst: 1, src: 0 }),
        bare(Instr::Shufps { dst: 1, src: 1, imm: 0x4e }),
        bare(Instr::Addps { dst: 0, src: 1 }),
        bare(Instr::Movaps { dst: 1, src: 0 }),
        bare(Instr::Shufps { dst: 1, src: 1, imm: 0xb1 }),
        bare(Instr::Addss { dst: 0, src: 1 }),
        bare(Instr::Pop(Gpr::Rbp)),
        bare(Instr::Ret),
    ]
}

/// A fresh 64-bit assembler (creating one never fails).
fn fresh_assembler() -> (r: Result<CodeAssembler, String>)
    ensures
        r is Ok,
        r matches Ok(a) ==> asm_items(a) == Seq::<(u64, Instr)>::empty() && asm_plain(a)
            && asm_status(a).bitness == 64 && asm_status(a).pending_label == 0 && !asm_status(a).forward_label,
{
    match assembler_new(64) {
        Ok(a) => Ok(a),
        Err(e) => Err(refused(e)),
    }
}

/// The scalar kernel, encoded at address 0 (see `scalar_kernel`); it fails
/// only when the block encoder refuses the kernel.
pub fn emit_sum8_scalar() -> (r: Result<Vec<u8>, String>)
    ensures
        r matches Ok(b) ==> encoded(64, scalar_kernel(), 0) == Some(b@),
        r is Ok <==> encoded(64, scalar_kernel(), 0) is Some,
{
    let mut a = fresh_assembler()?;
    let ptr = reg64(Gpr::Phys(PhysReg::Rdi));
    accepted(push_reg(&mut a, reg64(Gpr::Rbp)))?;
    accepted(mov_reg(&mut a, reg64(Gpr::Rbp), reg64(Gpr::Rsp)))?;
    accepted(xorps_reg(&mut a, xmm(0), xmm(0)))?;
    let ghost head = seq![bare(Instr::Push(Gpr::Rbp)), bare(Instr::MovRR { dst: Gpr::Rbp, src: Gpr::Rsp }),
        bare(Instr::Xorps { dst: 0, src: 0 })];
    let ghost body = Seq::new(16, |k: int| if k % 2 == 0 {
            bare(Instr::MovssLoad { dst: 1, base: Gpr::Phys(PhysReg::Rdi), disp: (k / 2 * 4) as i64 })
        } else {
            bare(Instr::Addss { dst: 0, src: 1 })
        });
    assert(asm_items(a) =~= head + body.take(0));
    let mut i: i32 = 0;
    while i < 8
        invariant
            0 <= i <= 8,
            register_of(ptr) == Gpr::Phys(PhysReg::Rdi),
            body == Seq::new(16, |k: int| if k % 2 == 0 {
                bare(Instr::MovssLoad { dst: 1, base: Gpr::Phys(PhysReg::Rdi), disp: (k / 2 * 4) as i64 })
            } else {
                bare(Instr::Addss { dst: 0, src: 1 })
            }),
            asm_items(a) == head + body.take(2 * i),
            asm_plain(a),
            asm_status(a).bitness == 64,
            asm_status(a).pending_label == 0,
            !asm_status(a).forward_label,
        decreases 8 - i,
    {
        accepted(movss_load(&mut a, xmm(1), ptr, i * 4))?;
        accepted(addss_reg(&mut a, xmm(0), xmm(1)))?;
        assert((2 * i) / 2 == i);
        assert((2 * i + 1) % 2 == 1);
        assert(body[2 * i] == bare(Instr::MovssLoad { dst: 1, base: Gpr::Phys(PhysReg::Rdi), disp: (i * 4) as i64 }));
        assert(body[2 * i + 1] == bare(Instr::Addss { dst: 0, src: 1 }));
        assert(body.take(2 * (i + 1)) =~= body.take(2 * i).push(body[2 * i]).push(body[2 * i + 1]));
        assert(asm_items(a) =~= head + body.take(2 * (i + 1)));
        i += 1;
    }
    accepted(pop_reg(&mut a, reg64(Gpr::Rbp)))?;
    accepted(ret_near(&mut a))?;
    assert(asm_items(a) =~= scalar_kernel());
    match assemble_at(&mut a, 0) {
        Ok(bytes) => Ok(bytes),
        Err(e) => Err(refused(e)),
    }
}

/// The packed kernel, encoded at address 0 (see `sse_kernel`); it fails only
/// when the block encoder refuses the kernel.
pub fn emit_sum8_sse() -> (r: Result<Vec<u8>, String>)
    ensures
        r matches Ok(b) ==> encoded(64, sse_kernel(), 0) == Some(b@),
        r is Ok <==> encoded(64, sse_kernel(), 0) is Some,
{
    let mut a = fresh_assembler()?;
    let ptr = reg64(Gpr::Phys(PhysReg::Rdi));
    accepted(push_reg(&mut a, reg64(Gpr::Rbp)))?;
    accepted(mov_reg(&mut a, reg64(Gpr::Rbp), reg64(Gpr::Rsp)))?;
    accepted(movups_load(&mut a, xmm(0), ptr, 0))?;
    accepted(movups_load(&mut a, xmm(1), ptr, 16))?;
    accepted(addps_reg(&mut a, xmm(0), xmm(1)))?;
    accepted(movaps_reg(&mut a, xmm(1), xmm(0)))?;
    accepted(shufps_reg(&mut a, xmm(1), xmm(1), 0x4e))?;
    accepted(addps_reg(&mut a, xmm(0), xmm(1)))?;
    accepted(movaps_reg(&mut a, xmm(1), xmm(0)))?;
    accepted(shufps_reg(&mut a, xmm(1), xmm(1), 0xb1))?;
    accepted(addss_reg(&mut a, xmm(0), xmm(1)))?;
    accepted(pop_reg(&mut a, reg64(Gpr::Rbp)))?;
    accepted(ret_near(&mut a))?;
    assert(asm_items(a) =~= sse_kernel());
    match assemble_at(&mut a, 0) {
        Ok(bytes) => Ok(bytes),
        Err(e) => Err(refused(e)),
    }
}

} // verus!
