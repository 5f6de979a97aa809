//! Where each piece of a lowered program stands, and where its labels are.
use vstd::prelude::*;
use crate::ir::{Function, Inst, Terminator, VReg};
use crate::regalloc::{Location, PhysReg};
use crate::validation::inst_at;
use crate::moves::{AsmOp, AsmLabel, MoveLoc, read_ops, write_ops, save_ops, seq_moves, redirect, first_free,
    lemma_first_free};
use crate::codegen::{LowerContext, prologue, arg_stores, inst_ops, insts_ops, block_ops, blocks_ops, term_ops,
    ret_ops, branch_ops, edge_ops, arith_ops, const_ops, mov_ops, compare_ops, arg_ops, program};
use crate::execution::{seg_at, straight};
use crate::ir::BlockId;

verus! {

/// Only moves, loads and stores.
pub open spec fn plain(ops: Seq<AsmOp>) -> bool {
    forall|i: int| 0 <= i < ops.len() ==> (#[trigger] ops[i] is MovRR) || ops[i] is Load || ops[i] is Store
}

/// `ops` holds no label `l`.
pub open spec fn no_label(ops: Seq<AsmOp>, l: AsmLabel) -> bool {
    forall|i: int| 0 <= i < ops.len() ==> #[trigger] ops[i] != AsmOp::Label(l)
}

pub proof fn lemma_plain_concat(a: Seq<AsmOp>, b: Seq<AsmOp>)
    requires
        plain(a),
        plain(b),
    ensures
        plain(a + b),
{
    assert forall|i: int| 0 <= i < (a + b).len() implies (#[trigger] (a + b)[i] is MovRR) || (a + b)[i] is Load
        || (a + b)[i] is Store by {
        if i < a.len() { assert((a + b)[i] == a[i]); } else { assert((a + b)[i] == b[i - a.len()]); }
    }
}

pub proof fn lemma_plain_straight(ops: Seq<AsmOp>)
    requires
        plain(ops),
    ensures
        straight(ops),
        forall|l: AsmLabel| no_label(ops, l),
{
}

pub proof fn lemma_read_write_plain(src: MoveLoc, temp: PhysReg, dst: MoveLoc, r: PhysReg)
    ensures
        plain(read_ops(src, temp).0),
        plain(write_ops(dst, r)),
{
}

/// The moves are only moves, loads and stores.
pub proof fn lemma_seq_moves_plain(moves: Seq<(MoveLoc, MoveLoc)>, t1: PhysReg, t2: PhysReg)
    ensures
        plain(seq_moves(moves, t1, t2)),
    decreases moves.len(),
{
    if moves.len() > 0 {
        lemma_first_free(moves, 0);
        let i = first_free(moves, 0);
        if 0 <= i < moves.len() {
            let (d, s) = moves[i];
            let rd = read_ops(s, t2);
            lemma_seq_moves_plain(moves.remove(i), t1, t2);
            lemma_plain_concat(rd.0, write_ops(d, rd.1));
            lemma_plain_concat(rd.0 + write_ops(d, rd.1), seq_moves(moves.remove(i), t1, t2));
        } else {
            let (d, s) = moves[0];
            let rd = read_ops(s, t2);
            let rest = redirect(moves.remove(0), d, t1);
            lemma_seq_moves_plain(rest, t1, t2);
            assert(plain(save_ops(d, t1)));
            lemma_plain_concat(save_ops(d, t1), rd.0);
            lemma_plain_concat(save_ops(d, t1) + rd.0, write_ops(d, rd.1));
            lemma_plain_concat(save_ops(d, t1) + rd.0 + write_ops(d, rd.1), seq_moves(rest, t1, t2));
        }
    }
}

/// The labels of block `j`: its own, its comparisons' and its branch stubs.
pub open spec fn owned(f: Function, j: int, l: AsmLabel) -> bool {
    match l {
        AsmLabel::Block(id) => id == f.blocks@[j].id,
        AsmLabel::CmpTrue(b, _) => b == j as u32,
        AsmLabel::CmpDone(b, _) => b == j as u32,
        AsmLabel::ThenStub(b) => b == j as u32,
        AsmLabel::ElseStub(b) => b == j as u32,
    }
}

/// No label at all.
pub open spec fn label_free(ops: Seq<AsmOp>) -> bool {
    forall|i: int| 0 <= i < ops.len() ==> !(#[trigger] ops[i] is Label)
}

pub proof fn lemma_label_free_concat(a: Seq<AsmOp>, b: Seq<AsmOp>)
    requires
        label_free(a),
        label_free(b),
    ensures
        label_free(a + b),
{
    assert forall|i: int| 0 <= i < (a + b).len() implies !(#[trigger] (a + b)[i] is Label) by {
        if i < a.len() { assert((a + b)[i] == a[i]); } else { assert((a + b)[i] == b[i - a.len()]); }
    }
}

/// The instructions of a non-comparison hold no label.
pub proof fn lemma_inst_label_free(e: Seq<(VReg, Location)>, c: LowerContext, bi: int, x: int, inst: Inst)
    requires
        !(inst is CmpGtI64),
    ensures
        label_free(inst_ops(e, c, bi, x, inst)),
{
    match inst {
        Inst::ConstI64 { dst, imm } => {
            let d = crate::codegen::result_reg(e, dst, c.s0);
            lemma_label_free_concat(seq![AsmOp::MovRI { dst: d, imm }], write_ops(crate::codegen::loc_of(e, c.args, dst), d));
        },
        Inst::ArgI64 { dst, idx } => {
            lemma_label_free_concat(seq![AsmOp::Load { dst: c.s0, slot: idx.0 }],
                write_ops(crate::codegen::loc_of(e, c.args, dst), c.s0));
        },
        Inst::MovI64 { dst, src } => {
            let rs = read_ops(crate::codegen::loc_of(e, c.args, src), c.s0);
            lemma_label_free_concat(rs.0, write_ops(crate::codegen::loc_of(e, c.args, dst), rs.1));
        },
        Inst::AddI64 { dst, a, b } => { lemma_arith_label_free(e, c, dst, a, b, false); },
        Inst::MulI64 { dst, a, b } => { lemma_arith_label_free(e, c, dst, a, b, true); },
        _ => {},
    }
}

proof fn lemma_arith_label_free(e: Seq<(VReg, Location)>, c: LowerContext, dst: VReg, a: VReg, b: VReg, mul: bool)
    ensures
        label_free(arith_ops(e, c, dst, a, b, mul)),
{
    let d = crate::codegen::result_reg(e, dst, c.s0);
    let ra = read_ops(crate::codegen::loc_of(e, c.args, a), d);
    let mv = if ra.1 != d { seq![AsmOp::MovRR { dst: d, src: ra.1 }] } else { seq![] };
    let rb = read_ops(crate::codegen::loc_of(e, c.args, b), c.s1);
    let op = if mul { AsmOp::Imul { dst: d, src: rb.1 } } else { AsmOp::Add { dst: d, src: rb.1 } };
    let wr = write_ops(crate::codegen::loc_of(e, c.args, dst), d);
    lemma_label_free_concat(ra.0, mv);
    lemma_label_free_concat(ra.0 + mv, rb.0);
    lemma_label_free_concat(ra.0 + mv + rb.0, seq![op]);
    lemma_label_free_concat(ra.0 + mv + rb.0 + seq![op], wr);
}

/// A stretch inside a stretch.
pub proof fn lemma_seg_in(ops: Seq<AsmOp>, pc: int, big: Seq<AsmOp>, q: int, small: Seq<AsmOp>)
    requires
        seg_at(ops, pc, big),
        seg_at(big, q, small),
    ensures
        seg_at(ops, pc + q, small),
{
    assert forall|i: int| 0 <= i < small.len() implies ops[pc + q + i] == #[trigger] small[i] by {
        assert(big[q + i] == small[i]);
        assert(ops[pc + (q + i)] == big[q + i]);
    }
}

pub proof fn lemma_seg_whole(a: Seq<AsmOp>, b: Seq<AsmOp>)
    ensures
        seg_at(a + b, 0, a),
        seg_at(a + b, a.len() as int, b),
{
    assert forall|i: int| 0 <= i < a.len() implies (a + b)[0 + i] == #[trigger] a[i] by {}
    assert forall|i: int| 0 <= i < b.len() implies (a + b)[a.len() + i] == #[trigger] b[i] by {}
}

pub proof fn lemma_insts_prefix(f: Function, e: Seq<(VReg, Location)>, c: LowerContext, bi: int, k: int, m: int)
    requires
        0 <= k <= m,
    ensures
        seg_at(insts_ops(f, e, c, bi, m), 0, insts_ops(f, e, c, bi, k)),
    decreases m - k,
{
    if k == m {
        assert forall|i: int| 0 <= i < insts_ops(f, e, c, bi, k).len()
            implies insts_ops(f, e, c, bi, m)[0 + i] == #[trigger] insts_ops(f, e, c, bi, k)[i] by {}
    } else {
        lemma_insts_prefix(f, e, c, bi, k, m - 1);
        lemma_seg_whole(insts_ops(f, e, c, bi, m - 1), inst_ops(e, c, bi, m - 1, inst_at(f, bi, m - 1)));
        lemma_seg_in(insts_ops(f, e, c, bi, m), 0, insts_ops(f, e, c, bi, m - 1), 0, insts_ops(f, e, c, bi, k));
    }
}

pub proof fn lemma_blocks_prefix(f: Function, e: Seq<(VReg, Location)>, c: LowerContext, k: int, m: int)
    requires
        0 <= k <= m,
    ensures
        seg_at(blocks_ops(f, e, c, m), 0, blocks_ops(f, e, c, k)),
    decreases m - k,
{
    if k == m {
        assert forall|i: int| 0 <= i < blocks_ops(f, e, c, k).len()
            implies blocks_ops(f, e, c, m)[0 + i] == #[trigger] blocks_ops(f, e, c, k)[i] by {}
    } else {
        lemma_blocks_prefix(f, e, c, k, m - 1);
        lemma_seg_whole(blocks_ops(f, e, c, m - 1), block_ops(f, e, c, m - 1));
        lemma_seg_in(blocks_ops(f, e, c, m), 0, blocks_ops(f, e, c, m - 1), 0, blocks_ops(f, e, c, k));
    }
}

/// Where block `s` starts: its label.
pub open spec fn block_pos(f: Function, e: Seq<(VReg, Location)>, c: LowerContext, s: int) -> int {
    (prologue(c).len() + 1 + blocks_ops(f, e, c, s).len()) as int
}

/// Where the instructions of instruction `x` of block `s` start.
pub open spec fn inst_pos(f: Function, e: Seq<(VReg, Location)>, c: LowerContext, s: int, x: int) -> int {
    block_pos(f, e, c, s) + 1 + insts_ops(f, e, c, s, x).len()
}

/// Where the terminator of block `s` starts.
pub open spec fn term_pos(f: Function, e: Seq<(VReg, Location)>, c: LowerContext, s: int) -> int {
    inst_pos(f, e, c, s, f.blocks@[s].insts@.len() as int)
}

pub proof fn lemma_program_parts(f: Function, e: Seq<(VReg, Location)>, c: LowerContext, s: int)
    requires
        0 <= s < f.blocks@.len(),
    ensures
        seg_at(program(f, e, c), 0, prologue(c)),
        program(f, e, c)[prologue(c).len() as int] == AsmOp::Jmp(AsmLabel::Block(f.entry)),
        seg_at(program(f, e, c), (prologue(c).len() + 1) as int, blocks_ops(f, e, c, s)),
        seg_at(program(f, e, c), block_pos(f, e, c, s), block_ops(f, e, c, s)),
        program(f, e, c)[block_pos(f, e, c, s)] == AsmOp::Label(AsmLabel::Block(f.blocks@[s].id)),
        seg_at(program(f, e, c), block_pos(f, e, c, s) + 1, insts_ops(f, e, c, s, f.blocks@[s].insts@.len() as int)),
        seg_at(program(f, e, c), term_pos(f, e, c, s), term_ops(f, e, c, s)),
{
    let p = program(f, e, c);
    let n = f.blocks@.len() as int;
    let head = prologue(c) + seq![AsmOp::Jmp(AsmLabel::Block(f.entry))];
    let all = blocks_ops(f, e, c, n);
    assert(p == head + all);
    lemma_seg_whole(head, all);
    lemma_seg_whole(prologue(c), seq![AsmOp::Jmp(AsmLabel::Block(f.entry))]);
    lemma_seg_in(p, 0, head, 0, prologue(c));
    assert(p[prologue(c).len() as int] == head[prologue(c).len() as int]);
    lemma_blocks_prefix(f, e, c, s + 1, n);
    lemma_seg_in(p, head.len() as int, all, 0, blocks_ops(f, e, c, s + 1));
    lemma_seg_whole(blocks_ops(f, e, c, s), block_ops(f, e, c, s));
    lemma_seg_in(p, head.len() as int, blocks_ops(f, e, c, s + 1), 0, blocks_ops(f, e, c, s));
    lemma_seg_in(p, head.len() as int, blocks_ops(f, e, c, s + 1), blocks_ops(f, e, c, s).len() as int, block_ops(f, e, c, s));
    let lab = seq![AsmOp::Label(AsmLabel::Block(f.blocks@[s].id))];
    let body = insts_ops(f, e, c, s, f.blocks@[s].insts@.len() as int);
    assert(block_ops(f, e, c, s) == lab + body + term_ops(f, e, c, s));
    lemma_seg_whole(lab + body, term_ops(f, e, c, s));
    lemma_seg_whole(lab, body);
    lemma_seg_in(p, block_pos(f, e, c, s), block_ops(f, e, c, s), 0, lab + body);
    lemma_seg_in(p, block_pos(f, e, c, s), lab + body, 1, body);
    lemma_seg_in(p, block_pos(f, e, c, s), block_ops(f, e, c, s), (lab + body).len() as int, term_ops(f, e, c, s));
    assert(p[block_pos(f, e, c, s) + 0] == block_ops(f, e, c, s)[0]);
}

pub proof fn lemma_inst_place(f: Function, e: Seq<(VReg, Location)>, c: LowerContext, s: int, x: int)
    requires
        0 <= s < f.blocks@.len(),
        0 <= x < f.blocks@[s].insts@.len(),
    ensures
        seg_at(program(f, e, c), inst_pos(f, e, c, s, x), inst_ops(e, c, s, x, inst_at(f, s, x))),
        inst_pos(f, e, c, s, x + 1) == inst_pos(f, e, c, s, x) + inst_ops(e, c, s, x, inst_at(f, s, x)).len(),
{
    let n = f.blocks@[s].insts@.len() as int;
    lemma_program_parts(f, e, c, s);
    lemma_insts_prefix(f, e, c, s, x + 1, n);
    lemma_seg_in(program(f, e, c), block_pos(f, e, c, s) + 1, insts_ops(f, e, c, s, n), 0, insts_ops(f, e, c, s, x + 1));
    lemma_seg_whole(insts_ops(f, e, c, s, x), inst_ops(e, c, s, x, inst_at(f, s, x)));
    lemma_seg_in(program(f, e, c), block_pos(f, e, c, s) + 1, insts_ops(f, e, c, s, x + 1),
        insts_ops(f, e, c, s, x).len() as int, inst_ops(e, c, s, x, inst_at(f, s, x)));
}

pub proof fn lemma_prologue_label_free(c: LowerContext)
    ensures
        label_free(prologue(c)),
{
    lemma_arg_stores_label_free(c.args as int);
    let head = seq![AsmOp::PushRbp, AsmOp::MovRbpRsp]
        + (if c.frame_bytes > 0 { seq![AsmOp::SubRsp(c.frame_bytes)] } else { seq![] });
    assert(label_free(head));
    lemma_label_free_concat(head, arg_stores(c.args as int));
}

proof fn lemma_arg_stores_label_free(k: int)
    ensures
        label_free(arg_stores(k)),
    decreases k,
{
    if k > 0 {
        lemma_arg_stores_label_free(k - 1);
        let op = AsmOp::Store { slot: (k - 1) as u32, src: crate::codegen::arg_register(k - 1) };
        assert(arg_stores(k) == arg_stores(k - 1).push(op));
        assert(arg_stores(k - 1).push(op) =~= arg_stores(k - 1) + seq![op]);
        lemma_label_free_concat(arg_stores(k - 1), seq![op]);
    }
}

/// The labels of the instructions of instruction `x` of block `bi`: those of its comparison.
pub proof fn lemma_inst_labels(e: Seq<(VReg, Location)>, c: LowerContext, bi: int, x: int, inst: Inst, i: int)
    requires
        0 <= i < inst_ops(e, c, bi, x, inst).len(),
        inst_ops(e, c, bi, x, inst)[i] is Label,
    ensures
        inst is CmpGtI64,
        inst_ops(e, c, bi, x, inst)[i] == AsmOp::Label(AsmLabel::CmpTrue(bi as u32, x as u32))
            || inst_ops(e, c, bi, x, inst)[i] == AsmOp::Label(AsmLabel::CmpDone(bi as u32, x as u32)),
{
    if !(inst is CmpGtI64) {
        lemma_inst_label_free(e, c, bi, x, inst);
    } else {
        let (dst, a, b) = (inst->CmpGtI64_dst, inst->CmpGtI64_a, inst->CmpGtI64_b);
        let ra = read_ops(crate::codegen::loc_of(e, c.args, a), c.s0);
        let rb = read_ops(crate::codegen::loc_of(e, c.args, b), c.s1);
        let wr = write_ops(crate::codegen::loc_of(e, c.args, dst), c.s0);
        let mid = compare_mid(c, bi, x, ra.1, rb.1);
        assert(inst_ops(e, c, bi, x, inst) == ra.0 + rb.0 + mid + wr);
        let ops = ra.0 + rb.0 + mid + wr;
        if i < ra.0.len() {
            assert(ops[i] == ra.0[i]);
        } else if i < ra.0.len() + rb.0.len() {
            assert(ops[i] == rb.0[i - ra.0.len()]);
        } else if i < ra.0.len() + rb.0.len() + 7 {
            assert(ops[i] == mid[i - ra.0.len() - rb.0.len()]);
        } else {
            assert(ops[i] == wr[i - ra.0.len() - rb.0.len() - 7]);
        }
    }
}

/// The middle of a comparison: compare, jump, the two results, the two labels.
pub open spec fn compare_mid(c: LowerContext, bi: int, x: int, ra: PhysReg, rb: PhysReg) -> Seq<AsmOp> {
    seq![
        AsmOp::Cmp { a: ra, b: rb },
        AsmOp::Jg(AsmLabel::CmpTrue(bi as u32, x as u32)),
        AsmOp::MovRI { dst: c.s0, imm: 0 },
        AsmOp::Jmp(AsmLabel::CmpDone(bi as u32, x as u32)),
        AsmOp::Label(AsmLabel::CmpTrue(bi as u32, x as u32)),
        AsmOp::MovRI { dst: c.s0, imm: 1 },
        AsmOp::Label(AsmLabel::CmpDone(bi as u32, x as u32)),
    ]
}

/// A comparison label of block `bi` from an instruction before `x`.
pub open spec fn comparison_label_before(l: AsmLabel, bi: int, x: int) -> bool {
    match l {
        AsmLabel::CmpTrue(b, y) => b == bi as u32 && y < x,
        AsmLabel::CmpDone(b, y) => b == bi as u32 && y < x,
        _ => false,
    }
}

/// The labels of the first `x` instructions of block `bi`: comparisons before `x`.
pub proof fn lemma_insts_labels(f: Function, e: Seq<(VReg, Location)>, c: LowerContext, bi: int, x: int, i: int)
    requires
        0 <= i < insts_ops(f, e, c, bi, x).len(),
        insts_ops(f, e, c, bi, x)[i] is Label,
        x <= u32::MAX,
    ensures
        comparison_label_before(insts_ops(f, e, c, bi, x)[i]->Label_0, bi, x),
    decreases x,
{
    if x > 0 {
        let a = insts_ops(f, e, c, bi, x - 1);
        let b = inst_ops(e, c, bi, x - 1, inst_at(f, bi, x - 1));
        assert(insts_ops(f, e, c, bi, x) == a + b);
        if i < a.len() {
            assert((a + b)[i] == a[i]);
            lemma_insts_labels(f, e, c, bi, x - 1, i);
        } else {
            assert((a + b)[i] == b[i - a.len()]);
            lemma_inst_labels(e, c, bi, x - 1, inst_at(f, bi, x - 1), i - a.len());
            assert((x - 1) as u32 == x - 1);
        }
    }
}

/// The branch stubs and their jumps.
pub open spec fn branch_parts(f: Function, e: Seq<(VReg, Location)>, c: LowerContext, bi: int) -> (Seq<AsmOp>, Seq<AsmOp>, Seq<AsmOp>, Seq<AsmOp>) {
    let blk = f.blocks@[bi];
    let cond = blk.term->Br_cond;
    let rc = read_ops(crate::codegen::loc_of(e, c.args, cond), c.s0);
    let ts = AsmLabel::ThenStub(bi as u32);
    let es = AsmLabel::ElseStub(bi as u32);
    (rc.0 + seq![AsmOp::Test { a: rc.1 }, AsmOp::Jnz(ts), AsmOp::Jmp(es), AsmOp::Label(ts)],
     edge_ops(f, e, c, blk.id, blk.term->then_bb) + seq![AsmOp::Jmp(AsmLabel::Block(blk.term->then_bb)), AsmOp::Label(es)],
     edge_ops(f, e, c, blk.id, blk.term->else_bb),
     seq![AsmOp::Jmp(AsmLabel::Block(blk.term->else_bb))])
}

pub proof fn lemma_edge_plain(f: Function, e: Seq<(VReg, Location)>, c: LowerContext, p: crate::ir::BlockId, s: crate::ir::BlockId)
    ensures
        plain(edge_ops(f, e, c, p, s)),
        label_free(edge_ops(f, e, c, p, s)),
        straight(edge_ops(f, e, c, p, s)),
{
    lemma_seq_moves_plain(crate::moves::real_moves(crate::codegen::edge_moves(f, e, c.args, p, s)), c.s0, c.s1);
}

/// The labels of a terminator: its branch stubs.
pub proof fn lemma_term_labels(f: Function, e: Seq<(VReg, Location)>, c: LowerContext, bi: int, i: int)
    requires
        0 <= bi < f.blocks@.len(),
        0 <= i < term_ops(f, e, c, bi).len(),
        term_ops(f, e, c, bi)[i] is Label,
    ensures
        term_ops(f, e, c, bi)[i] == AsmOp::Label(AsmLabel::ThenStub(bi as u32))
            || term_ops(f, e, c, bi)[i] == AsmOp::Label(AsmLabel::ElseStub(bi as u32)),
{
    let blk = f.blocks@[bi];
    let ops = term_ops(f, e, c, bi);
    match blk.term {
        Terminator::Ret { value } => {
            let rv = read_ops(crate::codegen::loc_of(e, c.args, value), PhysReg::Rax);
            let mv = if rv.1 != PhysReg::Rax { seq![AsmOp::MovRR { dst: PhysReg::Rax, src: rv.1 }] } else { seq![] };
            let tail = (if c.frame_bytes > 0 { seq![AsmOp::AddRsp(c.frame_bytes)] } else { seq![] })
                + seq![AsmOp::PopRbp, AsmOp::Ret];
            assert(label_free(tail));
            lemma_label_free_concat(rv.0, mv);
            lemma_label_free_concat(rv.0 + mv, tail);
        },
        Terminator::Jmp { target } => {
            lemma_edge_plain(f, e, c, blk.id, target);
            lemma_label_free_concat(edge_ops(f, e, c, blk.id, target), seq![AsmOp::Jmp(AsmLabel::Block(target))]);
        },
        Terminator::Br { cond, then_bb, else_bb } => {
            let (a, b, d, g) = branch_parts(f, e, c, bi);
            assert(ops == a + b + d + g);
            lemma_edge_plain(f, e, c, blk.id, then_bb);
            lemma_edge_plain(f, e, c, blk.id, else_bb);
            let rc = read_ops(crate::codegen::loc_of(e, c.args, cond), c.s0);
            if i < a.len() {
                assert(ops[i] == a[i]);
                if i < rc.0.len() { assert(a[i] == rc.0[i]); }
            } else if i < a.len() + b.len() {
                assert(ops[i] == b[i - a.len()]);
                let eo = edge_ops(f, e, c, blk.id, then_bb);
                if i - a.len() < eo.len() { assert(b[i - a.len()] == eo[i - a.len()]); }
            } else if i < a.len() + b.len() + d.len() {
                assert(ops[i] == d[i - a.len() - b.len()]);
            } else {
                assert(ops[i] == g[i - a.len() - b.len() - d.len()]);
            }
        },
    }
}

/// The labels of block `j` are its own.
pub proof fn lemma_block_labels(f: Function, e: Seq<(VReg, Location)>, c: LowerContext, j: int, i: int)
    requires
        0 <= j < f.blocks@.len(),
        f.blocks@[j].insts@.len() <= u32::MAX,
        0 <= i < block_ops(f, e, c, j).len(),
        block_ops(f, e, c, j)[i] is Label,
    ensures
        owned(f, j, block_ops(f, e, c, j)[i]->Label_0),
{
    let lab = seq![AsmOp::Label(AsmLabel::Block(f.blocks@[j].id))];
    let n = f.blocks@[j].insts@.len() as int;
    let body = insts_ops(f, e, c, j, n);
    let t = term_ops(f, e, c, j);
    assert(block_ops(f, e, c, j) == lab + body + t);
    let ops = lab + body + t;
    if i == 0 {
        assert(ops[i] == lab[0]);
    } else if i < 1 + body.len() {
        assert(ops[i] == body[i - 1]);
        lemma_insts_labels(f, e, c, j, n, i - 1);
    } else {
        assert(ops[i] == t[i - 1 - body.len()]);
        lemma_term_labels(f, e, c, j, i - 1 - body.len());
    }
}

/// A label of a block before `k` is owned by that block.
pub proof fn lemma_blocks_labels(f: Function, e: Seq<(VReg, Location)>, c: LowerContext, k: int, i: int) -> (j: int)
    requires
        0 <= k <= f.blocks@.len(),
        forall|q: int| 0 <= q < f.blocks@.len() ==> (#[trigger] f.blocks@[q]).insts@.len() <= u32::MAX,
        0 <= i < blocks_ops(f, e, c, k).len(),
        blocks_ops(f, e, c, k)[i] is Label,
    ensures
        0 <= j < k,
        owned(f, j, blocks_ops(f, e, c, k)[i]->Label_0),
    decreases k,
{
    let a = blocks_ops(f, e, c, k - 1);
    let b = block_ops(f, e, c, k - 1);
    assert(blocks_ops(f, e, c, k) == a + b);
    if i < a.len() {
        assert((a + b)[i] == a[i]);
        lemma_blocks_labels(f, e, c, k - 1, i)
    } else {
        assert((a + b)[i] == b[i - a.len()]);
        assert(f.blocks@[k - 1].insts@.len() <= u32::MAX);
        lemma_block_labels(f, e, c, k - 1, i - a.len());
        k - 1
    }
}

/// The size facts the labels need: block and instruction counts fit a `u32`.
pub open spec fn counts_fit(f: Function) -> bool {
    &&& f.blocks@.len() <= u32::MAX
    &&& forall|q: int| 0 <= q < f.blocks@.len() ==> (#[trigger] f.blocks@[q]).insts@.len() <= u32::MAX
}

/// Before block `s` there is no label that block `s` owns.
pub proof fn lemma_none_before_block(f: Function, e: Seq<(VReg, Location)>, c: LowerContext, s: int, l: AsmLabel, i: int)
    requires
        0 <= s < f.blocks@.len(),
        crate::cfg::ids_distinct(f),
        counts_fit(f),
        owned(f, s, l),
        0 <= i < block_pos(f, e, c, s),
    ensures
        program(f, e, c)[i] != AsmOp::Label(l),
{
    let p = program(f, e, c);
    lemma_program_parts(f, e, c, s);
    lemma_prologue_label_free(c);
    let pl = prologue(c).len() as int;
    if i < pl {
        assert(p[0 + i] == prologue(c)[i]);
    } else if i == pl {
    } else {
        let k = i - pl - 1;
        assert(p[(pl + 1) + k] == blocks_ops(f, e, c, s)[k]);
        if p[i] == AsmOp::Label(l) {
            let j = lemma_blocks_labels(f, e, c, s, k);
            match l {
                AsmLabel::Block(id) => { assert(f.blocks@[j].id != f.blocks@[s].id); },
                _ => {},
            }
        }
    }
}

/// Between the label of block `s` and its instruction `x` there is only a
/// comparison label of an earlier instruction.
pub proof fn lemma_none_in_insts(f: Function, e: Seq<(VReg, Location)>, c: LowerContext, s: int, x: int, l: AsmLabel, i: int)
    requires
        0 <= s < f.blocks@.len(),
        0 <= x <= f.blocks@[s].insts@.len(),
        counts_fit(f),
        !comparison_label_before(l, s, x),
        block_pos(f, e, c, s) < i < inst_pos(f, e, c, s, x),
    ensures
        program(f, e, c)[i] != AsmOp::Label(l),
{
    let p = program(f, e, c);
    let n = f.blocks@[s].insts@.len() as int;
    lemma_program_parts(f, e, c, s);
    lemma_insts_prefix(f, e, c, s, x, n);
    lemma_seg_in(p, block_pos(f, e, c, s) + 1, insts_ops(f, e, c, s, n), 0, insts_ops(f, e, c, s, x));
    let k = i - block_pos(f, e, c, s) - 1;
    assert(p[(block_pos(f, e, c, s) + 1) + k] == insts_ops(f, e, c, s, x)[k]);
    if p[i] == AsmOp::Label(l) {
        assert(f.blocks@[s].insts@.len() <= u32::MAX);
        lemma_insts_labels(f, e, c, s, x, k);
    }
}

/// A jump to block `s` lands on its label.
pub proof fn lemma_target_block(f: Function, e: Seq<(VReg, Location)>, c: LowerContext, s: int)
    requires
        0 <= s < f.blocks@.len(),
        crate::cfg::ids_distinct(f),
        counts_fit(f),
    ensures
        crate::execution::target(program(f, e, c), AsmLabel::Block(f.blocks@[s].id)) == block_pos(f, e, c, s),
{
    let l = AsmLabel::Block(f.blocks@[s].id);
    lemma_program_parts(f, e, c, s);
    assert forall|i: int| 0 <= i < block_pos(f, e, c, s) implies program(f, e, c)[i] != AsmOp::Label(l) by {
        lemma_none_before_block(f, e, c, s, l, i);
    }
    crate::execution::lemma_label_from(program(f, e, c), l, 0, block_pos(f, e, c, s));
}

/// The labels of a comparison land inside it.
pub proof fn lemma_target_compare(f: Function, e: Seq<(VReg, Location)>, c: LowerContext, s: int, x: int)
    requires
        0 <= s < f.blocks@.len(),
        0 <= x < f.blocks@[s].insts@.len(),
        inst_at(f, s, x) is CmpGtI64,
        crate::cfg::ids_distinct(f),
        counts_fit(f),
    ensures
        ({
            let inst = inst_at(f, s, x);
            let ra = read_ops(crate::codegen::loc_of(e, c.args, inst->CmpGtI64_a), c.s0);
            let rb = read_ops(crate::codegen::loc_of(e, c.args, inst->CmpGtI64_b), c.s1);
            let q = inst_pos(f, e, c, s, x) + ra.0.len() + rb.0.len();
            &&& crate::execution::target(program(f, e, c), AsmLabel::CmpTrue(s as u32, x as u32)) == q + 4
            &&& crate::execution::target(program(f, e, c), AsmLabel::CmpDone(s as u32, x as u32)) == q + 6
        }),
{
    let p = program(f, e, c);
    let inst = inst_at(f, s, x);
    let dst = inst->CmpGtI64_dst;
    let ra = read_ops(crate::codegen::loc_of(e, c.args, inst->CmpGtI64_a), c.s0);
    let rb = read_ops(crate::codegen::loc_of(e, c.args, inst->CmpGtI64_b), c.s1);
    let wr = write_ops(crate::codegen::loc_of(e, c.args, dst), c.s0);
    let mid = compare_mid(c, s, x, ra.1, rb.1);
    let q0 = inst_pos(f, e, c, s, x);
    let q = q0 + ra.0.len() + rb.0.len();
    lemma_inst_place(f, e, c, s, x);
    assert(inst_ops(e, c, s, x, inst) == ra.0 + rb.0 + mid + wr);
    let ops = ra.0 + rb.0 + mid + wr;
    lemma_program_parts(f, e, c, s);
    let lt = AsmLabel::CmpTrue(s as u32, x as u32);
    let ld = AsmLabel::CmpDone(s as u32, x as u32);
    assert(f.blocks@[s].insts@.len() <= u32::MAX);
    assert(x as u32 == x);
    assert forall|i: int| 0 <= i < q + 6 implies #[trigger] p[i] != AsmOp::Label(ld) && (i < q + 4 ==> p[i] != AsmOp::Label(lt)) by {
        if i < block_pos(f, e, c, s) {
            lemma_none_before_block(f, e, c, s, ld, i);
            lemma_none_before_block(f, e, c, s, lt, i);
        } else if i == block_pos(f, e, c, s) {
            assert(p[block_pos(f, e, c, s)] == AsmOp::Label(AsmLabel::Block(f.blocks@[s].id)));
        } else if i < q0 {
            lemma_none_in_insts(f, e, c, s, x, ld, i);
            lemma_none_in_insts(f, e, c, s, x, lt, i);
        } else {
            let k = i - q0;
            assert(p[q0 + k] == ops[k]);
            if k < ra.0.len() {
                assert(ops[k] == ra.0[k]);
            } else if k < ra.0.len() + rb.0.len() {
                assert(ops[k] == rb.0[k - ra.0.len()]);
            } else {
                assert(ops[k] == mid[k - ra.0.len() - rb.0.len()]);
            }
        }
    }
    assert(p[q0 + (ra.0.len() + rb.0.len() + 4)] == ops[(ra.0.len() + rb.0.len() + 4) as int]);
    assert(p[q0 + (ra.0.len() + rb.0.len() + 6)] == ops[(ra.0.len() + rb.0.len() + 6) as int]);
    crate::execution::lemma_label_from(p, lt, 0, q + 4);
    crate::execution::lemma_label_from(p, ld, 0, q + 6);
}

/// The stub labels of a branch land inside its terminator.
pub proof fn lemma_target_stubs(f: Function, e: Seq<(VReg, Location)>, c: LowerContext, s: int)
    requires
        0 <= s < f.blocks@.len(),
        f.blocks@[s].term is Br,
        crate::cfg::ids_distinct(f),
        counts_fit(f),
    ensures
        ({
            let (a, b, d, g) = branch_parts(f, e, c, s);
            &&& term_ops(f, e, c, s) == a + b + d + g
            &&& crate::execution::target(program(f, e, c), AsmLabel::ThenStub(s as u32)) == term_pos(f, e, c, s) + a.len() - 1
            &&& crate::execution::target(program(f, e, c), AsmLabel::ElseStub(s as u32))
                == term_pos(f, e, c, s) + a.len() + b.len() - 1
        }),
{
    let p = program(f, e, c);
    let blk = f.blocks@[s];
    let (a, b, d, g) = branch_parts(f, e, c, s);
    let ops = a + b + d + g;
    assert(term_ops(f, e, c, s) == ops);
    let q0 = term_pos(f, e, c, s);
    let n = blk.insts@.len() as int;
    lemma_program_parts(f, e, c, s);
    let lt = AsmLabel::ThenStub(s as u32);
    let le = AsmLabel::ElseStub(s as u32);
    let rc = read_ops(crate::codegen::loc_of(e, c.args, blk.term->Br_cond), c.s0);
    let eo = edge_ops(f, e, c, blk.id, blk.term->then_bb);
    lemma_edge_plain(f, e, c, blk.id, blk.term->then_bb);
    assert forall|i: int| 0 <= i < q0 + a.len() + b.len() - 1 implies #[trigger] p[i] != AsmOp::Label(le)
        && (i < q0 + a.len() - 1 ==> p[i] != AsmOp::Label(lt)) by {
        if i < block_pos(f, e, c, s) {
            lemma_none_before_block(f, e, c, s, le, i);
            lemma_none_before_block(f, e, c, s, lt, i);
        } else if i == block_pos(f, e, c, s) {
            assert(p[block_pos(f, e, c, s)] == AsmOp::Label(AsmLabel::Block(blk.id)));
        } else if i < q0 {
            lemma_none_in_insts(f, e, c, s, n, le, i);
            lemma_none_in_insts(f, e, c, s, n, lt, i);
        } else {
            let k = i - q0;
            assert(p[q0 + k] == ops[k]);
            if k < a.len() {
                assert(ops[k] == a[k]);
                if k < rc.0.len() { assert(a[k] == rc.0[k]); }
            } else {
                assert(ops[k] == b[k - a.len()]);
                if k - a.len() < eo.len() { assert(b[k - a.len()] == eo[k - a.len()]); }
            }
        }
    }
    assert(p[q0 + (a.len() - 1)] == ops[a.len() - 1]);
    assert(p[q0 + (a.len() + b.len() - 1)] == ops[a.len() + b.len() - 1]);
    crate::execution::lemma_label_from(p, lt, 0, q0 + a.len() - 1);
    crate::execution::lemma_label_from(p, le, 0, q0 + a.len() + b.len() - 1);
}

pub proof fn lemma_straight_concat(a: Seq<AsmOp>, b: Seq<AsmOp>)
    requires
        straight(a),
        straight(b),
    ensures
        straight(a + b),
{
    assert forall|i: int| 0 <= i < (a + b).len() implies !(#[trigger] (a + b)[i] is Cmp) && !((a + b)[i] is Test)
        && !((a + b)[i] is Jg) && !((a + b)[i] is Jnz) && !((a + b)[i] is Jmp) && !((a + b)[i] is Ret) by {
        if i < a.len() { assert((a + b)[i] == a[i]); } else { assert((a + b)[i] == b[i - a.len()]); }
    }
}

/// The instructions of a non-comparison run straight through.
pub proof fn lemma_inst_straight(e: Seq<(VReg, Location)>, c: LowerContext, bi: int, x: int, inst: Inst)
    requires
        !(inst is CmpGtI64),
    ensures
        straight(inst_ops(e, c, bi, x, inst)),
{
    match inst {
        Inst::ConstI64 { dst, imm } => {
            let d = crate::codegen::result_reg(e, dst, c.s0);
            lemma_straight_concat(seq![AsmOp::MovRI { dst: d, imm }], write_ops(crate::codegen::loc_of(e, c.args, dst), d));
        },
        Inst::ArgI64 { dst, idx } => {
            lemma_straight_concat(seq![AsmOp::Load { dst: c.s0, slot: idx.0 }],
                write_ops(crate::codegen::loc_of(e, c.args, dst), c.s0));
        },
        Inst::MovI64 { dst, src } => {
            let rs = read_ops(crate::codegen::loc_of(e, c.args, src), c.s0);
            lemma_straight_concat(rs.0, write_ops(crate::codegen::loc_of(e, c.args, dst), rs.1));
        },
        Inst::AddI64 { dst, a, b } => { lemma_arith_straight(e, c, dst, a, b, false); },
        Inst::MulI64 { dst, a, b } => { lemma_arith_straight(e, c, dst, a, b, true); },
        _ => {},
    }
}

proof fn lemma_arith_straight(e: Seq<(VReg, Location)>, c: LowerContext, dst: VReg, a: VReg, b: VReg, mul: bool)
    ensures
        straight(arith_ops(e, c, dst, a, b, mul)),
{
    let d = crate::codegen::result_reg(e, dst, c.s0);
    let ra = read_ops(crate::codegen::loc_of(e, c.args, a), d);
    let mv = if ra.1 != d { seq![AsmOp::MovRR { dst: d, src: ra.1 }] } else { seq![] };
    let rb = read_ops(crate::codegen::loc_of(e, c.args, b), c.s1);
    let op = if mul { AsmOp::Imul { dst: d, src: rb.1 } } else { AsmOp::Add { dst: d, src: rb.1 } };
    let wr = write_ops(crate::codegen::loc_of(e, c.args, dst), d);
    lemma_straight_concat(ra.0, mv);
    lemma_straight_concat(ra.0 + mv, rb.0);
    lemma_straight_concat(ra.0 + mv + rb.0, seq![op]);
    lemma_straight_concat(ra.0 + mv + rb.0 + seq![op], wr);
}

pub proof fn lemma_prologue_straight(c: LowerContext)
    ensures
        straight(prologue(c)),
{
    lemma_arg_stores_straight(c.args as int);
    let head = seq![AsmOp::PushRbp, AsmOp::MovRbpRsp]
        + (if c.frame_bytes > 0 { seq![AsmOp::SubRsp(c.frame_bytes)] } else { seq![] });
    assert(straight(head));
    lemma_straight_concat(head, arg_stores(c.args as int));
}

proof fn lemma_arg_stores_straight(k: int)
    ensures
        straight(arg_stores(k)),
    decreases k,
{
    if k > 0 {
        lemma_arg_stores_straight(k - 1);
        let op = AsmOp::Store { slot: (k - 1) as u32, src: crate::codegen::arg_register(k - 1) };
        assert(arg_stores(k - 1).push(op) =~= arg_stores(k - 1) + seq![op]);
        lemma_straight_concat(arg_stores(k - 1), seq![op]);
    }
}

} // verus!
