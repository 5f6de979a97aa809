//! What the straight stretches of a lowered program do to the registers and
//! frame slots: instructions that touch neither, and the prologue.
use vstd::prelude::*;
use crate::moves::{MoveLoc, AsmOp, MState, val, run, step, lemma_run_append, lemma_run_single};
use crate::codegen::{LowerContext, arg_register, arg_stores, prologue};

verus! {

/// An instruction that changes no register and no frame slot leaves the state alone.
proof fn lemma_run_idle(ops: Seq<AsmOp>, st: MState)
    requires
        forall|i: int| 0 <= i < ops.len() ==> step(#[trigger] ops[i], st) == st,
    ensures
        run(ops, st) == st,
    decreases ops.len(),
{
    if ops.len() > 0 {
        assert forall|i: int| 0 <= i < ops.drop_first().len() implies step(#[trigger] ops.drop_first()[i], st) == st by {
            assert(ops.drop_first()[i] == ops[i + 1]);
        }
        lemma_run_idle(ops.drop_first(), step(ops[0], st));
    }
}

/// What the first `k` argument stores leave at `l`: argument register `q` in
/// shadow slot `q`, and the old value everywhere else.
pub open spec fn after_arg_stores(st: MState, k: int, l: MoveLoc) -> i64 {
    match l {
        MoveLoc::Frame(q) => if q < k { val(st, MoveLoc::Reg(arg_register(q as int))) } else { val(st, l) },
        MoveLoc::Reg(_) => val(st, l),
    }
}

/// The argument stores put argument register `i` in shadow slot `i` and
/// change nothing else.
proof fn lemma_arg_stores(k: int, st: MState)
    requires
        0 <= k <= u32::MAX,
    ensures
        forall|l: MoveLoc| #[trigger] val(run(arg_stores(k), st), l) == after_arg_stores(st, k, l),
    decreases k,
{
    if k > 0 {
        lemma_arg_stores(k - 1, st);
        let op = AsmOp::Store { slot: (k - 1) as u32, src: arg_register(k - 1) };
        assert(arg_stores(k) =~= arg_stores(k - 1) + seq![op]);
        lemma_run_append(arg_stores(k - 1), seq![op], st);
        let s1 = run(arg_stores(k - 1), st);
        lemma_run_single(op, s1);
        assert forall|l: MoveLoc| #[trigger] val(run(arg_stores(k), st), l) == after_arg_stores(st, k, l) by {
            assert(val(s1, MoveLoc::Reg(arg_register(k - 1))) == after_arg_stores(st, k - 1, MoveLoc::Reg(arg_register(k - 1))));
            assert(val(s1, l) == after_arg_stores(st, k - 1, l));
        }
    } else {
        assert forall|l: MoveLoc| #[trigger] val(run(arg_stores(k), st), l) == after_arg_stores(st, k, l) by {
            match l { MoveLoc::Frame(q) => {}, MoveLoc::Reg(_) => {} }
        }
    }
}

/// The prologue stores the argument registers in the shadow slots and changes
/// nothing else.
pub proof fn lemma_prologue(c: LowerContext, st: MState)
    ensures
        forall|l: MoveLoc| #[trigger] val(run(prologue(c), st), l) == after_arg_stores(st, c.args as int, l),
{
    let head = seq![AsmOp::PushRbp, AsmOp::MovRbpRsp]
        + (if c.frame_bytes > 0 { seq![AsmOp::SubRsp(c.frame_bytes)] } else { seq![] });
    assert forall|i: int| 0 <= i < head.len() implies step(#[trigger] head[i], st) == st by {}
    lemma_run_idle(head, st);
    lemma_run_append(head, arg_stores(c.args as int), st);
    lemma_arg_stores(c.args as int, st);
}


/// Instructions that are no move, constant, load, store, addition or
/// multiplication leave the registers and slots alone.
pub proof fn lemma_run_idle_pub(ops: Seq<AsmOp>, st: MState)
    requires
        forall|i: int| 0 <= i < ops.len() ==> !(#[trigger] ops[i] is MovRR) && !(ops[i] is MovRI) && !(ops[i] is Load)
            && !(ops[i] is Store) && !(ops[i] is Add) && !(ops[i] is Imul),
    ensures
        run(ops, st) == st,
{
    assert forall|i: int| 0 <= i < ops.len() implies step(#[trigger] ops[i], st) == st by {}
    lemma_run_idle(ops, st);
}

} // verus!
