//! Running a lowered program with its labels and jumps: a program counter,
//! the registers and frame slots of `moves::run`, and the two condition flags
//! the lowering uses (greater after a compare, non-zero after a test).
use vstd::prelude::*;
use crate::moves::{AsmOp, AsmLabel, MState, run, step};

verus! {

/// The program counter, the registers and frame slots, the "greater" flag and
/// the "non-zero" flag.
pub type Config = (int, MState, bool, bool);

/// The position of the first `Label(l)` at or after `i`, or -1.
pub open spec fn label_from(ops: Seq<AsmOp>, l: AsmLabel, i: int) -> int
    decreases ops.len() - i,
{
    if i < 0 || i >= ops.len() {
        -1
    } else if ops[i] == AsmOp::Label(l) {
        i
    } else {
        label_from(ops, l, i + 1)
    }
}

/// Where a jump to `l` goes: the first `Label(l)`.
pub open spec fn target(ops: Seq<AsmOp>, l: AsmLabel) -> int {
    label_from(ops, l, 0)
}

/// One instruction: a compare sets the "greater" flag (signed), a test the
/// "non-zero" flag, jumps go to their label, and the others change the
/// registers and slots as `moves::step` does and fall through.
pub open spec fn cstep(ops: Seq<AsmOp>, c: Config) -> Config {
    let pc = c.0;
    let st = c.1;
    match ops[pc] {
        AsmOp::Cmp { a, b } => (pc + 1, st, (st.0)(a) > (st.0)(b), c.3),
        AsmOp::Test { a } => (pc + 1, st, c.2, (st.0)(a) != 0),
        AsmOp::Jg(l) => if c.2 { (target(ops, l), st, c.2, c.3) } else { (pc + 1, st, c.2, c.3) },
        AsmOp::Jnz(l) => if c.3 { (target(ops, l), st, c.2, c.3) } else { (pc + 1, st, c.2, c.3) },
        AsmOp::Jmp(l) => (target(ops, l), st, c.2, c.3),
        _ => (pc + 1, step(ops[pc], st), c.2, c.3),
    }
}

/// The program is still going: the counter is inside it and not at a return.
pub open spec fn running(ops: Seq<AsmOp>, c: Config) -> bool {
    0 <= c.0 < ops.len() && !(ops[c.0] is Ret)
}

/// The program has stopped at a return.
pub open spec fn returned(ops: Seq<AsmOp>, c: Config) -> bool {
    0 <= c.0 < ops.len() && ops[c.0] is Ret
}

/// At most `k` instructions from `c`.
pub open spec fn exec(ops: Seq<AsmOp>, c: Config, k: nat) -> Config
    decreases k,
{
    if k == 0 || !running(ops, c) {
        c
    } else {
        exec(ops, cstep(ops, c), (k - 1) as nat)
    }
}

/// Running from `c1` gets to `c2`.
pub open spec fn reaches(ops: Seq<AsmOp>, c1: Config, c2: Config) -> bool {
    exists|k: nat| exec(ops, c1, k) == c2
}

/// `seg` stands in `ops` from position `pc`.
pub open spec fn seg_at(ops: Seq<AsmOp>, pc: int, seg: Seq<AsmOp>) -> bool {
    &&& 0 <= pc
    &&& pc + seg.len() <= ops.len()
    &&& forall|i: int| 0 <= i < seg.len() ==> ops[pc + i] == #[trigger] seg[i]
}

/// No instruction of `seg` jumps, compares, tests or returns.
pub open spec fn straight(seg: Seq<AsmOp>) -> bool {
    forall|i: int| 0 <= i < seg.len() ==> !(#[trigger] seg[i] is Cmp) && !(seg[i] is Test) && !(seg[i] is Jg)
        && !(seg[i] is Jnz) && !(seg[i] is Jmp) && !(seg[i] is Ret)
}

pub proof fn lemma_exec_add(ops: Seq<AsmOp>, c: Config, a: nat, b: nat)
    ensures
        exec(ops, c, a + b) == exec(ops, exec(ops, c, a), b),
    decreases a,
{
    if a > 0 && running(ops, c) {
        lemma_exec_add(ops, cstep(ops, c), (a - 1) as nat, b);
        assert((a + b - 1) as nat == (a - 1) as nat + b);
    } else if a > 0 {
        assert(exec(ops, c, b) == c) by {
            if b > 0 {}
        }
        assert(exec(ops, c, a + b) == c);
    }
}

pub proof fn lemma_reaches_trans(ops: Seq<AsmOp>, c1: Config, c2: Config, c3: Config)
    requires
        reaches(ops, c1, c2),
        reaches(ops, c2, c3),
    ensures
        reaches(ops, c1, c3),
{
    let k1 = choose|k: nat| exec(ops, c1, k) == c2;
    let k2 = choose|k: nat| exec(ops, c2, k) == c3;
    lemma_exec_add(ops, c1, k1, k2);
    assert(exec(ops, c1, k1 + k2) == c3);
}

pub proof fn lemma_reaches_step(ops: Seq<AsmOp>, c: Config)
    requires
        running(ops, c),
    ensures
        reaches(ops, c, cstep(ops, c)),
{
    assert(exec(ops, cstep(ops, c), 0) == cstep(ops, c));
    assert(exec(ops, c, 1) == cstep(ops, c));
}

pub proof fn lemma_reaches_refl(ops: Seq<AsmOp>, c: Config)
    ensures
        reaches(ops, c, c),
{
    assert(exec(ops, c, 0) == c);
}

/// A straight stretch runs as `moves::run` runs it and falls through.
pub proof fn lemma_exec_straight(ops: Seq<AsmOp>, pc: int, seg: Seq<AsmOp>, st: MState, g: bool, z: bool)
    requires
        seg_at(ops, pc, seg),
        straight(seg),
    ensures
        reaches(ops, (pc, st, g, z), (pc + seg.len(), run(seg, st), g, z)),
    decreases seg.len(),
{
    if seg.len() == 0 {
        lemma_reaches_refl(ops, (pc, st, g, z));
    } else {
        let op = seg[0];
        assert(ops[pc + 0] == op);
        assert(running(ops, (pc, st, g, z)));
        assert(cstep(ops, (pc, st, g, z)) == (pc + 1, step(op, st), g, z));
        lemma_reaches_step(ops, (pc, st, g, z));
        let rest = seg.drop_first();
        assert forall|i: int| 0 <= i < rest.len() implies ops[pc + 1 + i] == #[trigger] rest[i] by {
            assert(rest[i] == seg[i + 1]);
        }
        assert forall|i: int| 0 <= i < rest.len() implies !(#[trigger] rest[i] is Cmp) && !(rest[i] is Test)
            && !(rest[i] is Jg) && !(rest[i] is Jnz) && !(rest[i] is Jmp) && !(rest[i] is Ret) by {
            assert(rest[i] == seg[i + 1]);
        }
        lemma_exec_straight(ops, pc + 1, rest, step(op, st), g, z);
        lemma_reaches_trans(ops, (pc, st, g, z), (pc + 1, step(op, st), g, z),
            (pc + 1 + rest.len(), run(rest, step(op, st)), g, z));
    }
}

/// A label found at `q` with none before it from `i` is where `label_from` goes.
pub proof fn lemma_label_from(ops: Seq<AsmOp>, l: AsmLabel, i: int, q: int)
    requires
        0 <= i <= q < ops.len(),
        ops[q] == AsmOp::Label(l),
        forall|j: int| i <= j < q ==> ops[j] != AsmOp::Label(l),
    ensures
        label_from(ops, l, i) == q,
    decreases q - i,
{
    if i < q {
        lemma_label_from(ops, l, i + 1, q);
    }
}

/// Pieces of a stretch stand where the stretch stands.
pub proof fn lemma_seg_split(ops: Seq<AsmOp>, pc: int, a: Seq<AsmOp>, b: Seq<AsmOp>)
    requires
        seg_at(ops, pc, a + b),
    ensures
        seg_at(ops, pc, a),
        seg_at(ops, pc + a.len(), b),
{
    assert forall|i: int| 0 <= i < a.len() implies ops[pc + i] == #[trigger] a[i] by {
        assert((a + b)[i] == a[i]);
    }
    assert forall|i: int| 0 <= i < b.len() implies ops[pc + a.len() + i] == #[trigger] b[i] by {
        assert((a + b)[a.len() + i] == b[i]);
    }
}

} // verus!
