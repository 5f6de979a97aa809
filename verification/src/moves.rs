//! Sequentialising parallel moves between registers and stack slots, with one
//! scratch register to break cycles and another to stage stack-to-stack moves.
use vstd::prelude::*;
use crate::regalloc::{PhysReg, StackSlot};

verus! {

/// Where a move reads or writes: a register, or a frame slot (counted from the
/// frame pointer down, the argument shadow area first).
#[derive(Debug, Clone, Copy, PartialEq, Eq, Structural)]
pub enum MoveLoc {
    Reg(PhysReg),
    Frame(u32),
}

/// A label of the emitted code.
#[derive(Debug, Clone, Copy, PartialEq, Eq, Structural)]
pub enum AsmLabel {
    /// The start of the block with this id.
    Block(crate::ir::BlockId),
    /// The "greater" path of a comparison (block position, instruction index).
    CmpTrue(u32, u32),
    /// The join after a comparison.
    CmpDone(u32, u32),
    /// The taken edge of a branch (block position).
    ThenStub(u32),
    /// The fall-back edge of a branch.
    ElseStub(u32),
}

/// An x86-64 instruction as the emitter asks the assembler for it. Frame slot
/// `k` is the quadword at `rbp - 8 * (k + 1)`.
#[derive(Debug, Clone, Copy, PartialEq, Eq, Structural)]
pub enum AsmOp {
    PushRbp,
    MovRbpRsp,
    SubRsp(i32),
    AddRsp(i32),
    PopRbp,
    Ret,
    MovRR { dst: PhysReg, src: PhysReg },
    MovRI { dst: PhysReg, imm: i64 },
    Load { dst: PhysReg, slot: u32 },
    Store { slot: u32, src: PhysReg },
    Add { dst: PhysReg, src: PhysReg },
    Imul { dst: PhysReg, src: PhysReg },
    Cmp { a: PhysReg, b: PhysReg },
    Test { a: PhysReg },
    Jg(AsmLabel),
    Jnz(AsmLabel),
    Jmp(AsmLabel),
    Label(AsmLabel),
}

// ---------------------------------------------------------------------------
// What a move sequence does to registers and frame slots.

/// Registers and frame slots.
pub type MState = (spec_fn(PhysReg) -> i64, spec_fn(int) -> i64);

/// The value at a location.
pub open spec fn val(st: MState, l: MoveLoc) -> i64 {
    match l {
        MoveLoc::Reg(r) => (st.0)(r),
        MoveLoc::Frame(k) => (st.1)(k as int),
    }
}

/// The state after writing `x` to register `r`.
pub open spec fn set_reg(st: MState, r: PhysReg, x: i64) -> MState {
    (|q: PhysReg| if q == r { x } else { (st.0)(q) }, st.1)
}

/// The state after writing `x` to frame slot `k`.
pub open spec fn set_slot(st: MState, k: int, x: i64) -> MState {
    (st.0, |q: int| if q == k { x } else { (st.1)(q) })
}

/// One instruction on the registers and frame slots: moves, constants,
/// loads, stores, additions and multiplications (both wrapping) change them;
/// frame set-up, comparisons, jumps and labels leave them alone.
pub open spec fn step(op: AsmOp, st: MState) -> MState {
    match op {
        AsmOp::MovRR { dst, src } => set_reg(st, dst, (st.0)(src)),
        AsmOp::MovRI { dst, imm } => set_reg(st, dst, imm),
        AsmOp::Add { dst, src } => set_reg(st, dst, (st.0)(dst).wrapping_add((st.0)(src))),
        AsmOp::Imul { dst, src } => set_reg(st, dst, (st.0)(dst).wrapping_mul((st.0)(src))),
        AsmOp::Load { dst, slot } => set_reg(st, dst, (st.1)(slot as int)),
        AsmOp::Store { slot, src } => set_slot(st, slot as int, (st.0)(src)),
        _ => st,
    }
}

/// Runs instructions in order.
pub open spec fn run(ops: Seq<AsmOp>, st: MState) -> MState
    decreases ops.len(),
{
    if ops.len() == 0 {
        st
    } else {
        run(ops.drop_first(), step(ops[0], st))
    }
}

pub proof fn lemma_run_single(op: AsmOp, st: MState)
    ensures
        run(seq![op], st) == step(op, st),
{
    assert(seq![op].drop_first() =~= Seq::<AsmOp>::empty());
    assert(run(Seq::<AsmOp>::empty(), step(op, st)) == step(op, st));
}

pub proof fn lemma_run_append(a: Seq<AsmOp>, b: Seq<AsmOp>, st: MState)
    ensures
        run(a + b, st) == run(b, run(a, st)),
    decreases a.len(),
{
    if a.len() > 0 {
        assert((a + b).drop_first() =~= a.drop_first() + b);
        assert((a + b)[0] == a[0]);
        lemma_run_append(a.drop_first(), b, step(a[0], st));
    } else {
        assert(a + b =~= b);
    }
}

// ---------------------------------------------------------------------------
// The sequentialisation.

/// Reading a location into a register: a register is read in place, a frame
/// slot is loaded into `temp`.
pub open spec fn read_ops(src: MoveLoc, temp: PhysReg) -> (Seq<AsmOp>, PhysReg) {
    match src {
        MoveLoc::Reg(r) => (seq![], r),
        MoveLoc::Frame(k) => (seq![AsmOp::Load { dst: temp, slot: k }], temp),
    }
}

/// Writing a register to a location (nothing when it is that register).
pub open spec fn write_ops(dst: MoveLoc, src: PhysReg) -> Seq<AsmOp> {
    match dst {
        MoveLoc::Reg(r) => if r == src { seq![] } else { seq![AsmOp::MovRR { dst: r, src }] },
        MoveLoc::Frame(k) => seq![AsmOp::Store { slot: k, src }],
    }
}

/// Saving the value at `d` in `t1`.
pub open spec fn save_ops(d: MoveLoc, t1: PhysReg) -> Seq<AsmOp> {
    let old = read_ops(d, t1);
    if old.1 == t1 { old.0 } else { old.0.push(AsmOp::MovRR { dst: t1, src: old.1 }) }
}

/// No pending move reads location `l`.
pub open spec fn not_read(moves: Seq<(MoveLoc, MoveLoc)>, l: MoveLoc) -> bool {
    forall|j: int| 0 <= j < moves.len() ==> (#[trigger] moves[j]).1 != l
}

/// The first move whose destination no pending move reads, or -1.
pub open spec fn first_free(moves: Seq<(MoveLoc, MoveLoc)>, from: int) -> int
    decreases moves.len() - from,
{
    if from >= moves.len() || from < 0 {
        -1
    } else if not_read(moves, moves[from].0) {
        from
    } else {
        first_free(moves, from + 1)
    }
}

/// The moves with every source `l` read from `r` instead.
pub open spec fn redirect(moves: Seq<(MoveLoc, MoveLoc)>, l: MoveLoc, r: PhysReg) -> Seq<(MoveLoc, MoveLoc)> {
    moves.map_values(|m: (MoveLoc, MoveLoc)| if m.1 == l { (m.0, MoveLoc::Reg(r)) } else { m })
}

/// The sequence of instructions for the pending moves: a move whose
/// destination nothing reads goes first; when every destination is still read
/// (a cycle), the first destination is saved in `t1`, overwritten, and the
/// moves that read it read `t1` instead. A source in a frame slot is loaded
/// into `t2`, so `t1` keeps what it holds.
pub open spec fn seq_moves(moves: Seq<(MoveLoc, MoveLoc)>, t1: PhysReg, t2: PhysReg) -> Seq<AsmOp>
    decreases moves.len(),
{
    if moves.len() == 0 {
        seq![]
    } else {
        let i = first_free(moves, 0);
        if 0 <= i < moves.len() {
            let (d, s) = moves[i];
            let rd = read_ops(s, t2);
            rd.0 + write_ops(d, rd.1) + seq_moves(moves.remove(i), t1, t2)
        } else {
            let (d, s) = moves[0];
            let rd = read_ops(s, t2);
            save_ops(d, t1) + rd.0 + write_ops(d, rd.1) + seq_moves(redirect(moves.remove(0), d, t1), t1, t2)
        }
    }
}

/// Some pending move reads register `r`.
pub open spec fn reads_reg(moves: Seq<(MoveLoc, MoveLoc)>, r: PhysReg) -> bool {
    exists|j: int| 0 <= j < moves.len() && (#[trigger] moves[j]).1 == MoveLoc::Reg(r)
}

/// The moves are well formed for sequentialising: distinct destinations, no
/// move onto itself, and the two scratch registers distinct and untouched by
/// the moves (read only through redirection).
pub open spec fn moves_ok(moves: Seq<(MoveLoc, MoveLoc)>, t1: PhysReg, t2: PhysReg) -> bool {
    &&& t1 != t2
    &&& forall|i: int, j: int| 0 <= i < j < moves.len() ==> moves[i].0 != moves[j].0
    &&& forall|i: int| 0 <= i < moves.len() ==> (#[trigger] moves[i]).0 != moves[i].1
    &&& forall|i: int| 0 <= i < moves.len() ==> (#[trigger] moves[i]).0 != MoveLoc::Reg(t1) && moves[i].0 != MoveLoc::Reg(t2)
    &&& forall|i: int| 0 <= i < moves.len() ==> (#[trigger] moves[i]).1 != MoveLoc::Reg(t2)
}

/// What the moves achieve from `st`: each destination holds its source's value,
/// every other location is unchanged.
pub open spec fn moved(moves: Seq<(MoveLoc, MoveLoc)>, st: MState, l: MoveLoc) -> i64 {
    if exists|i: int| 0 <= i < moves.len() && (#[trigger] moves[i]).0 == l {
        let i = choose|i: int| 0 <= i < moves.len() && (#[trigger] moves[i]).0 == l;
        val(st, moves[i].1)
    } else {
        val(st, l)
    }
}

pub proof fn lemma_first_free(moves: Seq<(MoveLoc, MoveLoc)>, from: int)
    requires
        0 <= from,
    ensures
        -1 <= first_free(moves, from) < moves.len(),
        first_free(moves, from) >= 0 ==> first_free(moves, from) >= from && not_read(moves, moves[first_free(moves, from)].0),
    decreases moves.len() - from,
{
    if from < moves.len() && !not_read(moves, moves[from].0) {
        lemma_first_free(moves, from + 1);
    }
}

/// With distinct destinations, the move onto `l` is the one at position `i`.
pub proof fn lemma_moved_at(moves: Seq<(MoveLoc, MoveLoc)>, st: MState, i: int)
    requires
        forall|a: int, b: int| 0 <= a < b < moves.len() ==> moves[a].0 != moves[b].0,
        0 <= i < moves.len(),
    ensures
        moved(moves, st, moves[i].0) == val(st, moves[i].1),
{
    let l = moves[i].0;
    assert(exists|j: int| 0 <= j < moves.len() && (#[trigger] moves[j]).0 == l);
    let j = choose|j: int| 0 <= j < moves.len() && (#[trigger] moves[j]).0 == l;
    if j != i {
        if j < i { assert(moves[j].0 != moves[i].0); } else { assert(moves[i].0 != moves[j].0); }
    }
}

pub proof fn lemma_moved_none(moves: Seq<(MoveLoc, MoveLoc)>, st: MState, l: MoveLoc)
    requires
        forall|j: int| 0 <= j < moves.len() ==> (#[trigger] moves[j]).0 != l,
    ensures
        moved(moves, st, l) == val(st, l),
{
}

/// Reading a location: the register holds its value; only `temp` may change.
pub proof fn lemma_read(src: MoveLoc, temp: PhysReg, st: MState)
    ensures
        (run(read_ops(src, temp).0, st).0)(read_ops(src, temp).1) == val(st, src),
        forall|l: MoveLoc| l != MoveLoc::Reg(temp) ==> val(run(read_ops(src, temp).0, st), l) == val(st, l),
        src is Reg ==> run(read_ops(src, temp).0, st) == st,
{
    match src {
        MoveLoc::Reg(r) => {},
        MoveLoc::Frame(k) => {
            lemma_run_single(AsmOp::Load { dst: temp, slot: k }, st);
            let st1 = step(AsmOp::Load { dst: temp, slot: k }, st);
            assert forall|l: MoveLoc| l != MoveLoc::Reg(temp) implies val(st1, l) == val(st, l) by {
                match l { MoveLoc::Reg(q) => {}, MoveLoc::Frame(k2) => {} }
            }
        },
    }
}

/// Writing a register to a location changes that location only.
pub proof fn lemma_write(dst: MoveLoc, src: PhysReg, st: MState)
    ensures
        val(run(write_ops(dst, src), st), dst) == (st.0)(src),
        forall|l: MoveLoc| l != dst ==> val(run(write_ops(dst, src), st), l) == val(st, l),
{
    let ops = write_ops(dst, src);
    match dst {
        MoveLoc::Reg(r) => {
            if r != src {
                lemma_run_single(AsmOp::MovRR { dst: r, src }, st);
                assert forall|l: MoveLoc| l != dst implies val(run(ops, st), l) == val(st, l) by {
                    match l { MoveLoc::Reg(q) => {}, MoveLoc::Frame(k) => {} }
                }
            }
        },
        MoveLoc::Frame(k) => {
            lemma_run_single(AsmOp::Store { slot: k, src }, st);
            assert forall|l: MoveLoc| l != dst implies val(run(ops, st), l) == val(st, l) by {
                match l { MoveLoc::Reg(q) => {}, MoveLoc::Frame(k2) => {} }
            }
        },
    }
}

/// `p` lists pending moves, the first reading `l` and each later one reading
/// the destination of the one before.
pub open spec fn read_chain(moves: Seq<(MoveLoc, MoveLoc)>, l: MoveLoc, p: Seq<int>) -> bool {
    &&& p.len() > 0
    &&& forall|j: int| 0 <= j < p.len() ==> 0 <= #[trigger] p[j] < moves.len()
    &&& moves[p[0]].1 == l
    &&& forall|j: int| 0 <= j < p.len() - 1 ==> moves[#[trigger] p[j + 1]].1 == moves[p[j]].0
}

proof fn lemma_first_free_none(moves: Seq<(MoveLoc, MoveLoc)>, from: int, i: int)
    requires
        0 <= from <= i < moves.len(),
        first_free(moves, from) == -1,
    ensures
        !not_read(moves, moves[i].0),
    decreases i - from,
{
    if from < i {
        lemma_first_free_none(moves, from + 1, i);
    }
}

/// When every destination is read, a chain from a move that reads `l` can be
/// made as long as wanted.
proof fn lemma_long_chain(moves: Seq<(MoveLoc, MoveLoc)>, l: MoveLoc, j0: int, k: nat) -> (p: Seq<int>)
    requires
        0 <= j0 < moves.len(),
        moves[j0].1 == l,
        first_free(moves, 0) == -1,
    ensures
        read_chain(moves, l, p),
        p.len() == k + 1,
    decreases k,
{
    if k == 0 {
        seq![j0]
    } else {
        let q = lemma_long_chain(moves, l, j0, (k - 1) as nat);
        let last = q[q.len() - 1];
        lemma_first_free_none(moves, 0, last);
        let j = choose|j: int| 0 <= j < moves.len() && (#[trigger] moves[j]).1 == moves[last].0;
        let p = q.push(j);
        assert forall|x: int| 0 <= x < p.len() - 1 implies moves[#[trigger] p[x + 1]].1 == moves[p[x]].0 by {
            if x < q.len() - 1 {
                assert(p[x + 1] == q[x + 1] && p[x] == q[x]);
            }
        }
        p
    }
}

/// A chain from a location that is no destination never repeats a move.
proof fn lemma_chain_distinct(moves: Seq<(MoveLoc, MoveLoc)>, l: MoveLoc, p: Seq<int>, a: int, b: int)
    requires
        read_chain(moves, l, p),
        forall|x: int, y: int| 0 <= x < y < moves.len() ==> moves[x].0 != moves[y].0,
        forall|x: int| 0 <= x < moves.len() ==> (#[trigger] moves[x]).0 != l,
        0 <= a < b < p.len(),
    ensures
        p[a] != p[b],
    decreases a,
{
    let jb = b - 1;
    assert(moves[p[jb + 1]].1 == moves[p[jb]].0);
    assert(jb + 1 == b);
    if a > 0 {
        let ja = a - 1;
        assert(moves[p[ja + 1]].1 == moves[p[ja]].0);
        assert(ja + 1 == a);
        lemma_chain_distinct(moves, l, p, a - 1, b - 1);
        if p[a] == p[b] {
            let (x, y) = if p[a - 1] < p[b - 1] { (p[a - 1], p[b - 1]) } else { (p[b - 1], p[a - 1]) };
            assert(moves[x].0 != moves[y].0);
        }
    } else {
        assert(moves[p[b - 1]].0 != l);
    }
}

/// When every pending destination is still read (a cycle), no pending move
/// reads a location that is no destination: following the readers from it
/// would need more moves than there are.
proof fn lemma_cycle_reads_only_destinations(moves: Seq<(MoveLoc, MoveLoc)>, l: MoveLoc)
    requires
        moves.len() > 0,
        first_free(moves, 0) == -1,
        forall|x: int, y: int| 0 <= x < y < moves.len() ==> moves[x].0 != moves[y].0,
        forall|x: int| 0 <= x < moves.len() ==> (#[trigger] moves[x]).0 != l,
    ensures
        forall|j: int| 0 <= j < moves.len() ==> (#[trigger] moves[j]).1 != l,
{
    assert forall|j0: int| 0 <= j0 < moves.len() implies (#[trigger] moves[j0]).1 != l by {
        if moves[j0].1 == l {
            let n = moves.len();
            let p = lemma_long_chain(moves, l, j0, n as nat);
            assert forall|a: int, b: int| 0 <= a < b < p.len() implies p[a] != p[b] by {
                lemma_chain_distinct(moves, l, p, a, b);
            }
            assert(p.no_duplicates());
            p.unique_seq_to_set();
            vstd::set_lib::lemma_int_range(0, n as int);
            assert(p.to_set().subset_of(vstd::set_lib::set_int_range(0, n as int)));
            vstd::set_lib::lemma_len_subset(p.to_set(), vstd::set_lib::set_int_range(0, n as int));
        }
    }
}

/// A move sequence is a parallel copy: when the destinations are distinct,
/// no move is onto itself and the two scratch registers are distinct and no
/// destination, and `t2` no source, running the instructions leaves every
/// location other than the two scratch registers holding what the moves, made
/// all at once, would put there.
pub proof fn lemma_seq_moves(moves: Seq<(MoveLoc, MoveLoc)>, t1: PhysReg, t2: PhysReg, st: MState)
    requires
        moves_ok(moves, t1, t2),
    ensures
        forall|l: MoveLoc| l != MoveLoc::Reg(t1) && l != MoveLoc::Reg(t2)
            ==> #[trigger] val(run(seq_moves(moves, t1, t2), st), l) == moved(moves, st, l),
    decreases moves.len(),
{
    if moves.len() == 0 {
        assert forall|l: MoveLoc| l != MoveLoc::Reg(t1) && l != MoveLoc::Reg(t2)
            implies #[trigger] val(run(seq_moves(moves, t1, t2), st), l) == moved(moves, st, l) by {
            lemma_moved_none(moves, st, l);
        }
    } else {
        lemma_first_free(moves, 0);
        let i = first_free(moves, 0);
        if 0 <= i < moves.len() {
            let (d, s) = moves[i];
            let rd = read_ops(s, t2);
            let a = rd.0 + write_ops(d, rd.1);
            let rest = moves.remove(i);
            lemma_read(s, t2, st);
            let st0 = run(rd.0, st);
            lemma_write(d, rd.1, st0);
            lemma_run_append(rd.0, write_ops(d, rd.1), st);
            let st1 = run(a, st);
            assert(val(st1, d) == val(st, s));
            assert forall|l: MoveLoc| l != d && l != MoveLoc::Reg(t2) implies val(st1, l) == val(st, l) by {}
            assert(moves_ok(rest, t1, t2)) by {
                assert forall|x: int, y: int| 0 <= x < y < rest.len() implies rest[x].0 != rest[y].0 by {
                    let xx = if x < i { x } else { x + 1 };
                    let yy = if y < i { y } else { y + 1 };
                    assert(rest[x] == moves[xx] && rest[y] == moves[yy]);
                }
                assert forall|x: int| 0 <= x < rest.len() implies (#[trigger] rest[x]).0 != rest[x].1
                    && rest[x].0 != MoveLoc::Reg(t1) && rest[x].0 != MoveLoc::Reg(t2) && rest[x].1 != MoveLoc::Reg(t2) by {
                    let xx = if x < i { x } else { x + 1 };
                    assert(rest[x] == moves[xx]);
                }
            }
            lemma_seq_moves(rest, t1, t2, st1);
            lemma_run_append(a, seq_moves(rest, t1, t2), st);
            assert(seq_moves(moves, t1, t2) == a + seq_moves(rest, t1, t2)) by {
                assert(rd.0 + write_ops(d, rd.1) + seq_moves(rest, t1, t2) =~= a + seq_moves(rest, t1, t2));
            }
            assert forall|l: MoveLoc| l != MoveLoc::Reg(t1) && l != MoveLoc::Reg(t2)
                implies #[trigger] val(run(seq_moves(moves, t1, t2), st), l) == moved(moves, st, l) by {
                assert(val(run(seq_moves(moves, t1, t2), st), l) == moved(rest, st1, l));
                if l == d {
                    lemma_moved_at(moves, st, i);
                    assert forall|j: int| 0 <= j < rest.len() implies (#[trigger] rest[j]).0 != l by {
                        let jj = if j < i { j } else { j + 1 };
                        assert(rest[j] == moves[jj]);
                    }
                    lemma_moved_none(rest, st1, l);
                } else if exists|j: int| 0 <= j < rest.len() && (#[trigger] rest[j]).0 == l {
                    let j = choose|j: int| 0 <= j < rest.len() && (#[trigger] rest[j]).0 == l;
                    let jj = if j < i { j } else { j + 1 };
                    assert(rest[j] == moves[jj]);
                    lemma_moved_at(rest, st1, j);
                    lemma_moved_at(moves, st, jj);
                    let s2 = rest[j].1;
                    assert(not_read(moves, d));
                    assert(moves[jj].1 != d);
                    assert(s2 != MoveLoc::Reg(t2));
                    assert(val(st1, s2) == val(st, s2));
                } else {
                    assert forall|j: int| 0 <= j < moves.len() implies (#[trigger] moves[j]).0 != l by {
                        if j != i {
                            let jr = if j < i { j } else { j - 1 };
                            assert(rest[jr] == moves[j]);
                        }
                    }
                    lemma_moved_none(moves, st, l);
                    lemma_moved_none(rest, st1, l);
                }
            }
        } else {
            let (d, s) = moves[0];
            let old = read_ops(d, t1);
            let save = save_ops(d, t1);
            let rd = read_ops(s, t2);
            let w = write_ops(d, rd.1);
            let rest = redirect(moves.remove(0), d, t1);
            assert(d != MoveLoc::Reg(t1));
            lemma_cycle_reads_only_destinations(moves, MoveLoc::Reg(t1));
            assert(!reads_reg(moves, t1));
            assert(s != MoveLoc::Reg(t1)) by { assert(moves[0].1 == s); }
            // saving the destination in t1
            let st1 = run(save, st);
            assert((st1.0)(t1) == val(st, d) && forall|l: MoveLoc| l != MoveLoc::Reg(t1) ==> val(st1, l) == val(st, l)) by {
                lemma_read(d, t1, st);
                if old.1 != t1 {
                    let mv = seq![AsmOp::MovRR { dst: t1, src: old.1 }];
                    assert(save =~= old.0 + mv);
                    lemma_run_append(old.0, mv, st);
                    let st0 = run(old.0, st);
                    lemma_run_single(AsmOp::MovRR { dst: t1, src: old.1 }, st0);
                    assert forall|l: MoveLoc| l != MoveLoc::Reg(t1) implies val(st1, l) == val(st, l) by {
                        match l { MoveLoc::Reg(q) => {}, MoveLoc::Frame(k) => {} }
                    }
                }
            }
            lemma_read(s, t2, st1);
            let st2 = run(rd.0, st1);
            lemma_write(d, rd.1, st2);
            let st3 = run(w, st2);
            lemma_run_append(save, rd.0, st);
            lemma_run_append(save + rd.0, w, st);
            assert(run(save + rd.0 + w, st) == st3);
            assert(val(st3, d) == val(st, s));
            assert(MoveLoc::Reg(t1) != MoveLoc::Reg(t2));
            assert(val(st2, MoveLoc::Reg(t1)) == val(st1, MoveLoc::Reg(t1)));
            assert(val(st3, MoveLoc::Reg(t1)) == val(st2, MoveLoc::Reg(t1)));
            assert(val(st1, MoveLoc::Reg(t1)) == (st1.0)(t1));
            assert(val(st3, MoveLoc::Reg(t1)) == val(st, d));
            assert forall|l: MoveLoc| l != d && l != MoveLoc::Reg(t1) && l != MoveLoc::Reg(t2) implies val(st3, l) == val(st, l) by {}
            let tail = moves.remove(0);
            assert(moves_ok(rest, t1, t2)) by {
                assert forall|x: int| 0 <= x < rest.len() implies (#[trigger] rest[x]).0 == tail[x].0 by {}
                assert forall|x: int, y: int| 0 <= x < y < rest.len() implies rest[x].0 != rest[y].0 by {
                    assert(rest[x].0 == tail[x].0 && rest[y].0 == tail[y].0);
                    assert(tail[x] == moves[x + 1] && tail[y] == moves[y + 1]);
                }
                assert forall|x: int| 0 <= x < rest.len() implies (#[trigger] rest[x]).0 != rest[x].1
                    && rest[x].0 != MoveLoc::Reg(t1) && rest[x].0 != MoveLoc::Reg(t2) && rest[x].1 != MoveLoc::Reg(t2) by {
                    assert(tail[x] == moves[x + 1]);
                }
            }
            lemma_seq_moves(rest, t1, t2, st3);
            lemma_run_append(save + rd.0 + w, seq_moves(rest, t1, t2), st);
            assert(seq_moves(moves, t1, t2) == save + rd.0 + w + seq_moves(rest, t1, t2));
            assert forall|l: MoveLoc| l != MoveLoc::Reg(t1) && l != MoveLoc::Reg(t2)
                implies #[trigger] val(run(seq_moves(moves, t1, t2), st), l) == moved(moves, st, l) by {
                assert(val(run(seq_moves(moves, t1, t2), st), l) == moved(rest, st3, l));
                if l == d {
                    lemma_moved_at(moves, st, 0);
                    assert forall|j: int| 0 <= j < rest.len() implies (#[trigger] rest[j]).0 != l by {
                        assert(rest[j].0 == tail[j].0);
                        assert(tail[j] == moves[j + 1]);
                    }
                    lemma_moved_none(rest, st3, l);
                } else if exists|j: int| 0 <= j < rest.len() && (#[trigger] rest[j]).0 == l {
                    let j = choose|j: int| 0 <= j < rest.len() && (#[trigger] rest[j]).0 == l;
                    assert(tail[j] == moves[j + 1]);
                    lemma_moved_at(rest, st3, j);
                    lemma_moved_at(moves, st, j + 1);
                    let s2 = moves[j + 1].1;
                    if s2 == d {
                        assert(rest[j].1 == MoveLoc::Reg(t1));
                    } else {
                        assert(rest[j].1 == s2);
                        assert(s2 != MoveLoc::Reg(t1));
                        assert(s2 != MoveLoc::Reg(t2));
                    }
                } else {
                    assert forall|j: int| 0 <= j < moves.len() implies (#[trigger] moves[j]).0 != l by {
                        if j > 0 {
                            assert(tail[j - 1] == moves[j]);
                            assert(rest[j - 1].0 == tail[j - 1].0);
                        }
                    }
                    lemma_moved_none(moves, st, l);
                    lemma_moved_none(rest, st3, l);
                }
            }
        }
    }
}

// ---------------------------------------------------------------------------
// Emitting the sequence.

/// The moves whose destination is not `d`, in order.
pub open spec fn without_dest(moves: Seq<(MoveLoc, MoveLoc)>, d: MoveLoc) -> Seq<(MoveLoc, MoveLoc)>
    decreases moves.len(),
{
    if moves.len() == 0 {
        seq![]
    } else {
        let rest = without_dest(moves.drop_last(), d);
        if moves.last().0 != d { rest.push(moves.last()) } else { rest }
    }
}

/// Leaving out the moves to `d` keeps exactly the others, and keeps destinations distinct.
pub proof fn lemma_without_dest(moves: Seq<(MoveLoc, MoveLoc)>, d: MoveLoc)
    ensures
        forall|k: int| 0 <= k < without_dest(moves, d).len() ==> moves.contains(#[trigger] without_dest(moves, d)[k])
            && without_dest(moves, d)[k].0 != d,
        forall|i: int| 0 <= i < moves.len() && (#[trigger] moves[i]).0 != d ==> without_dest(moves, d).contains(moves[i]),
        (forall|i: int, j: int| 0 <= i < j < moves.len() ==> moves[i].0 != moves[j].0) ==>
            forall|i: int, j: int| 0 <= i < j < without_dest(moves, d).len()
                ==> without_dest(moves, d)[i].0 != without_dest(moves, d)[j].0,
    decreases moves.len(),
{
    if moves.len() > 0 {
        let init = moves.drop_last();
        lemma_without_dest(init, d);
        let r0 = without_dest(init, d);
        let r = without_dest(moves, d);
        assert forall|k: int| 0 <= k < r.len() implies moves.contains(#[trigger] r[k]) && r[k].0 != d by {
            if k < r0.len() {
                assert(r[k] == r0[k]);
                let i = choose|i: int| 0 <= i < init.len() && init[i] == r0[k];
                assert(moves[i] == init[i]);
            } else {
                assert(r[k] == moves[moves.len() - 1]);
            }
        }
        assert forall|i: int| 0 <= i < moves.len() && (#[trigger] moves[i]).0 != d implies r.contains(moves[i]) by {
            if i < moves.len() - 1 {
                assert(init[i] == moves[i]);
                assert(r0.contains(init[i]));
                let k = choose|k: int| 0 <= k < r0.len() && r0[k] == init[i];
                assert(r[k] == r0[k]);
            } else {
                assert(r[r.len() - 1] == moves[i]);
            }
        }
        if forall|i: int, j: int| 0 <= i < j < moves.len() ==> moves[i].0 != moves[j].0 {
            assert(forall|i: int, j: int| 0 <= i < j < init.len() ==> init[i].0 != init[j].0) by {
                assert forall|i: int, j: int| 0 <= i < j < init.len() implies init[i].0 != init[j].0 by {
                    assert(init[i] == moves[i] && init[j] == moves[j]);
                }
            }
            assert forall|i: int, j: int| 0 <= i < j < r.len() implies r[i].0 != r[j].0 by {
                assert(r[i] == r0[i]);
                if j < r0.len() {
                    assert(r[j] == r0[j]);
                } else {
                    assert(r0.contains(r0[i]));
                    let q = choose|q: int| 0 <= q < init.len() && init[q] == r0[i];
                    assert(moves[q] == init[q]);
                    assert(r[j] == moves[moves.len() - 1]);
                }
            }
        }
    }
}

/// Leaves out the moves whose destination is `d`.
pub fn drop_moves_to(moves: &mut Vec<(MoveLoc, MoveLoc)>, d: MoveLoc)
    ensures
        final(moves)@ == without_dest(old(moves)@, d),
{
    let mut kept: Vec<(MoveLoc, MoveLoc)> = Vec::new();
    let mut k: usize = 0;
    while k < moves.len()
        invariant
            k <= moves@.len(),
            moves@ == old(moves)@,
            kept@ == without_dest(moves@.take(k as int), d),
        decreases moves.len() - k,
    {
        let m = moves[k];
        if m.0 != d {
            kept.push(m);
        }
        proof {
            assert(moves@.take(k + 1).drop_last() =~= moves@.take(k as int));
        }
        k += 1;
    }
    assert(moves@.take(moves@.len() as int) =~= moves@);
    *moves = kept;
}

/// The moves that change something: those whose destination is not their source.
pub open spec fn real_moves(moves: Seq<(MoveLoc, MoveLoc)>) -> Seq<(MoveLoc, MoveLoc)>
    decreases moves.len(),
{
    if moves.len() == 0 {
        seq![]
    } else {
        let rest = real_moves(moves.drop_last());
        if moves.last().0 != moves.last().1 { rest.push(moves.last()) } else { rest }
    }
}

/// The instructions that read `src` into a register, and that register.
pub fn read_into(src: MoveLoc, temp: PhysReg) -> (r: (Vec<AsmOp>, PhysReg))
    ensures
        r.0@ == read_ops(src, temp).0,
        r.1 == read_ops(src, temp).1,
{
    match src {
        MoveLoc::Reg(reg) => (Vec::new(), reg),
        MoveLoc::Frame(k) => (vec![AsmOp::Load { dst: temp, slot: k }], temp),
    }
}

/// The instructions that write register `src` to `dst`.
pub fn write_to(dst: MoveLoc, src: PhysReg) -> (r: Vec<AsmOp>)
    ensures
        r@ == write_ops(dst, src),
{
    match dst {
        MoveLoc::Reg(reg) => if reg == src { Vec::new() } else { vec![AsmOp::MovRR { dst: reg, src }] },
        MoveLoc::Frame(k) => vec![AsmOp::Store { slot: k, src }],
    }
}

/// Appends `b` to `a`.
pub fn append_ops(a: &mut Vec<AsmOp>, b: Vec<AsmOp>)
    ensures
        final(a)@ == old(a)@ + b@,
{
    let mut b = b;
    a.append(&mut b);
}

/// The position of the first move whose destination no move reads, if any.
fn find_free(moves: &Vec<(MoveLoc, MoveLoc)>) -> (r: Option<usize>)
    ensures
        match r {
            Some(i) => i < moves@.len() && i as int == first_free(moves@, 0),
            None => first_free(moves@, 0) == -1,
        },
{
    let mut i: usize = 0;
    while i < moves.len()
        invariant
            i <= moves@.len(),
            first_free(moves@, 0) == first_free(moves@, i as int),
        decreases moves.len() - i,
    {
        let d = moves[i].0;
        let mut j: usize = 0;
        let mut read = false;
        while j < moves.len()
            invariant
                j <= moves@.len(),
                i < moves@.len(),
                d == moves@[i as int].0,
                read == exists|q: int| 0 <= q < j && (#[trigger] moves@[q]).1 == d,
            decreases moves.len() - j,
        {
            if moves[j].1 == d {
                read = true;
            }
            j += 1;
        }
        if !read {
            return Some(i);
        }
        i += 1;
    }
    None
}

/// The moves with every source `l` read from register `r` instead.
fn redirect_sources(moves: Vec<(MoveLoc, MoveLoc)>, l: MoveLoc, r: PhysReg) -> (out: Vec<(MoveLoc, MoveLoc)>)
    ensures
        out@ == redirect(moves@, l, r),
{
    let mut out: Vec<(MoveLoc, MoveLoc)> = Vec::new();
    let mut k: usize = 0;
    while k < moves.len()
        invariant
            k <= moves@.len(),
            out@ == redirect(moves@, l, r).take(k as int),
        decreases moves.len() - k,
    {
        let m = moves[k];
        out.push(if m.1 == l { (m.0, MoveLoc::Reg(r)) } else { m });
        k += 1;
        assert(out@ =~= redirect(moves@, l, r).take(k as int));
    }
    assert(out@ =~= redirect(moves@, l, r));
    out
}

/// One step of `seq_moves` when the move at `i` is the first free one.
proof fn lemma_unfold_free(moves: Seq<(MoveLoc, MoveLoc)>, i: int, t1: PhysReg, t2: PhysReg)
    requires
        0 <= i < moves.len(),
        first_free(moves, 0) == i,
    ensures
        seq_moves(moves, t1, t2) == read_ops(moves[i].1, t2).0
            + write_ops(moves[i].0, read_ops(moves[i].1, t2).1) + seq_moves(moves.remove(i), t1, t2),
{
}

/// One step of `seq_moves` when every destination is still read.
proof fn lemma_unfold_cycle(moves: Seq<(MoveLoc, MoveLoc)>, t1: PhysReg, t2: PhysReg)
    requires
        moves.len() > 0,
        first_free(moves, 0) == -1,
    ensures
        seq_moves(moves, t1, t2) == save_ops(moves[0].0, t1) + read_ops(moves[0].1, t2).0
            + write_ops(moves[0].0, read_ops(moves[0].1, t2).1)
            + seq_moves(redirect(moves.remove(0), moves[0].0, t1), t1, t2),
{
}

/// The instructions that save the value at `d` in `t1`.
fn save_into(d: MoveLoc, t1: PhysReg) -> (r: Vec<AsmOp>)
    ensures
        r@ == save_ops(d, t1),
{
    let (old_ops, old_reg) = read_into(d, t1);
    let mut save = old_ops;
    if old_reg != t1 {
        save.push(AsmOp::MovRR { dst: t1, src: old_reg });
    }
    save
}

/// Emits the move at `i`, whose destination no pending move reads.
fn emit_free_move(pending: &mut Vec<(MoveLoc, MoveLoc)>, i: usize, ops: &mut Vec<AsmOp>, t1: PhysReg, t2: PhysReg)
    requires
        i < old(pending)@.len(),
        first_free(old(pending)@, 0) == i,
    ensures
        final(pending)@.len() < old(pending)@.len(),
        final(ops)@ + seq_moves(final(pending)@, t1, t2) == old(ops)@ + seq_moves(old(pending)@, t1, t2),
{
    let ghost before = pending@;
    let ghost ops0 = ops@;
    let (d, s) = pending.remove(i);
    let (rd, reg) = read_into(s, t2);
    let wr = write_to(d, reg);
    let ghost rdv = rd@;
    let ghost wrv = wr@;
    append_ops(ops, rd);
    append_ops(ops, wr);
    proof {
        lemma_unfold_free(before, i as int, t1, t2);
        assert(ops@ + seq_moves(pending@, t1, t2) =~= ops0 + (rdv + wrv + seq_moves(pending@, t1, t2)));
    }
}

/// Breaks a cycle: saves the first destination in `t1`, makes the first move
/// and lets the moves that read that destination read `t1`.
fn emit_cycle_break(pending: &mut Vec<(MoveLoc, MoveLoc)>, ops: &mut Vec<AsmOp>, t1: PhysReg, t2: PhysReg)
    requires
        old(pending)@.len() > 0,
        first_free(old(pending)@, 0) == -1,
    ensures
        final(pending)@.len() < old(pending)@.len(),
        final(ops)@ + seq_moves(final(pending)@, t1, t2) == old(ops)@ + seq_moves(old(pending)@, t1, t2),
{
    let ghost before = pending@;
    let ghost ops0 = ops@;
    let (d, s) = pending.remove(0);
    let save = save_into(d, t1);
    let (rd, reg) = read_into(s, t2);
    let wr = write_to(d, reg);
    let ghost sv = save@;
    let ghost rdv = rd@;
    let ghost wrv = wr@;
    append_ops(ops, save);
    append_ops(ops, rd);
    append_ops(ops, wr);
    let mut tail: Vec<(MoveLoc, MoveLoc)> = Vec::new();
    std::mem::swap(&mut tail, pending);
    *pending = redirect_sources(tail, d, t1);
    proof {
        lemma_unfold_cycle(before, t1, t2);
        assert(ops@ + seq_moves(pending@, t1, t2) =~= ops0 + (sv + rdv + wrv + seq_moves(pending@, t1, t2)));
    }
}

proof fn lemma_real_moves(moves: Seq<(MoveLoc, MoveLoc)>)
    ensures
        forall|j: int| 0 <= j < real_moves(moves).len() ==>
            moves.contains(#[trigger] real_moves(moves)[j]) && real_moves(moves)[j].0 != real_moves(moves)[j].1,
        forall|i: int| 0 <= i < moves.len() && (#[trigger] moves[i]).0 != moves[i].1 ==> real_moves(moves).contains(moves[i]),
        (forall|x: int, y: int| 0 <= x < y < moves.len() ==> moves[x].0 != moves[y].0) ==>
            forall|x: int, y: int| 0 <= x < y < real_moves(moves).len() ==> real_moves(moves)[x].0 != real_moves(moves)[y].0,
    decreases moves.len(),
{
    if moves.len() > 0 {
        let m = moves.drop_last();
        let x = moves.last();
        lemma_real_moves(m);
        let r = real_moves(m);
        assert forall|j: int| 0 <= j < real_moves(moves).len() implies
            moves.contains(#[trigger] real_moves(moves)[j]) && real_moves(moves)[j].0 != real_moves(moves)[j].1 by {
            if j < r.len() {
                assert(real_moves(moves)[j] == r[j]);
                let k = choose|k: int| 0 <= k < m.len() && m[k] == r[j];
                assert(moves[k] == m[k]);
            } else {
                assert(moves[moves.len() - 1] == x);
            }
        }
        assert forall|i: int| 0 <= i < moves.len() && (#[trigger] moves[i]).0 != moves[i].1
            implies real_moves(moves).contains(moves[i]) by {
            if i < moves.len() - 1 {
                assert(m[i] == moves[i]);
                let k = choose|k: int| 0 <= k < r.len() && r[k] == m[i];
                assert(real_moves(moves)[k] == r[k]);
            } else {
                assert(real_moves(moves)[r.len() as int] == x);
            }
        }
        if forall|x: int, y: int| 0 <= x < y < moves.len() ==> moves[x].0 != moves[y].0 {
            assert forall|a: int, b: int| 0 <= a < b < m.len() implies m[a].0 != m[b].0 by {
                assert(m[a] == moves[a] && m[b] == moves[b]);
            }
            assert forall|a: int, b: int| 0 <= a < b < real_moves(moves).len() implies
                real_moves(moves)[a].0 != real_moves(moves)[b].0 by {
                if b >= r.len() {
                    assert(real_moves(moves)[a] == r[a]);
                    let k = choose|k: int| 0 <= k < m.len() && m[k] == r[a];
                    assert(moves[k] == m[k]);
                    assert(moves[moves.len() - 1] == x);
                } else {
                    assert(real_moves(moves)[a] == r[a] && real_moves(moves)[b] == r[b]);
                }
            }
        }
    }
}

/// Parallel moves are made as if all at once: for moves with distinct
/// destinations, none touching the two distinct scratch registers, running
/// what `emit_parallel_moves` emits leaves each destination holding its
/// source's old value and every other location, except the scratch
/// registers, unchanged.
pub proof fn lemma_parallel_moves(moves: Seq<(MoveLoc, MoveLoc)>, t1: PhysReg, t2: PhysReg, st: MState)
    requires
        t1 != t2,
        forall|i: int, j: int| 0 <= i < j < moves.len() ==> moves[i].0 != moves[j].0,
        forall|i: int| 0 <= i < moves.len() ==> (#[trigger] moves[i]).0 != MoveLoc::Reg(t1)
            && moves[i].0 != MoveLoc::Reg(t2) && moves[i].1 != MoveLoc::Reg(t1) && moves[i].1 != MoveLoc::Reg(t2),
    ensures
        forall|l: MoveLoc| l != MoveLoc::Reg(t1) && l != MoveLoc::Reg(t2)
            ==> #[trigger] val(run(seq_moves(real_moves(moves), t1, t2), st), l) == moved(moves, st, l),
{
    let r = real_moves(moves);
    lemma_real_moves(moves);
    assert(moves_ok(r, t1, t2)) by {
        assert forall|i: int| 0 <= i < r.len() implies (#[trigger] r[i]).0 != r[i].1
            && r[i].0 != MoveLoc::Reg(t1) && r[i].0 != MoveLoc::Reg(t2) && r[i].1 != MoveLoc::Reg(t2) by {
            assert(moves.contains(r[i]));
        }
    }
    lemma_seq_moves(r, t1, t2, st);
    assert forall|l: MoveLoc| l != MoveLoc::Reg(t1) && l != MoveLoc::Reg(t2) implies moved(r, st, l) == moved(moves, st, l) by {
        if exists|i: int| 0 <= i < moves.len() && (#[trigger] moves[i]).0 == l {
            let i = choose|i: int| 0 <= i < moves.len() && (#[trigger] moves[i]).0 == l;
            lemma_moved_at(moves, st, i);
            if moves[i].0 != moves[i].1 {
                assert(r.contains(moves[i]));
                let j = choose|j: int| 0 <= j < r.len() && r[j] == moves[i];
                lemma_moved_at(r, st, j);
            } else {
                assert forall|j: int| 0 <= j < r.len() implies (#[trigger] r[j]).0 != l by {
                    assert(moves.contains(r[j]));
                    let k = choose|k: int| 0 <= k < moves.len() && moves[k] == r[j];
                    if r[j].0 == l {
                        if k != i {
                            let (x, y) = if k < i { (k, i) } else { (i, k) };
                            assert(moves[x].0 != moves[y].0);
                        }
                    }
                }
                lemma_moved_none(r, st, l);
            }
        } else {
            assert forall|j: int| 0 <= j < r.len() implies (#[trigger] r[j]).0 != l by {
                assert(moves.contains(r[j]));
            }
            lemma_moved_none(r, st, l);
            lemma_moved_none(moves, st, l);
        }
    }
}

/// The instructions that make the moves as if all at once: moves onto themselves
/// are dropped; `t1` breaks cycles and `t2` stages sources in frame slots. With
/// distinct destinations and two distinct temporaries that no move names, running
/// them gives every destination its source's old value and leaves every other
/// location unchanged.
pub fn emit_parallel_moves(moves: &Vec<(MoveLoc, MoveLoc)>, t1: PhysReg, t2: PhysReg) -> (ops: Vec<AsmOp>)
    ensures
        ops@ == seq_moves(real_moves(moves@), t1, t2),
        t1 != t2
            && (forall|i: int, j: int| 0 <= i < j < moves@.len() ==> moves@[i].0 != moves@[j].0)
            && (forall|i: int| 0 <= i < moves@.len() ==> (#[trigger] moves@[i]).0 != MoveLoc::Reg(t1)
                && moves@[i].0 != MoveLoc::Reg(t2) && moves@[i].1 != MoveLoc::Reg(t1) && moves@[i].1 != MoveLoc::Reg(t2))
            ==> forall|st: MState, l: MoveLoc| l != MoveLoc::Reg(t1) && l != MoveLoc::Reg(t2)
                ==> #[trigger] val(run(ops@, st), l) == moved(moves@, st, l),
{
    let mut pending: Vec<(MoveLoc, MoveLoc)> = Vec::new();
    let mut k: usize = 0;
    while k < moves.len()
        invariant
            k <= moves@.len(),
            pending@ == real_moves(moves@.take(k as int)),
        decreases moves.len() - k,
    {
        let m = moves[k];
        if m.0 != m.1 {
            pending.push(m);
        }
        proof {
            assert(moves@.take(k + 1).drop_last() =~= moves@.take(k as int));
        }
        k += 1;
    }
    assert(moves@.take(moves@.len() as int) =~= moves@);
    let ghost all = pending@;
    let mut ops: Vec<AsmOp> = Vec::new();
    while pending.len() > 0
        invariant
            ops@ + seq_moves(pending@, t1, t2) == seq_moves(all, t1, t2),
        decreases pending.len(),
    {
        match find_free(&pending) {
            Some(i) => emit_free_move(&mut pending, i, &mut ops, t1, t2),
            None => emit_cycle_break(&mut pending, &mut ops, t1, t2),
        }
    }
    proof {
        assert(ops@ == seq_moves(real_moves(moves@), t1, t2)) by {
            assert(seq_moves(pending@, t1, t2) == Seq::<AsmOp>::empty());
        }
        if t1 != t2
            && (forall|i: int, j: int| 0 <= i < j < moves@.len() ==> moves@[i].0 != moves@[j].0)
            && (forall|i: int| 0 <= i < moves@.len() ==> (#[trigger] moves@[i]).0 != MoveLoc::Reg(t1)
                && moves@[i].0 != MoveLoc::Reg(t2) && moves@[i].1 != MoveLoc::Reg(t1) && moves@[i].1 != MoveLoc::Reg(t2)) {
            assert forall|st: MState, l: MoveLoc| l != MoveLoc::Reg(t1) && l != MoveLoc::Reg(t2)
                implies #[trigger] val(run(ops@, st), l) == moved(moves@, st, l) by {
                lemma_parallel_moves(moves@, t1, t2, st);
            }
        }
    }
    ops
}

} // verus!
