//! The lowered program computes what the interpreter computes: run with its
//! labels and jumps from the arguments in their registers, it returns the
//! interpreter's result in RAX.
use vstd::prelude::*;
use crate::ir::{Function, Inst, Terminator, VReg, BlockId, spec_def, spec_uses, spec_term_uses, spec_successors, spec_phi_inputs,
    is_phi, first_block_index, lemma_first_block_index};
use crate::validation::{inst_at, function_valid, validation_result, def_error, def_row, first_def_error,
    first_use_error, use_error, use_row, inst_use_error, term_use_error, inst_row, block_use_error,
    first_some, lemma_first_some_none, lemma_unique_def, def_pos};
use crate::intervals::{LiveInterval, intervals_exact, touches, touched, touch_inst, touch_term, touch_entry, pos_of,
    block_base, spec_overlaps};
use crate::liveness::{live_fix, live_least, live_solution, in_step, out_step, use_set, def_set, def_before,
    phi_def_set, phi_use_set};
use crate::cfg::{ids_distinct, edge, successors_known};
use crate::regalloc::{PhysReg, PhysRegSet, Location, Assignment, assignment_valid, entries_valid, reg_entry_ok,
    interval_values, codegen_ready};
use crate::collections::{location_entries, has_key, value_at, key_index, lemma_key_index, keys_distinct,
    lemma_entries_insert, entries_insert};
use crate::moves::{MoveLoc, AsmOp, AsmLabel, MState, val, run, step, lemma_run_append, lemma_run_single, read_ops,
    write_ops, lemma_read, lemma_write};
use crate::codegen::{LowerContext, arg_register, prologue, lowering_context, loc_of, inst_ops, term_ops,
    lowering_result, lowered_program, program, lemma_straight_line_inst, off_scratch, holds, slots_bounded, located,
    lemma_lowering_ready};
use crate::interp::{inst_effect, run_insts, evaluation, eval_from, phi_results, store_all, step_error};
use crate::execution::{Config, reaches, returned, running, cstep, target, seg_at, straight, lemma_reaches_trans,
    lemma_reaches_step, lemma_reaches_refl, lemma_exec_straight};
use crate::layout::{counts_fit, block_pos, inst_pos, term_pos};

verus! {

/// What compiling `f` with `regs`, assignment `a` and exact intervals `ivs` has checked.
pub open spec fn facts(f: Function, regs: PhysRegSet, a: Assignment, ivs: Seq<LiveInterval>) -> bool {
    &&& function_valid(f)
    &&& codegen_ready(regs)
    &&& f.args <= 6
    &&& intervals_exact(f, ivs)
    &&& assignment_valid(ivs, regs, regs.regs@.len() as usize, a)
    &&& slots_bounded(location_entries(a.map), f.args)
    &&& located(f, location_entries(a.map))
    &&& live_least(f, live_fix(f).0, live_fix(f).1)
    &&& ids_distinct(f)
    &&& counts_fit(f)
    &&& successors_known(f)
}

/// Instruction `x` of block `s` passes the definition checks.
pub proof fn lemma_def_ok(f: Function, s: int, x: int)
    requires
        function_valid(f),
        0 <= s < f.blocks@.len(),
        0 <= x < f.blocks@[s].insts@.len(),
    ensures
        def_error(f, s, x) is None,
{
    let n = f.blocks@.len();
    let rows = Seq::new(n, |i: int| first_some(def_row(f, i)));
    assert(first_def_error(f) is None);
    lemma_first_some_none(rows);
    assert(rows[s] is None);
    lemma_first_some_none(def_row(f, s));
    assert(def_row(f, s)[x] is None);
}

/// A phi comes before every other instruction of its block.
pub proof fn lemma_phi_prefix(f: Function, s: int, xp: int, y: int)
    requires
        function_valid(f),
        0 <= s < f.blocks@.len(),
        0 <= xp < f.blocks@[s].insts@.len(),
        0 <= y < f.blocks@[s].insts@.len(),
        is_phi(inst_at(f, s, xp)),
        !is_phi(inst_at(f, s, y)),
    ensures
        xp < y,
{
    lemma_def_ok(f, s, xp);
    if y < xp {
        assert(exists|q: int| 0 <= q < xp && !is_phi(#[trigger] inst_at(f, s, q)));
    }
}

/// Two instructions that define the same value are the same instruction.
pub proof fn lemma_one_def(f: Function, s1: int, x1: int, s2: int, x2: int)
    requires
        function_valid(f),
        0 <= s1 < f.blocks@.len(),
        0 <= x1 < f.blocks@[s1].insts@.len(),
        0 <= s2 < f.blocks@.len(),
        0 <= x2 < f.blocks@[s2].insts@.len(),
        spec_def(inst_at(f, s1, x1)) == spec_def(inst_at(f, s2, x2)),
    ensures
        s1 == s2 && x1 == x2,
{
    assert(first_def_error(f) is None);
    lemma_unique_def(f, spec_def(inst_at(f, s1, x1)), s1, x1);
    lemma_unique_def(f, spec_def(inst_at(f, s1, x1)), s2, x2);
}

/// A value read by non-phi instruction `x` of block `s` is not defined there.
pub proof fn lemma_use_not_def(f: Function, s: int, x: int, u: VReg)
    requires
        function_valid(f),
        0 <= s < f.blocks@.len(),
        0 <= x < f.blocks@[s].insts@.len(),
        !is_phi(inst_at(f, s, x)),
        spec_uses(inst_at(f, s, x)).contains(u),
    ensures
        u != spec_def(inst_at(f, s, x)),
{
    let n = f.blocks@.len();
    assert(first_use_error(f) is None);
    let rows = Seq::new(n, |i: int| block_use_error(f, i));
    lemma_first_some_none(rows);
    assert(rows[s] is None);
    let br = inst_row(f, s).push(term_use_error(f, s));
    lemma_first_some_none(br);
    assert(br[x] is None);
    assert(inst_use_error(f, s, x) is None);
    let us = spec_uses(inst_at(f, s, x));
    let k = choose|k: int| 0 <= k < us.len() && us[k] == u;
    lemma_first_some_none(use_row(f, s, x, us));
    assert(use_row(f, s, x, us)[k] is None);
    assert(use_error(f, s, x, u) is None);
    if u == spec_def(inst_at(f, s, x)) {
        assert(first_def_error(f) is None);
        lemma_unique_def(f, u, s, x);
    }
}

/// `w` is in use after instruction `x` of block `s`: read by a later
/// instruction or by the terminator, or live out of the block.
pub open spec fn needed(f: Function, s: int, x: int, w: VReg) -> bool {
    ||| exists|y: int| x <= y < f.blocks@[s].insts@.len() && !is_phi(inst_at(f, s, y))
            && #[trigger] spec_uses(inst_at(f, s, y)).contains(w)
    ||| spec_term_uses(f.blocks@[s].term).contains(w)
    ||| live_fix(f).1[s].contains(w)
}

/// `w` is available before instruction `x` of block `s`: live into the block,
/// a phi result of it, or defined earlier in it.
pub open spec fn known(f: Function, s: int, x: int, w: VReg) -> bool {
    live_fix(f).0[s].contains(w) || phi_def_set(f, s).contains(w) || def_before(f, s, x, w)
}

/// The interval of a value touched at `p` holds `p`.
pub proof fn lemma_interval_at(f: Function, ivs: Seq<LiveInterval>, v: VReg, p: int) -> (j: int)
    requires
        intervals_exact(f, ivs),
        touches(f, v, p),
    ensures
        0 <= j < ivs.len(),
        ivs[j].v == v,
        ivs[j].start.0 <= p <= ivs[j].end.0,
        forall|q: int| touches(f, v, q) ==> ivs[j].start.0 <= q <= ivs[j].end.0,
{
    assert(touched(f, v));
    let j = choose|j: int| 0 <= j < ivs.len() && (#[trigger] ivs[j]).v == v;
    j
}

/// A value in use and available at instruction `x` (a non-phi, or the
/// terminator) has an interval holding that position.
pub proof fn lemma_cover(f: Function, regs: PhysRegSet, a: Assignment, ivs: Seq<LiveInterval>, s: int, x: int, w: VReg) -> (j: int)
    requires
        facts(f, regs, a, ivs),
        0 <= s < f.blocks@.len(),
        0 <= x <= f.blocks@[s].insts@.len(),
        x < f.blocks@[s].insts@.len() ==> !is_phi(inst_at(f, s, x)),
        known(f, s, x, w),
        needed(f, s, x, w),
    ensures
        0 <= j < ivs.len(),
        ivs[j].v == w,
        ivs[j].start.0 <= pos_of(f, s, x) <= ivs[j].end.0,
{
    let n = f.blocks@[s].insts@.len() as int;
    // a touch at or after x
    let hi: int = if exists|y: int| x <= y < n && !is_phi(inst_at(f, s, y)) && #[trigger] spec_uses(inst_at(f, s, y)).contains(w) {
        let y = choose|y: int| x <= y < n && !is_phi(inst_at(f, s, y)) && #[trigger] spec_uses(inst_at(f, s, y)).contains(w);
        assert(touch_inst(f, w, pos_of(f, s, y)));
        pos_of(f, s, y)
    } else {
        assert(touch_term(f, w, pos_of(f, s, n)));
        pos_of(f, s, n)
    };
    assert(touches(f, w, hi));
    assert(hi >= pos_of(f, s, x));
    let j = lemma_interval_at(f, ivs, w, hi);
    // a touch at or before x
    if live_fix(f).0[s].contains(w) {
        assert(touch_entry(f, w, block_base(f, s)));
        assert(touches(f, w, block_base(f, s)));
    } else if phi_def_set(f, s).contains(w) {
        let xp = choose|xp: int| 0 <= xp < n && is_phi(inst_at(f, s, xp)) && #[trigger] spec_def(inst_at(f, s, xp)) == w;
        if x < n {
            lemma_phi_prefix(f, s, xp, x);
        }
        assert(touch_inst(f, w, pos_of(f, s, xp)));
        assert(touches(f, w, pos_of(f, s, xp)));
    } else {
        let x2 = choose|x2: int| 0 <= x2 < x && #[trigger] spec_def(inst_at(f, s, x2)) == w;
        assert(touch_inst(f, w, pos_of(f, s, x2)));
        assert(touches(f, w, pos_of(f, s, x2)));
    }
    j
}

/// A value with a location is not in a scratch register.
pub proof fn lemma_off_scratch(f: Function, regs: PhysRegSet, a: Assignment, ivs: Seq<LiveInterval>, v: VReg)
    requires
        facts(f, regs, a, ivs),
        has_key(location_entries(a.map), v),
    ensures
        off_scratch(location_entries(a.map), lowering_context(f, regs, a.stack_slots), v),
{
    let e = location_entries(a.map);
    lemma_key_index(e, v);
    let k = key_index(e, v);
    assert(reg_entry_ok(regs, regs.regs@.len() as usize, e[k].1));
    match e[k].1 {
        Location::Reg(r) => {
            assert(regs.scratch@.contains(regs.scratch@[0]));
            assert(regs.scratch@.contains(regs.scratch@[1]));
        },
        Location::Stack(_) => {},
    }
}

/// A touched value has a location, off the scratch registers.
pub proof fn lemma_placed(f: Function, regs: PhysRegSet, a: Assignment, ivs: Seq<LiveInterval>, v: VReg, p: int)
    requires
        facts(f, regs, a, ivs),
        touches(f, v, p),
    ensures
        has_key(location_entries(a.map), v),
        off_scratch(location_entries(a.map), lowering_context(f, regs, a.stack_slots), v),
        loc_of(location_entries(a.map), f.args, v) matches MoveLoc::Frame(k) ==> k >= f.args,
{
    assert(touched(f, v));
    lemma_off_scratch(f, regs, a, ivs, v);
    let e = location_entries(a.map);
    lemma_key_index(e, v);
    let k = key_index(e, v);
    if e[k].1 is Stack {
        assert(f.args + e[k].1->Stack_0.index <= u32::MAX);
    }
}

/// The two scratch registers differ.
pub proof fn lemma_scratch_distinct(regs: PhysRegSet)
    requires
        codegen_ready(regs),
    ensures
        regs.scratch@[0] != regs.scratch@[1],
{
    let all = regs.regs@ + regs.scratch@;
    let n = regs.regs@.len() as int;
    assert(all[n] == regs.scratch@[0]);
    assert(all[n + 1] == regs.scratch@[1]);
}

/// Two values whose intervals share a position have different locations.
pub proof fn lemma_apart(f: Function, regs: PhysRegSet, a: Assignment, ivs: Seq<LiveInterval>, jv: int, jw: int, p: int)
    requires
        facts(f, regs, a, ivs),
        0 <= jv < ivs.len(),
        0 <= jw < ivs.len(),
        ivs[jv].v != ivs[jw].v,
        ivs[jv].start.0 <= p <= ivs[jv].end.0,
        ivs[jw].start.0 <= p <= ivs[jw].end.0,
    ensures
        loc_of(location_entries(a.map), f.args, ivs[jv].v) != loc_of(location_entries(a.map), f.args, ivs[jw].v),
{
    let e = location_entries(a.map);
    let v = ivs[jv].v;
    let w = ivs[jw].v;
    assert(ivs.map_values(|iv: LiveInterval| iv.v)[jv] == v);
    assert(ivs.map_values(|iv: LiveInterval| iv.v)[jw] == w);
    assert(interval_values(ivs).contains(v));
    assert(interval_values(ivs).contains(w));
    assert(entries_valid(ivs, regs, regs.regs@.len() as usize, e, a.spills, a.stack_slots));
    assert(has_key(e, v));
    assert(has_key(e, w));
    if jv < jw {
        assert(spec_overlaps(ivs[jv], ivs[jw]));
    } else {
        assert(spec_overlaps(ivs[jw], ivs[jv]));
    }
    lemma_key_index(e, v);
    lemma_key_index(e, w);
    let kv = key_index(e, v);
    let kw = key_index(e, w);
    if e[kv].1 is Stack {
        assert(f.args + e[kv].1->Stack_0.index <= u32::MAX);
    }
    if e[kw].1 is Stack {
        assert(f.args + e[kw].1->Stack_0.index <= u32::MAX);
    }
}

/// The machine agrees with the interpreter's values `r` before instruction `x`
/// of block `s`: every available value still in use is at its location, and
/// the shadow slots hold the arguments.
pub open spec fn agree(f: Function, e: Seq<(VReg, Location)>, args: Seq<i64>, s: int, x: int,
    r: Seq<(VReg, i64)>, st: MState) -> bool
{
    &&& keys_distinct(r)
    &&& forall|q: u32| q < args.len() ==> #[trigger] val(st, MoveLoc::Frame(q)) == args[q as int]
    &&& forall|w: VReg| known(f, s, x, w) && needed(f, s, x, w) && has_key(r, w)
        ==> #[trigger] val(st, loc_of(e, f.args, w)) == value_at(r, w)
}

/// A value read by a non-phi instruction is available there.
pub proof fn lemma_use_known(f: Function, s: int, x: int, u: VReg)
    requires
        live_least(f, live_fix(f).0, live_fix(f).1),
        0 <= s < f.blocks@.len(),
        0 <= x < f.blocks@[s].insts@.len(),
        !is_phi(inst_at(f, s, x)),
        spec_uses(inst_at(f, s, x)).contains(u),
    ensures
        known(f, s, x, u),
        needed(f, s, x, u),
{
    if !def_before(f, s, x, u) {
        assert(use_set(f, s).contains(u));
        assert(live_fix(f).0[s] == in_step(f, live_fix(f).1, s));
    }
}

/// A value read by the terminator or live out of the block is available at the terminator.
pub proof fn lemma_end_known(f: Function, s: int, w: VReg)
    requires
        live_least(f, live_fix(f).0, live_fix(f).1),
        0 <= s < f.blocks@.len(),
        spec_term_uses(f.blocks@[s].term).contains(w) || live_fix(f).1[s].contains(w),
    ensures
        known(f, s, f.blocks@[s].insts@.len() as int, w),
        needed(f, s, f.blocks@[s].insts@.len() as int, w),
{
    let n = f.blocks@[s].insts@.len() as int;
    if def_set(f, s).contains(w) {
        let x = choose|x: int| 0 <= x < n && #[trigger] spec_def(inst_at(f, s, x)) == w;
        assert(def_before(f, s, n, w));
    } else {
        assert(live_fix(f).0[s] == in_step(f, live_fix(f).1, s));
        if spec_term_uses(f.blocks@[s].term).contains(w) {
            assert(use_set(f, s).contains(w));
        }
    }
}

/// What a non-phi instruction does to the values: it stores its result and
/// keeps every other value.
pub proof fn lemma_effect_insert(args: Seq<i64>, r: Seq<(VReg, i64)>, inst: Inst)
    requires
        !is_phi(inst),
        keys_distinct(r),
        inst_effect(args, r, inst) is Ok,
    ensures
        ({
            let r2 = inst_effect(args, r, inst)->Ok_0;
            &&& keys_distinct(r2)
            &&& has_key(r2, spec_def(inst))
            &&& forall|w: VReg| w != spec_def(inst) ==> (has_key(r2, w) == has_key(r, w))
            &&& forall|w: VReg| w != spec_def(inst) && has_key(r, w) ==> value_at(r2, w) == value_at(r, w)
            &&& forall|u: VReg| spec_uses(inst).contains(u) ==> has_key(r, u)
        }),
{
    match inst {
        Inst::ConstI64 { dst, imm } => { lemma_entries_insert(r, dst, imm); },
        Inst::ArgI64 { dst, idx } => { lemma_entries_insert(r, dst, args[idx.0 as int]); },
        Inst::AddI64 { dst, a, b } => {
            lemma_entries_insert(r, dst, value_at(r, a).wrapping_add(value_at(r, b)));
            assert forall|u: VReg| spec_uses(inst).contains(u) implies has_key(r, u) by {
                assert(u == a || u == b);
            }
        },
        Inst::MulI64 { dst, a, b } => {
            lemma_entries_insert(r, dst, value_at(r, a).wrapping_mul(value_at(r, b)));
            assert forall|u: VReg| spec_uses(inst).contains(u) implies has_key(r, u) by {
                assert(u == a || u == b);
            }
        },
        Inst::MovI64 { dst, src } => {
            lemma_entries_insert(r, dst, value_at(r, src));
            assert forall|u: VReg| spec_uses(inst).contains(u) implies has_key(r, u) by {
                assert(u == src);
            }
        },
        Inst::CmpGtI64 { dst, a, b } => {
            lemma_entries_insert(r, dst, if value_at(r, a) > value_at(r, b) { 1i64 } else { 0i64 });
            assert forall|u: VReg| spec_uses(inst).contains(u) implies has_key(r, u) by {
                assert(u == a || u == b);
            }
        },
        Inst::PhiI64 { .. } => {},
    }
}

/// After a non-phi instruction that wrote only its result's location (and the
/// scratch registers), the machine still agrees with the interpreter.
pub proof fn lemma_agree_after(
    f: Function, regs: PhysRegSet, a: Assignment, ivs: Seq<LiveInterval>, args: Seq<i64>,
    s: int, x: int, r: Seq<(VReg, i64)>, st: MState, st2: MState,
)
    requires
        facts(f, regs, a, ivs),
        args.len() == f.args,
        0 <= s < f.blocks@.len(),
        0 <= x < f.blocks@[s].insts@.len(),
        !is_phi(inst_at(f, s, x)),
        agree(f, location_entries(a.map), args, s, x, r, st),
        inst_effect(args, r, inst_at(f, s, x)) is Ok,
        ({
            let e = location_entries(a.map);
            let c = lowering_context(f, regs, a.stack_slots);
            let d = spec_def(inst_at(f, s, x));
            &&& val(st2, loc_of(e, c.args, d)) == value_at(inst_effect(args, r, inst_at(f, s, x))->Ok_0, d)
            &&& forall|l: MoveLoc| l != loc_of(e, c.args, d) && l != MoveLoc::Reg(c.s0) && l != MoveLoc::Reg(c.s1)
                ==> val(st2, l) == val(st, l)
        }),
    ensures
        agree(f, location_entries(a.map), args, s, x + 1, inst_effect(args, r, inst_at(f, s, x))->Ok_0, st2),
{
    let e = location_entries(a.map);
    let c = lowering_context(f, regs, a.stack_slots);
    let inst = inst_at(f, s, x);
    let d = spec_def(inst);
    let r2 = inst_effect(args, r, inst)->Ok_0;
    lemma_effect_insert(args, r, inst);
    assert(touch_inst(f, d, pos_of(f, s, x)));
    let jd = lemma_interval_at(f, ivs, d, pos_of(f, s, x));
    lemma_placed(f, regs, a, ivs, d, pos_of(f, s, x));
    assert forall|q: u32| q < args.len() implies #[trigger] val(st2, MoveLoc::Frame(q)) == args[q as int] by {
        assert(val(st, MoveLoc::Frame(q)) == args[q as int]);
        assert(MoveLoc::Frame(q) != loc_of(e, c.args, d));
    }
    assert forall|w: VReg| known(f, s, x + 1, w) && needed(f, s, x + 1, w) && has_key(r2, w)
        implies #[trigger] val(st2, loc_of(e, f.args, w)) == value_at(r2, w) by {
        if w != d {
            assert(known(f, s, x, w)) by {
                if def_before(f, s, x + 1, w) && !live_fix(f).0[s].contains(w) && !phi_def_set(f, s).contains(w) {
                    let x2 = choose|x2: int| 0 <= x2 < x + 1 && #[trigger] spec_def(inst_at(f, s, x2)) == w;
                    assert(x2 != x);
                }
            }
            assert(needed(f, s, x, w)) by {
                if exists|y: int| x + 1 <= y < f.blocks@[s].insts@.len() && !is_phi(inst_at(f, s, y))
                    && #[trigger] spec_uses(inst_at(f, s, y)).contains(w) {
                    let y = choose|y: int| x + 1 <= y < f.blocks@[s].insts@.len() && !is_phi(inst_at(f, s, y))
                        && #[trigger] spec_uses(inst_at(f, s, y)).contains(w);
                    assert(x <= y);
                }
            }
            assert(has_key(r, w));
            assert(val(st, loc_of(e, f.args, w)) == value_at(r, w));
            let jw = lemma_cover(f, regs, a, ivs, s, x, w);
            lemma_apart(f, regs, a, ivs, jd, jw, pos_of(f, s, x));
            lemma_off_scratch_of_interval(f, regs, a, ivs, jw);
        }
    }
}

/// The value of an interval has a location off the scratch registers.
pub proof fn lemma_off_scratch_of_interval(f: Function, regs: PhysRegSet, a: Assignment, ivs: Seq<LiveInterval>, j: int)
    requires
        facts(f, regs, a, ivs),
        0 <= j < ivs.len(),
    ensures
        off_scratch(location_entries(a.map), lowering_context(f, regs, a.stack_slots), ivs[j].v),
{
    assert(touches(f, ivs[j].v, ivs[j].start.0 as int));
    lemma_placed(f, regs, a, ivs, ivs[j].v, ivs[j].start.0 as int);
}

/// One non-phi, non-comparison instruction, run by the machine.
#[verifier::spinoff_prover]
#[verifier::rlimit(50)]
pub proof fn lemma_inst_step(
    f: Function, regs: PhysRegSet, a: Assignment, ivs: Seq<LiveInterval>, args: Seq<i64>,
    s: int, x: int, r: Seq<(VReg, i64)>, cfg: Config,
) -> (cf: Config)
    requires
        facts(f, regs, a, ivs),
        args.len() == f.args,
        0 <= s < f.blocks@.len(),
        0 <= x < f.blocks@[s].insts@.len(),
        !is_phi(inst_at(f, s, x)),
        !(inst_at(f, s, x) is CmpGtI64),
        cfg.0 == inst_pos(f, location_entries(a.map), lowering_context(f, regs, a.stack_slots), s, x),
        agree(f, location_entries(a.map), args, s, x, r, cfg.1),
        inst_effect(args, r, inst_at(f, s, x)) is Ok,
    ensures
        reaches(lowered_program(f, regs, a), cfg, cf),
        cf.0 == inst_pos(f, location_entries(a.map), lowering_context(f, regs, a.stack_slots), s, x + 1),
        agree(f, location_entries(a.map), args, s, x + 1, inst_effect(args, r, inst_at(f, s, x))->Ok_0, cf.1),
{
    let e = location_entries(a.map);
    let c = lowering_context(f, regs, a.stack_slots);
    let p = lowered_program(f, regs, a);
    let inst = inst_at(f, s, x);
    let d = spec_def(inst);
    let st = cfg.1;
    crate::layout::lemma_inst_place(f, e, c, s, x);
    crate::layout::lemma_inst_straight(e, c, s, x, inst);
    lemma_exec_straight(p, cfg.0, inst_ops(e, c, s, x, inst), st, cfg.2, cfg.3);
    lemma_effect_insert(args, r, inst);
    lemma_scratch_distinct(regs);
    assert(touch_inst(f, d, pos_of(f, s, x)));
    let jd = lemma_interval_at(f, ivs, d, pos_of(f, s, x));
    lemma_placed(f, regs, a, ivs, d, pos_of(f, s, x));
    assert forall|u: VReg| #[trigger] spec_uses(inst).contains(u) implies off_scratch(e, c, u) && holds(e, c.args, r, st, u) by {
        lemma_use_known(f, s, x, u);
        assert(touch_inst(f, u, pos_of(f, s, x)));
        lemma_placed(f, regs, a, ivs, u, pos_of(f, s, x));
    }
    match inst {
        Inst::AddI64 { dst, a: a1, b } => {
            assert(spec_uses(inst)[1] == b);
            if a1 != b {
                lemma_use_known(f, s, x, b);
                lemma_use_not_def(f, s, x, b);
                let jb = lemma_cover(f, regs, a, ivs, s, x, b);
                lemma_apart(f, regs, a, ivs, jd, jb, pos_of(f, s, x));
            }
        },
        Inst::MulI64 { dst, a: a1, b } => {
            assert(spec_uses(inst)[1] == b);
            if a1 != b {
                lemma_use_known(f, s, x, b);
                lemma_use_not_def(f, s, x, b);
                let jb = lemma_cover(f, regs, a, ivs, s, x, b);
                lemma_apart(f, regs, a, ivs, jd, jb, pos_of(f, s, x));
            }
        },
        Inst::ArgI64 { dst, idx } => {
            assert(val(st, MoveLoc::Frame(idx.0)) == args[idx.0 as int]);
        },
        _ => {},
    }
    lemma_straight_line_inst(e, c, s, x, inst, args, r, st);
    let st2 = run(inst_ops(e, c, s, x, inst), st);
    lemma_agree_after(f, regs, a, ivs, args, s, x, r, st, st2);
    (cfg.0 + inst_ops(e, c, s, x, inst).len(), st2, cfg.2, cfg.3)
}

/// Running one instruction that is not a return or a jump.
proof fn lemma_one(ops: Seq<AsmOp>, c: Config) -> (c2: Config)
    requires
        running(ops, c),
    ensures
        c2 == cstep(ops, c),
        reaches(ops, c, c2),
{
    lemma_reaches_step(ops, c);
    cstep(ops, c)
}

/// A comparison, run by the machine: both paths of its jump leave 1 or 0 in
/// the first scratch register, which then goes to the result's location.
#[verifier::spinoff_prover]
#[verifier::rlimit(50)]
pub proof fn lemma_compare_step(
    f: Function, regs: PhysRegSet, a: Assignment, ivs: Seq<LiveInterval>, args: Seq<i64>,
    s: int, x: int, r: Seq<(VReg, i64)>, cfg: Config,
) -> (cf: Config)
    requires
        facts(f, regs, a, ivs),
        args.len() == f.args,
        0 <= s < f.blocks@.len(),
        0 <= x < f.blocks@[s].insts@.len(),
        inst_at(f, s, x) is CmpGtI64,
        cfg.0 == inst_pos(f, location_entries(a.map), lowering_context(f, regs, a.stack_slots), s, x),
        agree(f, location_entries(a.map), args, s, x, r, cfg.1),
        inst_effect(args, r, inst_at(f, s, x)) is Ok,
    ensures
        reaches(lowered_program(f, regs, a), cfg, cf),
        cf.0 == inst_pos(f, location_entries(a.map), lowering_context(f, regs, a.stack_slots), s, x + 1),
        agree(f, location_entries(a.map), args, s, x + 1, inst_effect(args, r, inst_at(f, s, x))->Ok_0, cf.1),
{
    let e = location_entries(a.map);
    let c = lowering_context(f, regs, a.stack_slots);
    let p = lowered_program(f, regs, a);
    let inst = inst_at(f, s, x);
    let dst = inst->CmpGtI64_dst;
    let av = inst->CmpGtI64_a;
    let bv = inst->CmpGtI64_b;
    let st = cfg.1;
    let la = loc_of(e, c.args, av);
    let lb = loc_of(e, c.args, bv);
    let ld = loc_of(e, c.args, dst);
    let ra = read_ops(la, c.s0);
    let rb = read_ops(lb, c.s1);
    let wr = write_ops(ld, c.s0);
    let mid = crate::layout::compare_mid(c, s, x, ra.1, rb.1);
    let q0 = cfg.0;
    crate::layout::lemma_inst_place(f, e, c, s, x);
    assert(inst_ops(e, c, s, x, inst) == ra.0 + rb.0 + mid + wr);
    crate::layout::lemma_target_compare(f, e, c, s, x);
    lemma_scratch_distinct(regs);
    lemma_effect_insert(args, r, inst);
    assert(spec_uses(inst)[0] == av);
    assert(spec_uses(inst)[1] == bv);
    lemma_use_known(f, s, x, av);
    lemma_use_known(f, s, x, bv);
    assert(touch_inst(f, av, pos_of(f, s, x)));
    assert(touch_inst(f, bv, pos_of(f, s, x)));
    assert(touch_inst(f, dst, pos_of(f, s, x)));
    lemma_placed(f, regs, a, ivs, av, pos_of(f, s, x));
    lemma_placed(f, regs, a, ivs, bv, pos_of(f, s, x));
    lemma_placed(f, regs, a, ivs, dst, pos_of(f, s, x));
    let va = value_at(r, av);
    let vb = value_at(r, bv);
    assert(val(st, la) == va);
    assert(val(st, lb) == vb);
    // the reads
    crate::execution::lemma_seg_split(p, q0, ra.0 + rb.0 + mid, wr);
    crate::execution::lemma_seg_split(p, q0, ra.0 + rb.0, mid);
    crate::layout::lemma_read_write_plain(la, c.s0, ld, c.s0);
    crate::layout::lemma_read_write_plain(lb, c.s1, ld, c.s0);
    crate::layout::lemma_plain_concat(ra.0, rb.0);
    crate::layout::lemma_plain_straight(ra.0 + rb.0);
    lemma_exec_straight(p, q0, ra.0 + rb.0, st, cfg.2, cfg.3);
    lemma_run_append(ra.0, rb.0, st);
    lemma_read(la, c.s0, st);
    let st1 = run(ra.0, st);
    lemma_read(lb, c.s1, st1);
    let st2 = run(ra.0 + rb.0, st);
    assert(ra.1 != c.s1);
    assert(val(st2, MoveLoc::Reg(ra.1)) == val(st1, MoveLoc::Reg(ra.1)));
    assert((st2.0)(ra.1) == va);
    assert(val(st1, lb) == val(st, lb));
    assert((st2.0)(rb.1) == vb);
    assert forall|l: MoveLoc| l != MoveLoc::Reg(c.s0) && l != MoveLoc::Reg(c.s1) implies val(st2, l) == val(st, l) by {
        assert(val(st1, l) == val(st, l));
    }
    let q = q0 + ra.0.len() + rb.0.len();
    let c1: Config = (q, st2, cfg.2, cfg.3);
    // the middle
    assert(p[q + 0] == mid[0]);
    assert(p[q + 1] == mid[1]);
    assert(p[q + 2] == mid[2]);
    assert(p[q + 3] == mid[3]);
    assert(p[q + 4] == mid[4]);
    assert(p[q + 5] == mid[5]);
    assert(p[q + 6] == mid[6]);
    let gt = va > vb;
    let c2 = lemma_one(p, c1);
    assert(c2 == (q + 1, st2, gt, cfg.3));
    let c3 = lemma_one(p, c2);
    let bit: i64 = if gt { 1 } else { 0 };
    let st3 = step(AsmOp::MovRI { dst: c.s0, imm: bit }, st2);
    let c7: Config = (q + 7, st3, gt, cfg.3);
    if gt {
        assert(c3 == (q + 4, st2, gt, cfg.3));
        let c4 = lemma_one(p, c3);
        let c5 = lemma_one(p, c4);
        let c6 = lemma_one(p, c5);
        assert(c6 == c7);
        lemma_reaches_trans(p, c3, c4, c5);
        lemma_reaches_trans(p, c3, c5, c6);
        lemma_reaches_trans(p, c2, c3, c6);
    } else {
        assert(c3 == (q + 2, st2, gt, cfg.3));
        let c4 = lemma_one(p, c3);
        let c5 = lemma_one(p, c4);
        assert(c5 == (q + 6, st3, gt, cfg.3));
        let c6 = lemma_one(p, c5);
        assert(c6 == c7);
        lemma_reaches_trans(p, c3, c4, c5);
        lemma_reaches_trans(p, c3, c5, c6);
        lemma_reaches_trans(p, c2, c3, c6);
    }
    lemma_reaches_trans(p, c1, c2, c7);
    lemma_reaches_trans(p, cfg, c1, c7);
    // the write
    crate::layout::lemma_plain_straight(wr);
    lemma_exec_straight(p, q + 7, wr, st3, gt, cfg.3);
    let st4 = run(wr, st3);
    let cf: Config = (q + 7 + wr.len(), st4, gt, cfg.3);
    lemma_reaches_trans(p, cfg, c7, cf);
    lemma_write(ld, c.s0, st3);
    assert(val(st4, ld) == bit);
    assert(inst_effect(args, r, inst)->Ok_0 == entries_insert(r, dst, bit));
    lemma_entries_insert(r, dst, bit);
    assert forall|l: MoveLoc| l != ld && l != MoveLoc::Reg(c.s0) && l != MoveLoc::Reg(c.s1) implies val(st4, l) == val(st, l) by {
        assert(val(st4, l) == val(st3, l));
        assert(val(st3, l) == val(st2, l));
    }
    lemma_agree_after(f, regs, a, ivs, args, s, x, r, st, st4);
    cf
}

/// The instructions of block `s`, run by the machine from its first instruction.
pub proof fn lemma_insts_run(
    f: Function, regs: PhysRegSet, a: Assignment, ivs: Seq<LiveInterval>, args: Seq<i64>, limit: nat,
    s: int, r0: Seq<(VReg, i64)>, steps: nat, cfg0: Config, x: int,
) -> (cf: Config)
    requires
        facts(f, regs, a, ivs),
        args.len() == f.args,
        0 <= s < f.blocks@.len(),
        0 <= x <= f.blocks@[s].insts@.len(),
        cfg0.0 == inst_pos(f, location_entries(a.map), lowering_context(f, regs, a.stack_slots), s, 0),
        agree(f, location_entries(a.map), args, s, 0, r0, cfg0.1),
        run_insts(f, s, args, r0, steps, limit, x) is Ok,
    ensures
        reaches(lowered_program(f, regs, a), cfg0, cf),
        cf.0 == inst_pos(f, location_entries(a.map), lowering_context(f, regs, a.stack_slots), s, x),
        agree(f, location_entries(a.map), args, s, x, run_insts(f, s, args, r0, steps, limit, x)->Ok_0, cf.1),
    decreases x,
{
    let e = location_entries(a.map);
    let c = lowering_context(f, regs, a.stack_slots);
    let p = lowered_program(f, regs, a);
    if x == 0 {
        lemma_reaches_refl(p, cfg0);
        cfg0
    } else {
        let c1 = lemma_insts_run(f, regs, a, ivs, args, limit, s, r0, steps, cfg0, x - 1);
        let r = run_insts(f, s, args, r0, steps, limit, x - 1)->Ok_0;
        let inst = inst_at(f, s, x - 1);
        if is_phi(inst) {
            crate::layout::lemma_inst_place(f, e, c, s, x - 1);
            assert(inst is PhiI64);
            assert(inst_ops(e, c, s, x - 1, inst).len() == 0);
            assert forall|w: VReg| known(f, s, x, w) && needed(f, s, x, w) && has_key(r, w)
                implies #[trigger] val(c1.1, loc_of(e, f.args, w)) == value_at(r, w) by {
                assert(known(f, s, x - 1, w)) by {
                    if def_before(f, s, x, w) && !live_fix(f).0[s].contains(w) && !def_before(f, s, x - 1, w) {
                        let x2 = choose|x2: int| 0 <= x2 < x && #[trigger] spec_def(inst_at(f, s, x2)) == w;
                        assert(x2 == x - 1);
                        assert(phi_def_set(f, s).contains(w));
                    }
                }
                assert(needed(f, s, x - 1, w)) by {
                    if exists|y: int| x <= y < f.blocks@[s].insts@.len() && !is_phi(inst_at(f, s, y))
                        && #[trigger] spec_uses(inst_at(f, s, y)).contains(w) {
                        let y = choose|y: int| x <= y < f.blocks@[s].insts@.len() && !is_phi(inst_at(f, s, y))
                            && #[trigger] spec_uses(inst_at(f, s, y)).contains(w);
                        assert(x - 1 <= y);
                    }
                }
            }
            c1
        } else if inst is CmpGtI64 {
            let cf = lemma_compare_step(f, regs, a, ivs, args, s, x - 1, r, c1);
            lemma_reaches_trans(p, cfg0, c1, cf);
            cf
        } else {
            let cf = lemma_inst_step(f, regs, a, ivs, args, s, x - 1, r, c1);
            lemma_reaches_trans(p, cfg0, c1, cf);
            cf
        }
    }
}

/// Values with different locations have different move locations.
pub proof fn lemma_loc_inj(f: Function, regs: PhysRegSet, a: Assignment, ivs: Seq<LiveInterval>, v: VReg, w: VReg)
    requires
        facts(f, regs, a, ivs),
        has_key(location_entries(a.map), v),
        has_key(location_entries(a.map), w),
        value_at(location_entries(a.map), v) != value_at(location_entries(a.map), w),
    ensures
        loc_of(location_entries(a.map), f.args, v) != loc_of(location_entries(a.map), f.args, w),
{
    let e = location_entries(a.map);
    lemma_key_index(e, v);
    lemma_key_index(e, w);
    let kv = key_index(e, v);
    let kw = key_index(e, w);
    if e[kv].1 is Stack {
        assert(f.args + e[kv].1->Stack_0.index <= u32::MAX);
    }
    if e[kw].1 is Stack {
        assert(f.args + e[kw].1->Stack_0.index <= u32::MAX);
    }
}

/// The value the phi at `x` of block `t` takes from the block with id `pid`.
pub open spec fn phi_src(f: Function, t: int, x: int, pid: BlockId) -> Option<VReg> {
    crate::codegen::phi_source(spec_phi_inputs(inst_at(f, t, x)), pid)
}

/// The phi at `x` of block `t` needs a move on the edge from `pid`.
pub open spec fn phi_moving(f: Function, e: Seq<(VReg, Location)>, args: u32, pid: BlockId, t: int, x: int) -> bool {
    &&& is_phi(inst_at(f, t, x))
    &&& phi_src(f, t, x, pid) is Some
    &&& loc_of(e, args, spec_def(inst_at(f, t, x))) != loc_of(e, args, phi_src(f, t, x, pid)->Some_0)
}

/// `l` is the location of a phi result among the first `m` instructions of block `t`.
pub open spec fn phi_dest(f: Function, e: Seq<(VReg, Location)>, args: u32, pid: BlockId, t: int, m: int, l: MoveLoc) -> bool {
    exists|x: int| 0 <= x < m && #[trigger] phi_moving(f, e, args, pid, t, x) && l == loc_of(e, args, spec_def(inst_at(f, t, x)))
}

/// That move.
pub open spec fn phi_move(f: Function, e: Seq<(VReg, Location)>, args: u32, pid: BlockId, t: int, x: int) -> (MoveLoc, MoveLoc) {
    (loc_of(e, args, spec_def(inst_at(f, t, x))), loc_of(e, args, phi_src(f, t, x, pid)->Some_0))
}

/// A phi source is touched at the predecessor's terminator.
proof fn lemma_phi_src_touched(f: Function, t: int, x: int, pid: BlockId)
    requires
        0 <= t < f.blocks@.len(),
        0 <= x < f.blocks@[t].insts@.len(),
        phi_src(f, t, x, pid) is Some,
    ensures
        touches(f, phi_src(f, t, x, pid)->Some_0, crate::intervals::phi_pred_pos(f, pid)),
        spec_phi_inputs(inst_at(f, t, x)).contains((pid, phi_src(f, t, x, pid)->Some_0)),
{
    let inputs = spec_phi_inputs(inst_at(f, t, x));
    lemma_key_index(inputs, pid);
    let y = key_index(inputs, pid);
    assert(inputs[y] == (pid, phi_src(f, t, x, pid)->Some_0));
    assert(crate::intervals::touch_phi(f, phi_src(f, t, x, pid)->Some_0, crate::intervals::phi_pred_pos(f, pid)));
}

/// The phi moves of the first `m` instructions of block `t` on the edge from `pid`.
pub open spec fn mvs(f: Function, a: Assignment, pid: BlockId, t: int, m: int) -> Seq<(MoveLoc, MoveLoc)> {
    crate::codegen::phi_moves(f, location_entries(a.map), f.args, pid, t, m)
}

/// No phi after the one at `x`, among the first `m` instructions of block `t`,
/// takes a value from `pid` into the same place.
pub open spec fn last_at_place(f: Function, e: Seq<(VReg, Location)>, args: u32, pid: BlockId, t: int, x: int, m: int) -> bool {
    forall|x2: int| x < x2 < m && is_phi(#[trigger] inst_at(f, t, x2)) && phi_src(f, t, x2, pid) is Some
        ==> loc_of(e, args, spec_def(inst_at(f, t, x2))) != loc_of(e, args, spec_def(inst_at(f, t, x)))
}

/// The phi moves of an edge: distinct destinations, each the place of a phi,
/// none touching a scratch register; the last phi at each place has its move,
/// or, when its source is already there, no move writes that place.
#[verifier::spinoff_prover]
#[verifier::rlimit(60)]
pub proof fn lemma_phi_moves(f: Function, regs: PhysRegSet, a: Assignment, ivs: Seq<LiveInterval>, pid: BlockId, t: int, m: int)
    requires
        facts(f, regs, a, ivs),
        0 <= t < f.blocks@.len(),
        0 <= m <= f.blocks@[t].insts@.len(),
    ensures
        forall|k1: int, k2: int| 0 <= k1 < k2 < mvs(f, a, pid, t, m).len() ==> mvs(f, a, pid, t, m)[k1].0 != mvs(f, a, pid, t, m)[k2].0,
        forall|k: int| 0 <= k < mvs(f, a, pid, t, m).len() ==> (#[trigger] mvs(f, a, pid, t, m)[k]).0 != MoveLoc::Reg(regs.scratch@[0])
            && mvs(f, a, pid, t, m)[k].0 != MoveLoc::Reg(regs.scratch@[1]) && mvs(f, a, pid, t, m)[k].1 != MoveLoc::Reg(regs.scratch@[0])
            && mvs(f, a, pid, t, m)[k].1 != MoveLoc::Reg(regs.scratch@[1]),
        forall|k: int| 0 <= k < mvs(f, a, pid, t, m).len()
            ==> phi_dest(f, location_entries(a.map), f.args, pid, t, m, (#[trigger] mvs(f, a, pid, t, m)[k]).0),
        forall|x: int| 0 <= x < m && is_phi(inst_at(f, t, x)) && phi_src(f, t, x, pid) is Some
            && #[trigger] last_at_place(f, location_entries(a.map), f.args, pid, t, x, m) ==> {
                &&& phi_moving(f, location_entries(a.map), f.args, pid, t, x) ==> exists|k: int| 0 <= k < mvs(f, a, pid, t, m).len()
                    && mvs(f, a, pid, t, m)[k] == phi_move(f, location_entries(a.map), f.args, pid, t, x)
                &&& !phi_moving(f, location_entries(a.map), f.args, pid, t, x) ==> forall|k: int| 0 <= k < mvs(f, a, pid, t, m).len()
                    ==> (#[trigger] mvs(f, a, pid, t, m)[k]).0 != loc_of(location_entries(a.map), f.args, spec_def(inst_at(f, t, x)))
            },
    decreases m,
{
    let e = location_entries(a.map);
    if m == 0 {
        assert(mvs(f, a, pid, t, m) =~= Seq::<(MoveLoc, MoveLoc)>::empty());
    } else {
        lemma_phi_moves(f, regs, a, ivs, pid, t, m - 1);
        let rest = mvs(f, a, pid, t, m - 1);
        let mv = mvs(f, a, pid, t, m);
        let x = m - 1;
        if is_phi(inst_at(f, t, x)) && phi_src(f, t, x, pid) is Some {
            let dv = spec_def(inst_at(f, t, x));
            let v = phi_src(f, t, x, pid)->Some_0;
            let d = loc_of(e, f.args, dv);
            let kept = crate::moves::without_dest(rest, d);
            crate::moves::lemma_without_dest(rest, d);
            assert(inst_at(f, t, x) is PhiI64);
            assert(mv == if phi_moving(f, e, f.args, pid, t, x) { kept.push(phi_move(f, e, f.args, pid, t, x)) } else { kept });
            assert(touch_inst(f, dv, pos_of(f, t, x)));
            lemma_placed(f, regs, a, ivs, dv, pos_of(f, t, x));
            lemma_phi_src_touched(f, t, x, pid);
            lemma_placed(f, regs, a, ivs, v, crate::intervals::phi_pred_pos(f, pid));
            // every kept move is a move of `rest`, not to `d`
            assert forall|k: int| 0 <= k < kept.len() implies #[trigger] kept[k].0 != d
                && exists|q: int| 0 <= q < rest.len() && rest[q] == kept[k] by {
                assert(rest.contains(kept[k]));
            }
            assert forall|k1: int, k2: int| 0 <= k1 < k2 < mv.len() implies mv[k1].0 != mv[k2].0 by {
                assert(mv[k1] == kept[k1]);
                if k2 < kept.len() {
                    assert(mv[k2] == kept[k2]);
                } else {
                    assert(kept[k1].0 != d);
                }
            }
            assert forall|k: int| 0 <= k < mv.len() implies (#[trigger] mv[k]).0 != MoveLoc::Reg(regs.scratch@[0])
                && mv[k].0 != MoveLoc::Reg(regs.scratch@[1]) && mv[k].1 != MoveLoc::Reg(regs.scratch@[0])
                && mv[k].1 != MoveLoc::Reg(regs.scratch@[1])
                && phi_dest(f, e, f.args, pid, t, m, mv[k].0) by {
                if k < kept.len() {
                    assert(mv[k] == kept[k]);
                    let q = choose|q: int| 0 <= q < rest.len() && rest[q] == kept[k];
                    assert(phi_dest(f, e, f.args, pid, t, m - 1, rest[q].0));
                    let x1 = choose|x1: int| 0 <= x1 < m - 1 && #[trigger] phi_moving(f, e, f.args, pid, t, x1)
                        && rest[q].0 == loc_of(e, f.args, spec_def(inst_at(f, t, x1)));
                    assert(0 <= x1 < m);
                } else {
                    assert(mv[k] == phi_move(f, e, f.args, pid, t, x));
                    assert(phi_moving(f, e, f.args, pid, t, x));
                }
            }
            assert forall|x2: int| 0 <= x2 < m && is_phi(inst_at(f, t, x2)) && phi_src(f, t, x2, pid) is Some
                && #[trigger] last_at_place(f, e, f.args, pid, t, x2, m) implies {
                    &&& phi_moving(f, e, f.args, pid, t, x2) ==> exists|k: int| 0 <= k < mv.len()
                        && mv[k] == phi_move(f, e, f.args, pid, t, x2)
                    &&& !phi_moving(f, e, f.args, pid, t, x2) ==> forall|k: int| 0 <= k < mv.len()
                        ==> (#[trigger] mv[k]).0 != loc_of(e, f.args, spec_def(inst_at(f, t, x2)))
                } by {
                if x2 < m - 1 {
                    let d2 = loc_of(e, f.args, spec_def(inst_at(f, t, x2)));
                    assert(d2 != d);
                    assert(last_at_place(f, e, f.args, pid, t, x2, m - 1));
                    if phi_moving(f, e, f.args, pid, t, x2) {
                        let q = choose|q: int| 0 <= q < rest.len() && rest[q] == phi_move(f, e, f.args, pid, t, x2);
                        assert(rest[q].0 != d);
                        assert(kept.contains(rest[q]));
                        let k = choose|k: int| 0 <= k < kept.len() && kept[k] == rest[q];
                        assert(mv[k] == kept[k]);
                    } else {
                        assert forall|k: int| 0 <= k < mv.len() implies (#[trigger] mv[k]).0 != d2 by {
                            if k < kept.len() {
                                assert(mv[k] == kept[k]);
                                let q = choose|q: int| 0 <= q < rest.len() && rest[q] == kept[k];
                                assert(rest[q].0 != d2);
                            }
                        }
                    }
                } else {
                    if phi_moving(f, e, f.args, pid, t, x2) {
                        assert(mv[kept.len() as int] == phi_move(f, e, f.args, pid, t, x));
                    } else {
                        assert forall|k: int| 0 <= k < mv.len() implies (#[trigger] mv[k]).0 != d by {
                            assert(mv[k] == kept[k]);
                        }
                    }
                }
            }
        } else {
            assert(mv == rest) by {
                match inst_at(f, t, x) {
                    Inst::PhiI64 { dst, incoming } => {},
                    _ => {},
                }
            }
            assert forall|k: int| 0 <= k < mv.len() implies phi_dest(f, e, f.args, pid, t, m, (#[trigger] mv[k]).0) by {
                assert(phi_dest(f, e, f.args, pid, t, m - 1, rest[k].0));
                let x1 = choose|x1: int| 0 <= x1 < m - 1 && #[trigger] phi_moving(f, e, f.args, pid, t, x1)
                    && rest[k].0 == loc_of(e, f.args, spec_def(inst_at(f, t, x1)));
                assert(0 <= x1 < m);
            }
            assert forall|x2: int| 0 <= x2 < m && is_phi(inst_at(f, t, x2)) && phi_src(f, t, x2, pid) is Some
                && #[trigger] last_at_place(f, e, f.args, pid, t, x2, m) implies last_at_place(f, e, f.args, pid, t, x2, m - 1) by {}
        }
    }
}

/// A phi whose result is in use after the phis of its block is the last phi at its place:
/// the interval of its result holds the definitions of the later phis, so none of
/// them shares that place.
pub proof fn lemma_needed_phi_last(f: Function, regs: PhysRegSet, a: Assignment, ivs: Seq<LiveInterval>, pid: BlockId, t: int, x: int)
    requires
        facts(f, regs, a, ivs),
        0 <= t < f.blocks@.len(),
        0 <= x < f.blocks@[t].insts@.len(),
        is_phi(inst_at(f, t, x)),
        needed(f, t, 0, spec_def(inst_at(f, t, x))),
    ensures
        last_at_place(f, location_entries(a.map), f.args, pid, t, x, f.blocks@[t].insts@.len() as int),
{
    let e = location_entries(a.map);
    let nt = f.blocks@[t].insts@.len() as int;
    let w = spec_def(inst_at(f, t, x));
    assert forall|x2: int| x < x2 < nt && is_phi(#[trigger] inst_at(f, t, x2)) && phi_src(f, t, x2, pid) is Some
        implies loc_of(e, f.args, spec_def(inst_at(f, t, x2))) != loc_of(e, f.args, w) by {
        let d2 = spec_def(inst_at(f, t, x2));
        if d2 == w {
            lemma_one_def(f, t, x, t, x2);
        }
        // a touch of `w` at or after the phi at x2
        let hi: int = if exists|y: int| 0 <= y < nt && !is_phi(inst_at(f, t, y)) && #[trigger] spec_uses(inst_at(f, t, y)).contains(w) {
            let y = choose|y: int| 0 <= y < nt && !is_phi(inst_at(f, t, y)) && #[trigger] spec_uses(inst_at(f, t, y)).contains(w);
            lemma_phi_prefix(f, t, x2, y);
            assert(touch_inst(f, w, pos_of(f, t, y)));
            pos_of(f, t, y)
        } else {
            assert(touch_term(f, w, pos_of(f, t, nt)));
            pos_of(f, t, nt)
        };
        assert(touches(f, w, hi));
        let jw = lemma_interval_at(f, ivs, w, hi);
        assert(touch_inst(f, w, pos_of(f, t, x)));
        assert(touches(f, w, pos_of(f, t, x)));
        assert(touch_inst(f, d2, pos_of(f, t, x2)));
        let jd = lemma_interval_at(f, ivs, d2, pos_of(f, t, x2));
        lemma_apart(f, regs, a, ivs, jd, jw, pos_of(f, t, x2));
    }
}

pub proof fn lemma_store_prefix(r: Seq<(VReg, i64)>, w1: Seq<(VReg, i64)>, w2: Seq<(VReg, i64)>, k: int)
    requires
        0 <= k <= w1.len(),
        k <= w2.len(),
        forall|i: int| 0 <= i < k ==> w1[i] == w2[i],
    ensures
        store_all(r, w1, k) == store_all(r, w2, k),
    decreases k,
{
    if k > 0 {
        lemma_store_prefix(r, w1, w2, k - 1);
    }
}

/// The phis of block `t`, entered from the block with id `pid`: each phi
/// result takes its source's value, and every other value stays.
pub proof fn lemma_phis(f: Function, t: int, pid: BlockId, r2: Seq<(VReg, i64)>, m: int)
    requires
        function_valid(f),
        0 <= t < f.blocks@.len(),
        0 <= m <= f.blocks@[t].insts@.len(),
        keys_distinct(r2),
        phi_results(f, t, Some(pid), r2, m) is Ok,
    ensures
        ({
            let ph = phi_results(f, t, Some(pid), r2, m)->Ok_0;
            let r3 = store_all(r2, ph, ph.len() as int);
            &&& keys_distinct(r3)
            &&& forall|x: int| 0 <= x < m && is_phi(#[trigger] inst_at(f, t, x)) ==> phi_src(f, t, x, pid) is Some
                && has_key(r2, phi_src(f, t, x, pid)->Some_0)
                && has_key(r3, spec_def(inst_at(f, t, x)))
                && value_at(r3, spec_def(inst_at(f, t, x))) == value_at(r2, phi_src(f, t, x, pid)->Some_0)
            &&& forall|w: VReg| (forall|x: int| 0 <= x < m && is_phi(#[trigger] inst_at(f, t, x)) ==> spec_def(inst_at(f, t, x)) != w)
                ==> has_key(r3, w) == has_key(r2, w) && (has_key(r2, w) ==> value_at(r3, w) == value_at(r2, w))
        }),
    decreases m,
{
    if m > 0 {
        lemma_phis(f, t, pid, r2, m - 1);
        let ph0 = phi_results(f, t, Some(pid), r2, m - 1)->Ok_0;
        let r0 = store_all(r2, ph0, ph0.len() as int);
        let ph = phi_results(f, t, Some(pid), r2, m)->Ok_0;
        let inst = inst_at(f, t, m - 1);
        if is_phi(inst) {
            assert(inst is PhiI64);
            let d = spec_def(inst);
            let v = phi_src(f, t, m - 1, pid)->Some_0;
            assert(ph == ph0.push((d, value_at(r2, v))));
            lemma_store_prefix(r2, ph, ph0, ph0.len() as int);
            assert(store_all(r2, ph, ph.len() as int) == entries_insert(r0, d, value_at(r2, v)));
            lemma_entries_insert(r0, d, value_at(r2, v));
            assert forall|x: int| 0 <= x < m - 1 && is_phi(#[trigger] inst_at(f, t, x)) implies spec_def(inst_at(f, t, x)) != d by {
                if spec_def(inst_at(f, t, x)) == d {
                    lemma_one_def(f, t, x, t, m - 1);
                }
            }
        } else {
            assert(ph == ph0);
        }
    }
}

/// Crossing an edge: the phi moves leave the machine agreeing with the
/// interpreter at the start of the successor, with its phis taken.
#[verifier::spinoff_prover]
#[verifier::rlimit(80)]
pub proof fn lemma_edge(
    f: Function, regs: PhysRegSet, a: Assignment, ivs: Seq<LiveInterval>, args: Seq<i64>,
    pi: int, succ: BlockId, r2: Seq<(VReg, i64)>, st: MState,
)
    requires
        facts(f, regs, a, ivs),
        args.len() == f.args,
        0 <= pi < f.blocks@.len(),
        spec_successors(f.blocks@[pi].term).contains(succ),
        agree(f, location_entries(a.map), args, pi, f.blocks@[pi].insts@.len() as int, r2, st),
        0 <= first_block_index(f.blocks@, succ),
        phi_results(f, first_block_index(f.blocks@, succ), Some(f.blocks@[pi].id), r2,
            f.blocks@[first_block_index(f.blocks@, succ)].insts@.len() as int) is Ok,
    ensures
        ({
            let t = first_block_index(f.blocks@, succ);
            let ph = phi_results(f, t, Some(f.blocks@[pi].id), r2, f.blocks@[t].insts@.len() as int)->Ok_0;
            agree(f, location_entries(a.map), args, t, 0, store_all(r2, ph, ph.len() as int),
                run(crate::codegen::edge_ops(f, location_entries(a.map), lowering_context(f, regs, a.stack_slots),
                    f.blocks@[pi].id, succ), st))
        }),
{
    let e = location_entries(a.map);
    let c = lowering_context(f, regs, a.stack_slots);
    let pid = f.blocks@[pi].id;
    lemma_first_block_index(f.blocks@, succ);
    let t = first_block_index(f.blocks@, succ);
    let nt = f.blocks@[t].insts@.len() as int;
    let np = f.blocks@[pi].insts@.len() as int;
    assert(f.blocks@[t].id == succ);
    assert(edge(f, pi, t));
    let lin = live_fix(f).0;
    let lout = live_fix(f).1;
    assert(live_solution(f, lin, lout));
    assert(lout[pi] == out_step(f, lin, pi));
    let moves = mvs(f, a, pid, t, nt);
    assert(crate::codegen::edge_moves(f, e, f.args, pid, succ) == moves);
    lemma_phi_moves(f, regs, a, ivs, pid, t, nt);
    lemma_scratch_distinct(regs);
    crate::moves::lemma_parallel_moves(moves, c.s0, c.s1, st);
    let after = run(crate::codegen::edge_ops(f, e, c, pid, succ), st);
    lemma_phis(f, t, pid, r2, nt);
    let ph = phi_results(f, t, Some(pid), r2, nt)->Ok_0;
    let r3 = store_all(r2, ph, ph.len() as int);
    // the shadow slots
    assert forall|q: u32| q < args.len() implies #[trigger] val(after, MoveLoc::Frame(q)) == args[q as int] by {
        assert(val(st, MoveLoc::Frame(q)) == args[q as int]);
        assert forall|k: int| 0 <= k < moves.len() implies (#[trigger] moves[k]).0 != MoveLoc::Frame(q) by {
            assert(phi_dest(f, e, f.args, pid, t, nt, moves[k].0));
            let x = choose|x: int| 0 <= x < nt && #[trigger] phi_moving(f, e, f.args, pid, t, x)
                && moves[k].0 == loc_of(e, f.args, spec_def(inst_at(f, t, x)));
            assert(touch_inst(f, spec_def(inst_at(f, t, x)), pos_of(f, t, x)));
            lemma_placed(f, regs, a, ivs, spec_def(inst_at(f, t, x)), pos_of(f, t, x));
        }
        crate::moves::lemma_moved_none(moves, st, MoveLoc::Frame(q));
    }
    // the values
    assert forall|w: VReg| known(f, t, 0, w) && needed(f, t, 0, w) && has_key(r3, w)
        implies #[trigger] val(after, loc_of(e, f.args, w)) == value_at(r3, w) by {
        if exists|x: int| 0 <= x < nt && is_phi(#[trigger] inst_at(f, t, x)) && spec_def(inst_at(f, t, x)) == w {
            let x = choose|x: int| 0 <= x < nt && is_phi(#[trigger] inst_at(f, t, x)) && spec_def(inst_at(f, t, x)) == w;
            let v = phi_src(f, t, x, pid)->Some_0;
            assert(phi_src(f, t, x, pid) is Some);
            assert(value_at(r3, w) == value_at(r2, v));
            // the source is live out of the predecessor
            lemma_phi_src_touched(f, t, x, pid);
            let inputs = spec_phi_inputs(inst_at(f, t, x));
            let y = choose|y: int| 0 <= y < inputs.len() && inputs[y] == (pid, v);
            assert(phi_use_set(f, pi, t).contains(v));
            assert(out_step(f, lin, pi).contains(v));
            lemma_end_known(f, pi, v);
            assert(val(st, loc_of(e, f.args, v)) == value_at(r2, v));
            assert(touch_inst(f, w, pos_of(f, t, x)));
            lemma_placed(f, regs, a, ivs, w, pos_of(f, t, x));
            lemma_needed_phi_last(f, regs, a, ivs, pid, t, x);
            assert(last_at_place(f, e, f.args, pid, t, x, nt));
            if phi_moving(f, e, f.args, pid, t, x) {
                let k = choose|k: int| 0 <= k < moves.len() && moves[k] == phi_move(f, e, f.args, pid, t, x);
                crate::moves::lemma_moved_at(moves, st, k);
            } else {
                assert(forall|k: int| 0 <= k < moves.len() ==> (#[trigger] moves[k]).0 != loc_of(e, f.args, w));
                crate::moves::lemma_moved_none(moves, st, loc_of(e, f.args, w));
            }
        } else {
            assert(!phi_def_set(f, t).contains(w));
            assert(lin[t].contains(w));
            assert(has_key(r2, w));
            assert(value_at(r3, w) == value_at(r2, w));
            assert(out_step(f, lin, pi).contains(w));
            lemma_end_known(f, pi, w);
            assert(val(st, loc_of(e, f.args, w)) == value_at(r2, w));
            assert(touch_entry(f, w, block_base(f, t)));
            assert(touches(f, w, pos_of(f, t, 0)));
            let jw = lemma_interval_at(f, ivs, w, pos_of(f, t, 0));
            lemma_off_scratch_of_interval(f, regs, a, ivs, jw);
            assert forall|k: int| 0 <= k < moves.len() implies (#[trigger] moves[k]).0 != loc_of(e, f.args, w) by {
                assert(phi_dest(f, e, f.args, pid, t, nt, moves[k].0));
                let x2 = choose|x2: int| 0 <= x2 < nt && #[trigger] phi_moving(f, e, f.args, pid, t, x2)
                    && moves[k].0 == loc_of(e, f.args, spec_def(inst_at(f, t, x2)));
                let d2 = spec_def(inst_at(f, t, x2));
                assert(touch_inst(f, d2, pos_of(f, t, x2)));
                let jd = lemma_interval_at(f, ivs, d2, pos_of(f, t, x2));
                // w's interval reaches past the phis
                if exists|y: int| 0 <= y < nt && !is_phi(inst_at(f, t, y)) && #[trigger] spec_uses(inst_at(f, t, y)).contains(w) {
                    let y = choose|y: int| 0 <= y < nt && !is_phi(inst_at(f, t, y)) && #[trigger] spec_uses(inst_at(f, t, y)).contains(w);
                    lemma_phi_prefix(f, t, x2, y);
                    assert(touch_inst(f, w, pos_of(f, t, y)));
                    assert(touches(f, w, pos_of(f, t, y)));
                } else {
                    assert(touch_term(f, w, pos_of(f, t, nt)));
                    assert(touches(f, w, pos_of(f, t, nt)));
                }
                assert(d2 != w);
                lemma_apart(f, regs, a, ivs, jd, jw, pos_of(f, t, x2));
            }
            crate::moves::lemma_moved_none(moves, st, loc_of(e, f.args, w));
        }
    }
}

/// Crossing an edge and jumping to the successor's label.
#[verifier::spinoff_prover]
#[verifier::rlimit(80)]
pub proof fn lemma_cross(
    f: Function, regs: PhysRegSet, a: Assignment, ivs: Seq<LiveInterval>, args: Seq<i64>,
    pi: int, succ: BlockId, r2: Seq<(VReg, i64)>, cfg: Config,
) -> (cf: Config)
    requires
        facts(f, regs, a, ivs),
        args.len() == f.args,
        0 <= pi < f.blocks@.len(),
        spec_successors(f.blocks@[pi].term).contains(succ),
        agree(f, location_entries(a.map), args, pi, f.blocks@[pi].insts@.len() as int, r2, cfg.1),
        0 <= first_block_index(f.blocks@, succ),
        phi_results(f, first_block_index(f.blocks@, succ), Some(f.blocks@[pi].id), r2,
            f.blocks@[first_block_index(f.blocks@, succ)].insts@.len() as int) is Ok,
        seg_at(lowered_program(f, regs, a), cfg.0,
            crate::codegen::edge_ops(f, location_entries(a.map), lowering_context(f, regs, a.stack_slots), f.blocks@[pi].id, succ)
            + seq![AsmOp::Jmp(AsmLabel::Block(succ))]),
    ensures
        ({
            let t = first_block_index(f.blocks@, succ);
            let ph = phi_results(f, t, Some(f.blocks@[pi].id), r2, f.blocks@[t].insts@.len() as int)->Ok_0;
            &&& reaches(lowered_program(f, regs, a), cfg, cf)
            &&& cf.0 == block_pos(f, location_entries(a.map), lowering_context(f, regs, a.stack_slots), t)
            &&& agree(f, location_entries(a.map), args, t, 0, store_all(r2, ph, ph.len() as int), cf.1)
        }),
{
    let e = location_entries(a.map);
    let c = lowering_context(f, regs, a.stack_slots);
    let p = lowered_program(f, regs, a);
    let pid = f.blocks@[pi].id;
    let eo = crate::codegen::edge_ops(f, e, c, pid, succ);
    lemma_edge(f, regs, a, ivs, args, pi, succ, r2, cfg.1);
    crate::execution::lemma_seg_split(p, cfg.0, eo, seq![AsmOp::Jmp(AsmLabel::Block(succ))]);
    crate::layout::lemma_edge_plain(f, e, c, pid, succ);
    lemma_exec_straight(p, cfg.0, eo, cfg.1, cfg.2, cfg.3);
    let c1: Config = (cfg.0 + eo.len(), run(eo, cfg.1), cfg.2, cfg.3);
    let sj = seq![AsmOp::Jmp(AsmLabel::Block(succ))];
    assert(p[(cfg.0 + eo.len()) + 0] == sj[0]);
    lemma_first_block_index(f.blocks@, succ);
    let t = first_block_index(f.blocks@, succ);
    crate::layout::lemma_target_block(f, e, c, t);
    let c2 = lemma_one(p, c1);
    lemma_reaches_trans(p, cfg, c1, c2);
    c2
}

/// A return, run by the machine: RAX gets the returned value's location.
pub proof fn lemma_ret_run(f: Function, regs: PhysRegSet, a: Assignment, s: int, cfg: Config) -> (cf: Config)
    requires
        0 <= s < f.blocks@.len(),
        f.blocks@[s].term is Ret,
        cfg.0 == term_pos(f, location_entries(a.map), lowering_context(f, regs, a.stack_slots), s),
    ensures
        reaches(lowered_program(f, regs, a), cfg, cf),
        returned(lowered_program(f, regs, a), cf),
        (cf.1.0)(PhysReg::Rax) == val(cfg.1, loc_of(location_entries(a.map), f.args, f.blocks@[s].term->value)),
{
    let e = location_entries(a.map);
    let c = lowering_context(f, regs, a.stack_slots);
    let p = lowered_program(f, regs, a);
    let v = f.blocks@[s].term->value;
    let st = cfg.1;
    crate::layout::lemma_program_parts(f, e, c, s);
    let rv = read_ops(loc_of(e, c.args, v), PhysReg::Rax);
    let mv = if rv.1 != PhysReg::Rax { seq![AsmOp::MovRR { dst: PhysReg::Rax, src: rv.1 }] } else { seq![] };
    let fr = if c.frame_bytes > 0 { seq![AsmOp::AddRsp(c.frame_bytes)] } else { seq![] };
    let pre = rv.0 + mv + fr + seq![AsmOp::PopRbp];
    assert(term_ops(f, e, c, s) == pre + seq![AsmOp::Ret]);
    crate::execution::lemma_seg_split(p, cfg.0, pre, seq![AsmOp::Ret]);
    crate::layout::lemma_read_write_plain(loc_of(e, c.args, v), PhysReg::Rax, loc_of(e, c.args, v), PhysReg::Rax);
    crate::layout::lemma_plain_straight(rv.0);
    crate::layout::lemma_straight_concat(rv.0, mv);
    crate::layout::lemma_straight_concat(rv.0 + mv, fr);
    crate::layout::lemma_straight_concat(rv.0 + mv + fr, seq![AsmOp::PopRbp]);
    lemma_exec_straight(p, cfg.0, pre, st, cfg.2, cfg.3);
    let cf: Config = (cfg.0 + pre.len(), run(pre, st), cfg.2, cfg.3);
    let sr = seq![AsmOp::Ret];
    assert(p[(cfg.0 + pre.len()) + 0] == sr[0]);
    lemma_read(loc_of(e, c.args, v), PhysReg::Rax, st);
    let st1 = run(rv.0, st);
    let st2 = run(mv, st1);
    if rv.1 != PhysReg::Rax {
        lemma_run_single(AsmOp::MovRR { dst: PhysReg::Rax, src: rv.1 }, st1);
    }
    assert((st2.0)(PhysReg::Rax) == val(st, loc_of(e, c.args, v)));
    let tail = fr + seq![AsmOp::PopRbp];
    crate::simulation::lemma_run_idle_pub(tail, st2);
    assert(pre == rv.0 + mv + tail);
    lemma_run_append(rv.0, mv, st);
    lemma_run_append(rv.0 + mv, tail, st);
    cf
}

/// The machine at the label of block `cur`, agreeing with the interpreter
/// entering it from `pred` with values `r`.
pub open spec fn entered(f: Function, regs: PhysRegSet, a: Assignment, args: Seq<i64>, cur: BlockId,
    pred: Option<BlockId>, r: Seq<(VReg, i64)>, st: MState) -> bool
{
    let s = first_block_index(f.blocks@, cur);
    &&& 0 <= s
    &&& phi_results(f, s, pred, r, f.blocks@[s].insts@.len() as int) is Ok
    &&& agree(f, location_entries(a.map), args, s, 0,
        store_all(r, phi_results(f, s, pred, r, f.blocks@[s].insts@.len() as int)->Ok_0,
            phi_results(f, s, pred, r, f.blocks@[s].insts@.len() as int)->Ok_0.len() as int), st)
}

/// From the label of a block, the machine returns what the interpreter returns.
#[verifier::spinoff_prover]
#[verifier::rlimit(100)]
pub proof fn lemma_block(
    f: Function, regs: PhysRegSet, a: Assignment, ivs: Seq<LiveInterval>, args: Seq<i64>, limit: nat,
    cur: BlockId, pred: Option<BlockId>, r: Seq<(VReg, i64)>, steps: nat, cfg: Config,
) -> (cf: Config)
    requires
        facts(f, regs, a, ivs),
        args.len() == f.args,
        eval_from(f, args, limit, cur, pred, r, steps) is Ok,
        entered(f, regs, a, args, cur, pred, r, cfg.1),
        cfg.0 == block_pos(f, location_entries(a.map), lowering_context(f, regs, a.stack_slots),
            first_block_index(f.blocks@, cur)),
    ensures
        reaches(lowered_program(f, regs, a), cfg, cf),
        returned(lowered_program(f, regs, a), cf),
        (cf.1.0)(PhysReg::Rax) == eval_from(f, args, limit, cur, pred, r, steps)->Ok_0,
    decreases limit - steps,
{
    let e = location_entries(a.map);
    let c = lowering_context(f, regs, a.stack_slots);
    let p = lowered_program(f, regs, a);
    let s = first_block_index(f.blocks@, cur);
    lemma_first_block_index(f.blocks@, cur);
    let blk = f.blocks@[s];
    let n = blk.insts@.len() as int;
    let s1 = steps + 1;
    let ph = phi_results(f, s, pred, r, n)->Ok_0;
    let r1 = store_all(r, ph, ph.len() as int);
    assert(step_error(s1 as int, limit) is None);
    assert(run_insts(f, s, args, r1, s1, limit, n) is Ok);
    let r2 = run_insts(f, s, args, r1, s1, limit, n)->Ok_0;
    let s2 = s1 + n;
    let result = eval_from(f, args, limit, cur, pred, r, steps)->Ok_0;
    // the label, then the instructions
    crate::layout::lemma_program_parts(f, e, c, s);
    let c0 = lemma_one(p, cfg);
    assert(c0.0 == inst_pos(f, e, c, s, 0));
    assert(c0.1 == cfg.1);
    let cn = lemma_insts_run(f, regs, a, ivs, args, limit, s, r1, s1, c0, n);
    lemma_reaches_trans(p, cfg, c0, cn);
    assert(cn.0 == term_pos(f, e, c, s));
    match blk.term {
        Terminator::Ret { value } => {
            assert(spec_term_uses(blk.term)[0] == value);
            lemma_end_known(f, s, value);
            assert(result == value_at(r2, value));
            let cr = lemma_ret_run(f, regs, a, s, cn);
            lemma_reaches_trans(p, cfg, cn, cr);
            cr
        },
        Terminator::Jmp { target: tgt } => {
            assert(s2 <= limit);
            assert(spec_successors(blk.term)[0] == tgt);
            assert(eval_from(f, args, limit, tgt, Some(cur), r2, s2 as nat) is Ok);
            lemma_first_block_index(f.blocks@, tgt);
            assert(blk.id == cur);
            let eo = crate::codegen::edge_ops(f, e, c, cur, tgt);
            assert(term_ops(f, e, c, s) == eo + seq![AsmOp::Jmp(AsmLabel::Block(tgt))]);
            let cj = lemma_cross(f, regs, a, ivs, args, s, tgt, r2, cn);
            let cr = lemma_block(f, regs, a, ivs, args, limit, tgt, Some(cur), r2, s2 as nat, cj);
            lemma_reaches_trans(p, cfg, cn, cj);
            lemma_reaches_trans(p, cfg, cj, cr);
            cr
        },
        Terminator::Br { cond, then_bb, else_bb } => {
            assert(s2 <= limit);
            assert(has_key(r2, cond));
            assert(spec_term_uses(blk.term)[0] == cond);
            lemma_end_known(f, s, cond);
            let vc = value_at(r2, cond);
            assert(val(cn.1, loc_of(e, f.args, cond)) == vc);
            let tgt = if vc != 0 { then_bb } else { else_bb };
            assert(spec_successors(blk.term)[0] == then_bb);
            assert(spec_successors(blk.term)[1] == else_bb);
            assert(spec_successors(blk.term).contains(tgt));
            assert(eval_from(f, args, limit, tgt, Some(cur), r2, s2 as nat) is Ok);
            assert(result == eval_from(f, args, limit, tgt, Some(cur), r2, s2 as nat)->Ok_0);
            lemma_first_block_index(f.blocks@, tgt);
            assert(blk.id == cur);
            let ce = lemma_branch_run(f, regs, a, ivs, s, vc, cn);
            lemma_agree_frame(f, regs, a, ivs, args, s, n, r2, cn.1, ce.1);
            let cj = lemma_cross(f, regs, a, ivs, args, s, tgt, r2, ce);
            let cr = lemma_block(f, regs, a, ivs, args, limit, tgt, Some(cur), r2, s2 as nat, cj);
            lemma_reaches_trans(p, cfg, cn, ce);
            lemma_reaches_trans(p, cfg, ce, cj);
            lemma_reaches_trans(p, cfg, cj, cr);
            cr
        },
    }
}

/// A branch, run by the machine: it tests the condition and reaches the
/// moves and jump of the edge the value picks, the registers untouched.
#[verifier::spinoff_prover]
#[verifier::rlimit(80)]
pub proof fn lemma_branch_run(f: Function, regs: PhysRegSet, a: Assignment, ivs: Seq<LiveInterval>, s: int, vc: i64, cfg: Config) -> (cf: Config)
    requires
        facts(f, regs, a, ivs),
        0 <= s < f.blocks@.len(),
        f.blocks@[s].term is Br,
        cfg.0 == term_pos(f, location_entries(a.map), lowering_context(f, regs, a.stack_slots), s),
        val(cfg.1, loc_of(location_entries(a.map), f.args, f.blocks@[s].term->Br_cond)) == vc,
    ensures
        reaches(lowered_program(f, regs, a), cfg, cf),
        forall|l: MoveLoc| l != MoveLoc::Reg(regs.scratch@[0]) ==> #[trigger] val(cf.1, l) == val(cfg.1, l),
        ({
            let tgt = if vc != 0 { f.blocks@[s].term->then_bb } else { f.blocks@[s].term->else_bb };
            seg_at(lowered_program(f, regs, a), cf.0,
                crate::codegen::edge_ops(f, location_entries(a.map), lowering_context(f, regs, a.stack_slots), f.blocks@[s].id, tgt)
                + seq![AsmOp::Jmp(AsmLabel::Block(tgt))])
        }),
{
    let e = location_entries(a.map);
    let c = lowering_context(f, regs, a.stack_slots);
    let p = lowered_program(f, regs, a);
    let blk = f.blocks@[s];
    let cond = blk.term->Br_cond;
    let then_bb = blk.term->then_bb;
    let else_bb = blk.term->else_bb;
    let (pa, pb, pd, pg) = crate::layout::branch_parts(f, e, c, s);
    crate::layout::lemma_target_stubs(f, e, c, s);
    crate::layout::lemma_program_parts(f, e, c, s);
    let q0 = cfg.0;
    let rc = read_ops(loc_of(e, c.args, cond), c.s0);
    let ts = AsmLabel::ThenStub(s as u32);
    let es = AsmLabel::ElseStub(s as u32);
    let tail4 = seq![AsmOp::Test { a: rc.1 }, AsmOp::Jnz(ts), AsmOp::Jmp(es), AsmOp::Label(ts)];
    assert(pa == rc.0 + tail4);
    crate::execution::lemma_seg_split(p, q0, pa + pb + pd, pg);
    crate::execution::lemma_seg_split(p, q0, pa + pb, pd);
    crate::execution::lemma_seg_split(p, q0, pa, pb);
    crate::execution::lemma_seg_split(p, q0, rc.0, tail4);
    crate::layout::lemma_read_write_plain(loc_of(e, c.args, cond), c.s0, loc_of(e, c.args, cond), c.s0);
    crate::layout::lemma_plain_straight(rc.0);
    lemma_exec_straight(p, q0, rc.0, cfg.1, cfg.2, cfg.3);
    let st1 = run(rc.0, cfg.1);
    lemma_read(loc_of(e, c.args, cond), c.s0, cfg.1);
    assert((st1.0)(rc.1) == vc);
    let q = q0 + rc.0.len();
    let c1: Config = (q, st1, cfg.2, cfg.3);
    assert(p[q + 0] == tail4[0]);
    assert(p[q + 1] == tail4[1]);
    assert(p[q + 2] == tail4[2]);
    let c2 = lemma_one(p, c1);
    assert(c2 == (q + 1, st1, cfg.2, vc != 0));
    let c3 = lemma_one(p, c2);
    lemma_reaches_trans(p, c1, c2, c3);
    lemma_reaches_trans(p, cfg, c1, c3);
    // the edge moves do not touch the condition's register... only the state matters below
    if vc != 0 {
        assert(c3.0 == q0 + pa.len() - 1);
        assert(p[q0 + pa.len() - 1] == pa[pa.len() - 1]);
        let c4 = lemma_one(p, c3);
        lemma_reaches_trans(p, cfg, c3, c4);
        let eo = crate::codegen::edge_ops(f, e, c, blk.id, then_bb);
        let seg = eo + seq![AsmOp::Jmp(AsmLabel::Block(then_bb))];
        assert(pb == seg + seq![AsmOp::Label(es)]);
        crate::execution::lemma_seg_split(p, q0 + pa.len(), seg, seq![AsmOp::Label(es)]);
        c4
    } else {
        let c4 = lemma_one(p, c3);
        assert(c4.0 == q0 + pa.len() + pb.len() - 1);
        assert(p[q0 + pa.len() + (pb.len() - 1)] == pb[pb.len() - 1]);
        let c5 = lemma_one(p, c4);
        lemma_reaches_trans(p, cfg, c3, c4);
        lemma_reaches_trans(p, cfg, c4, c5);
        let eo = crate::codegen::edge_ops(f, e, c, blk.id, else_bb);
        assert(pd + pg == eo + seq![AsmOp::Jmp(AsmLabel::Block(else_bb))]);
        crate::execution::lemma_seg_split(p, q0, pa + pb, pd + pg);
        c5
    }
}

/// Changing only the scratch registers keeps the agreement.
pub proof fn lemma_agree_frame(
    f: Function, regs: PhysRegSet, a: Assignment, ivs: Seq<LiveInterval>, args: Seq<i64>,
    s: int, x: int, r: Seq<(VReg, i64)>, st: MState, st2: MState,
)
    requires
        facts(f, regs, a, ivs),
        0 <= s < f.blocks@.len(),
        0 <= x <= f.blocks@[s].insts@.len(),
        agree(f, location_entries(a.map), args, s, x, r, st),
        forall|l: MoveLoc| l != MoveLoc::Reg(regs.scratch@[0]) ==> #[trigger] val(st2, l) == val(st, l),
    ensures
        agree(f, location_entries(a.map), args, s, x, r, st2),
{
    let e = location_entries(a.map);
    assert forall|q: u32| q < args.len() implies #[trigger] val(st2, MoveLoc::Frame(q)) == args[q as int] by {
        assert(val(st2, MoveLoc::Frame(q)) == val(st, MoveLoc::Frame(q)));
    }
    assert forall|w: VReg| known(f, s, x, w) && needed(f, s, x, w) && has_key(r, w)
        implies #[trigger] val(st2, loc_of(e, f.args, w)) == value_at(r, w) by {
        let n = f.blocks@[s].insts@.len() as int;
        if exists|y: int| x <= y < n && !is_phi(inst_at(f, s, y)) && #[trigger] spec_uses(inst_at(f, s, y)).contains(w) {
            let y = choose|y: int| x <= y < n && !is_phi(inst_at(f, s, y)) && #[trigger] spec_uses(inst_at(f, s, y)).contains(w);
            assert(touch_inst(f, w, pos_of(f, s, y)));
            lemma_placed(f, regs, a, ivs, w, pos_of(f, s, y));
        } else {
            assert(touch_term(f, w, pos_of(f, s, n)));
            lemma_placed(f, regs, a, ivs, w, pos_of(f, s, n));
        }
        assert(val(st2, loc_of(e, f.args, w)) == val(st, loc_of(e, f.args, w)));
    }
}

/// Entering the entry block from nowhere, the phis give nothing.
pub proof fn lemma_no_phis(f: Function, s: int, regs: Seq<(VReg, i64)>, m: int)
    requires
        0 <= s < f.blocks@.len(),
        0 <= m <= f.blocks@[s].insts@.len(),
        phi_results(f, s, None, regs, m) is Ok,
    ensures
        phi_results(f, s, None, regs, m) == Ok::<Seq<(VReg, i64)>, crate::interp::InterpError>(seq![]),
    decreases m,
{
    if m > 0 {
        lemma_no_phis(f, s, regs, m - 1);
        if inst_at(f, s, m - 1) is PhiI64 {
            assert(phi_results(f, s, None, regs, m) is Err);
        }
    }
}

/// Block and instruction counts fit a `u32` when the positions do.
pub proof fn lemma_counts_fit(f: Function)
    requires
        block_base(f, f.blocks@.len() as int) <= u32::MAX,
    ensures
        counts_fit(f),
{
    let n = f.blocks@.len() as int;
    assert forall|q: int| 0 <= q < n implies (#[trigger] f.blocks@[q]).insts@.len() <= u32::MAX by {
        crate::intervals::lemma_block_base_mono(f, q, n);
        assert(block_base(f, q) >= 0) by { lemma_block_base_nonneg(f, q); }
    }
    lemma_block_base_at_least(f, n);
}

proof fn lemma_block_base_nonneg(f: Function, q: int)
    requires
        0 <= q <= f.blocks@.len(),
    ensures
        block_base(f, q) >= 0,
    decreases q,
{
    if q > 0 {
        lemma_block_base_nonneg(f, q - 1);
    }
}

proof fn lemma_block_base_at_least(f: Function, q: int)
    requires
        0 <= q <= f.blocks@.len(),
    ensures
        block_base(f, q) >= q,
    decreases q,
{
    if q > 0 {
        lemma_block_base_at_least(f, q - 1);
    }
}

/// Compiled code computes what the interpreter computes. Started at its
/// first instruction with the arguments in the System V argument registers,
/// whatever the other registers, frame slots and flags hold, the program that
/// lowering gives runs (moves, loads, stores, arithmetic, compares, tests,
/// jumps to labels) until it stops at a return with the interpreter's result
/// in RAX, for every function the lowering accepts on which the interpreter
/// succeeds.
pub proof fn lemma_program_computes_evaluation(
    f: Function, regs: PhysRegSet, a: Assignment, args: Seq<i64>, limit: nat, st: MState, g: bool, z: bool,
)
    requires
        lowering_result(f, regs, a, Ok(lowered_program(f, regs, a))),
        forall|q: int| 0 <= q < args.len() ==> #[trigger] val(st, MoveLoc::Reg(arg_register(q))) == args[q],
        evaluation(f, args, limit) is Ok,
    ensures
        exists|cf: Config| reaches(lowered_program(f, regs, a), (0, st, g, z), cf)
            && returned(lowered_program(f, regs, a), cf)
            && (cf.1.0)(PhysReg::Rax) == evaluation(f, args, limit)->Ok_0,
{
    let e = location_entries(a.map);
    let c = lowering_context(f, regs, a.stack_slots);
    let p = lowered_program(f, regs, a);
    // what compiling checked
    assert(function_valid(f));
    let ivs = choose|ivs: Seq<LiveInterval>| intervals_exact(f, ivs)
        && assignment_valid(ivs, regs, regs.regs@.len() as usize, a);
    lemma_lowering_ready(f, regs, a, ivs);
    crate::validation::lemma_valid_ids_distinct(f);
    lemma_counts_fit(f);
    assert(facts(f, regs, a, ivs));
    // what the interpreter does first
    assert(args.len() == f.args);
    let r0 = Seq::<(VReg, i64)>::empty();
    assert(eval_from(f, args, limit, f.entry, None, r0, 0) is Ok);
    lemma_first_block_index(f.blocks@, f.entry);
    let se = first_block_index(f.blocks@, f.entry);
    assert(se >= 0);
    let ne = f.blocks@[se].insts@.len() as int;
    lemma_no_phis(f, se, r0, ne);
    assert(store_all(r0, seq![], 0) == r0);
    // the prologue and the jump to the entry block
    crate::layout::lemma_program_parts(f, e, c, se);
    crate::layout::lemma_prologue_straight(c);
    lemma_exec_straight(p, 0, prologue(c), st, g, z);
    let stp = run(prologue(c), st);
    crate::simulation::lemma_prologue(c, st);
    let c1: Config = (prologue(c).len() as int, stp, g, z);
    crate::layout::lemma_target_block(f, e, c, se);
    let c2 = lemma_one(p, c1);
    lemma_reaches_trans(p, (0, st, g, z), c1, c2);
    assert forall|q: u32| q < args.len() implies #[trigger] val(stp, MoveLoc::Frame(q)) == args[q as int] by {
        assert(val(stp, MoveLoc::Frame(q)) == crate::simulation::after_arg_stores(st, c.args as int, MoveLoc::Frame(q)));
        assert(val(st, MoveLoc::Reg(arg_register(q as int))) == args[q as int]);
    }
    assert(keys_distinct(r0));
    assert(agree(f, e, args, se, 0, r0, stp));
    assert(entered(f, regs, a, args, f.entry, None, r0, stp));
    let cf = lemma_block(f, regs, a, ivs, args, limit, f.entry, None, r0, 0, c2);
    lemma_reaches_trans(p, (0, st, g, z), c2, cf);
}

} // verus!
