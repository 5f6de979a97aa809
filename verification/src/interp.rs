//! The reference interpreter: runs a function on `i64` arguments block by
//! block, phis first (all read before any is written), with a step budget
//! counting one step per block entered and one per instruction.
use vstd::prelude::*;
use indexmap::IndexMap;
use crate::ir::{Function, Inst, Terminator, VReg, BlockId, first_block_index, lemma_first_block_index};
use crate::smallvecs::phi_input_items;
use crate::validation::inst_at;
use crate::collections::{has_key, value_at, entries_insert};
use crate::codegen::phi_source;

verus! {

/// The step budget of `eval_i64`.
pub const DEFAULT_STEP_LIMIT: usize = 1_000_000;

/// Why a run stopped without a result.
#[derive(Debug, Clone, Copy, PartialEq, Eq, Structural)]
pub enum InterpError {
    /// The number of arguments differs from the function's.
    ArgumentCount { expected: u32, actual: usize },
    /// A step budget of zero.
    ZeroStepLimit,
    /// The step counter would pass `usize::MAX`.
    StepCounterOverflow,
    /// The run needs more steps than the budget.
    StepLimitExceeded,
    /// Control reached a block id that names no block.
    UnknownBlock(BlockId),
    /// A phi runs in a block entered without a predecessor.
    PhiInEntryBlock,
    /// A phi has no input for the block control came from.
    MissingPhiInput,
    /// A phi's input value was never computed.
    UndefinedPhiSource(VReg),
    /// An argument index at or past the number of arguments.
    ArgumentOutOfRange(u32),
    /// An instruction reads a value that was never computed.
    UndefinedValue(VReg),
    UndefinedReturnValue(VReg),
    UndefinedBranchCondition(VReg),
}

/// The interpreter (it holds no state).
#[derive(Debug, Default, Clone, Copy)]
pub struct Interpreter;

// ---------------------------------------------------------------------------
// IndexMap<VReg, i64>

/// The entries of a value-to-integer map, in insertion order.
pub uninterp spec fn value_entries(m: IndexMap<VReg, i64>) -> Seq<(VReg, i64)>;

/// `IndexMap::new`: an empty map.
#[verifier::external_body]
pub(crate) fn value_map_new() -> (m: IndexMap<VReg, i64>)
    ensures
        value_entries(m) == Seq::<(VReg, i64)>::empty(),
{
    IndexMap::new()
}

/// `IndexMap::insert`: an existing key keeps its place and takes the new value,
/// a new key goes last; the old value is returned.
#[verifier::external_body]
pub(crate) fn value_map_insert(m: &mut IndexMap<VReg, i64>, k: VReg, v: i64) -> (r: Option<i64>)
    ensures
        value_entries(*final(m)) == entries_insert(value_entries(*old(m)), k, v),
        r == (if has_key(value_entries(*old(m)), k) { Some(value_at(value_entries(*old(m)), k)) } else { None }),
{
    m.insert(k, v)
}

/// `IndexMap::get`: the value under `k`, if any.
#[verifier::external_body]
pub(crate) fn value_map_get(m: &IndexMap<VReg, i64>, k: VReg) -> (r: Option<i64>)
    ensures
        r == (if has_key(value_entries(*m), k) { Some(value_at(value_entries(*m), k)) } else { None }),
{
    m.get(&k).copied()
}

// ---------------------------------------------------------------------------
// The semantics.

/// The values the phis of the block at `bi` take, among its first `n`
/// instructions, coming from `pred`, read from `regs`.
pub open spec fn phi_results(f: Function, bi: int, pred: Option<BlockId>, regs: Seq<(VReg, i64)>, n: int) -> Result<Seq<(VReg, i64)>, InterpError>
    decreases n,
{
    if n <= 0 {
        Ok(seq![])
    } else {
        match phi_results(f, bi, pred, regs, n - 1) {
            Err(e) => Err(e),
            Ok(acc) => match inst_at(f, bi, n - 1) {
                Inst::PhiI64 { dst, incoming } => match pred {
                    None => Err(InterpError::PhiInEntryBlock),
                    Some(p) => match phi_source(phi_input_items(incoming), p) {
                        None => Err(InterpError::MissingPhiInput),
                        Some(src) => if has_key(regs, src) {
                            Ok(acc.push((dst, value_at(regs, src))))
                        } else {
                            Err(InterpError::UndefinedPhiSource(src))
                        },
                    },
                },
                _ => Ok(acc),
            },
        }
    }
}

/// `regs` with the first `n` of `writes` stored in order.
pub open spec fn store_all(regs: Seq<(VReg, i64)>, writes: Seq<(VReg, i64)>, n: int) -> Seq<(VReg, i64)>
    decreases n,
{
    if n <= 0 {
        regs
    } else {
        entries_insert(store_all(regs, writes, n - 1), writes[n - 1].0, writes[n - 1].1)
    }
}

/// What one instruction does to the values.
pub open spec fn inst_effect(args: Seq<i64>, regs: Seq<(VReg, i64)>, inst: Inst) -> Result<Seq<(VReg, i64)>, InterpError> {
    match inst {
        Inst::ConstI64 { dst, imm } => Ok(entries_insert(regs, dst, imm)),
        Inst::ArgI64 { dst, idx } => if idx.0 < args.len() {
            Ok(entries_insert(regs, dst, args[idx.0 as int]))
        } else {
            Err(InterpError::ArgumentOutOfRange(idx.0))
        },
        Inst::AddI64 { dst, a, b } => if !has_key(regs, a) {
            Err(InterpError::UndefinedValue(a))
        } else if !has_key(regs, b) {
            Err(InterpError::UndefinedValue(b))
        } else {
            Ok(entries_insert(regs, dst, value_at(regs, a).wrapping_add(value_at(regs, b))))
        },
        Inst::MulI64 { dst, a, b } => if !has_key(regs, a) {
            Err(InterpError::UndefinedValue(a))
        } else if !has_key(regs, b) {
            Err(InterpError::UndefinedValue(b))
        } else {
            Ok(entries_insert(regs, dst, value_at(regs, a).wrapping_mul(value_at(regs, b))))
        },
        Inst::MovI64 { dst, src } => if !has_key(regs, src) {
            Err(InterpError::UndefinedValue(src))
        } else {
            Ok(entries_insert(regs, dst, value_at(regs, src)))
        },
        Inst::CmpGtI64 { dst, a, b } => if !has_key(regs, a) {
            Err(InterpError::UndefinedValue(a))
        } else if !has_key(regs, b) {
            Err(InterpError::UndefinedValue(b))
        } else {
            Ok(entries_insert(regs, dst, if value_at(regs, a) > value_at(regs, b) { 1i64 } else { 0i64 }))
        },
        Inst::PhiI64 { .. } => Ok(regs),
    }
}

/// The step count after `k` more steps, checked against the counter and the budget.
pub open spec fn step_error(count: int, limit: nat) -> Option<InterpError> {
    if count > usize::MAX {
        Some(InterpError::StepCounterOverflow)
    } else if count > limit {
        Some(InterpError::StepLimitExceeded)
    } else {
        None
    }
}

/// Runs the first `n` instructions of the block at `bi`, the step count being
/// `steps` before the first; each instruction takes one step.
pub open spec fn run_insts(f: Function, bi: int, args: Seq<i64>, regs: Seq<(VReg, i64)>, steps: nat, limit: nat, n: int) -> Result<Seq<(VReg, i64)>, InterpError>
    decreases n,
{
    if n <= 0 {
        Ok(regs)
    } else {
        match run_insts(f, bi, args, regs, steps, limit, n - 1) {
            Err(e) => Err(e),
            Ok(r) => match step_error(steps + n, limit) {
                Some(e) => Err(e),
                None => inst_effect(args, r, inst_at(f, bi, n - 1)),
            },
        }
    }
}

/// The result of running from the start of block `cur`, entered from `pred`,
/// with values `regs` after `steps` steps.
pub open spec fn eval_from(f: Function, args: Seq<i64>, limit: nat, cur: BlockId, pred: Option<BlockId>, regs: Seq<(VReg, i64)>, steps: nat) -> Result<i64, InterpError>
    decreases limit - steps,
{
    let s1 = steps + 1;
    if step_error(s1 as int, limit) is Some {
        Err(step_error(s1 as int, limit)->Some_0)
    } else {
        let bi = first_block_index(f.blocks@, cur);
        if bi < 0 {
            Err(InterpError::UnknownBlock(cur))
        } else {
            let blk = f.blocks@[bi];
            let n = blk.insts@.len() as int;
            match phi_results(f, bi, pred, regs, n) {
                Err(e) => Err(e),
                Ok(ph) => match run_insts(f, bi, args, store_all(regs, ph, ph.len() as int), s1, limit, n) {
                    Err(e) => Err(e),
                    Ok(r2) => {
                        let s2 = s1 + n;
                        match blk.term {
                            Terminator::Ret { value } => if has_key(r2, value) {
                                Ok(value_at(r2, value))
                            } else {
                                Err(InterpError::UndefinedReturnValue(value))
                            },
                            Terminator::Jmp { target } => if s2 <= limit {
                                eval_from(f, args, limit, target, Some(cur), r2, s2 as nat)
                            } else {
                                Err(InterpError::StepLimitExceeded)
                            },
                            Terminator::Br { cond, then_bb, else_bb } => if !has_key(r2, cond) {
                                Err(InterpError::UndefinedBranchCondition(cond))
                            } else if s2 <= limit {
                                eval_from(f, args, limit, if value_at(r2, cond) != 0 { then_bb } else { else_bb },
                                    Some(cur), r2, s2 as nat)
                            } else {
                                Err(InterpError::StepLimitExceeded)
                            },
                        }
                    },
                },
            }
        }
    }
}

/// The result of running `f` on `args` with a budget of `limit` steps.
pub open spec fn evaluation(f: Function, args: Seq<i64>, limit: nat) -> Result<i64, InterpError> {
    if args.len() != f.args {
        Err(InterpError::ArgumentCount { expected: f.args, actual: args.len() as usize })
    } else if limit == 0 {
        Err(InterpError::ZeroStepLimit)
    } else {
        eval_from(f, args, limit, f.entry, None, seq![], 0)
    }
}

proof fn lemma_run_insts_limit(f: Function, bi: int, args: Seq<i64>, regs: Seq<(VReg, i64)>, steps: nat, k: nat, k2: nat, n: int)
    requires
        k <= k2,
        run_insts(f, bi, args, regs, steps, k, n) is Ok,
    ensures
        run_insts(f, bi, args, regs, steps, k2, n) == run_insts(f, bi, args, regs, steps, k, n),
    decreases n,
{
    if n > 0 {
        lemma_run_insts_limit(f, bi, args, regs, steps, k, k2, n - 1);
    }
}

proof fn lemma_eval_from_limit(f: Function, args: Seq<i64>, k: nat, k2: nat, cur: BlockId, pred: Option<BlockId>,
    regs: Seq<(VReg, i64)>, steps: nat)
    requires
        k <= k2,
        eval_from(f, args, k, cur, pred, regs, steps) is Ok,
    ensures
        eval_from(f, args, k2, cur, pred, regs, steps) == eval_from(f, args, k, cur, pred, regs, steps),
    decreases k - steps,
{
    let s1 = steps + 1;
    let bi = first_block_index(f.blocks@, cur);
    let n = f.blocks@[bi].insts@.len() as int;
    let ph = phi_results(f, bi, pred, regs, n)->Ok_0;
    let r1 = store_all(regs, ph, ph.len() as int);
    lemma_run_insts_limit(f, bi, args, r1, s1, k, k2, n);
    let r2 = run_insts(f, bi, args, r1, s1, k, n)->Ok_0;
    let s2 = s1 + n;
    match f.blocks@[bi].term {
        Terminator::Jmp { target } => {
            lemma_eval_from_limit(f, args, k, k2, target, Some(cur), r2, s2 as nat);
        },
        Terminator::Br { cond, then_bb, else_bb } => {
            if has_key(r2, cond) {
                let t = if value_at(r2, cond) != 0 { then_bb } else { else_bb };
                lemma_eval_from_limit(f, args, k, k2, t, Some(cur), r2, s2 as nat);
            }
        },
        Terminator::Ret { .. } => {},
    }
}

/// A larger step limit never changes a successful result.
pub proof fn lemma_evaluation_limit(f: Function, args: Seq<i64>, k: nat, k2: nat)
    requires
        k <= k2,
        evaluation(f, args, k) is Ok,
    ensures
        evaluation(f, args, k2) == evaluation(f, args, k),
{
    lemma_eval_from_limit(f, args, k, k2, f.entry, None, seq![], 0);
}

// ---------------------------------------------------------------------------
// The interpreter, executed.

proof fn lemma_run_insts_steps(f: Function, bi: int, args: Seq<i64>, regs: Seq<(VReg, i64)>, steps: nat, limit: nat, n: int)
    requires
        n >= 1,
        run_insts(f, bi, args, regs, steps, limit, n) is Ok,
    ensures
        steps + n <= limit,
    decreases n,
{
    if n > 1 {
        lemma_run_insts_steps(f, bi, args, regs, steps, limit, n - 1);
    }
}

proof fn lemma_phi_results_err(f: Function, bi: int, pred: Option<BlockId>, regs: Seq<(VReg, i64)>, k: int, m: int)
    requires
        0 <= k <= m,
        phi_results(f, bi, pred, regs, k) is Err,
    ensures
        phi_results(f, bi, pred, regs, m) == phi_results(f, bi, pred, regs, k),
    decreases m - k,
{
    if m > k {
        lemma_phi_results_err(f, bi, pred, regs, k, m - 1);
    }
}

proof fn lemma_run_insts_err(f: Function, bi: int, args: Seq<i64>, regs: Seq<(VReg, i64)>, steps: nat, limit: nat, k: int, m: int)
    requires
        0 <= k <= m,
        run_insts(f, bi, args, regs, steps, limit, k) is Err,
    ensures
        run_insts(f, bi, args, regs, steps, limit, m) == run_insts(f, bi, args, regs, steps, limit, k),
    decreases m - k,
{
    if m > k {
        lemma_run_insts_err(f, bi, args, regs, steps, limit, k, m - 1);
    }
}

/// The value of `v`, or `err` when it has none.
fn read_value(regs: &IndexMap<VReg, i64>, v: VReg, err: InterpError) -> (r: Result<i64, InterpError>)
    ensures
        r == (if has_key(value_entries(*regs), v) { Ok(value_at(value_entries(*regs), v)) } else { Err(err) }),
{
    match value_map_get(regs, v) {
        Some(x) => Ok(x),
        None => Err(err),
    }
}

/// The values the phis of block `bi` take when it is entered from `pred`.
fn eval_phis(f: &Function, bi: usize, pred: Option<BlockId>, regs: &IndexMap<VReg, i64>) -> (r: Result<Vec<(VReg, i64)>, InterpError>)
    requires
        bi < f.blocks@.len(),
    ensures
        match r {
            Ok(v) => phi_results(*f, bi as int, pred, value_entries(*regs), f.blocks@[bi as int].insts@.len() as int) == Ok::<Seq<(VReg, i64)>, InterpError>(v@),
            Err(e) => phi_results(*f, bi as int, pred, value_entries(*regs), f.blocks@[bi as int].insts@.len() as int) == Err::<Seq<(VReg, i64)>, InterpError>(e),
        },
{
    let ghost e = value_entries(*regs);
    let blk = &f.blocks[bi];
    let mut out: Vec<(VReg, i64)> = Vec::new();
    let mut x: usize = 0;
    while x < blk.insts.len()
        invariant
            bi < f.blocks@.len(),
            *blk == f.blocks@[bi as int],
            x <= blk.insts@.len(),
            e == value_entries(*regs),
            phi_results(*f, bi as int, pred, e, x as int) == Ok::<Seq<(VReg, i64)>, InterpError>(out@),
        decreases blk.insts.len() - x,
    {
        if let Inst::PhiI64 { dst, incoming } = &blk.insts[x] {
            let p = match pred {
                Some(p) => p,
                None => {
                    proof { lemma_phi_results_err(*f, bi as int, pred, e, x + 1, blk.insts@.len() as int); }
                    return Err(InterpError::PhiInEntryBlock);
                },
            };
            let ins = incoming.to_vec();
            let src = match crate::codegen::phi_source_of(&ins, p) {
                Some(src) => src,
                None => {
                    proof { lemma_phi_results_err(*f, bi as int, pred, e, x + 1, blk.insts@.len() as int); }
                    return Err(InterpError::MissingPhiInput);
                },
            };
            match read_value(regs, src, InterpError::UndefinedPhiSource(src)) {
                Ok(value) => out.push((*dst, value)),
                Err(err) => {
                    proof { lemma_phi_results_err(*f, bi as int, pred, e, x + 1, blk.insts@.len() as int); }
                    return Err(err);
                },
            }
        }
        x += 1;
    }
    Ok(out)
}

/// Stores the phi values in order.
fn store_phis(regs: &mut IndexMap<VReg, i64>, writes: &Vec<(VReg, i64)>)
    ensures
        value_entries(*final(regs)) == store_all(value_entries(*old(regs)), writes@, writes@.len() as int),
{
    let ghost start = value_entries(*regs);
    let mut i: usize = 0;
    while i < writes.len()
        invariant
            i <= writes@.len(),
            value_entries(*regs) == store_all(start, writes@, i as int),
        decreases writes.len() - i,
    {
        let (v, x) = writes[i];
        value_map_insert(regs, v, x);
        i += 1;
    }
}

/// Runs one instruction.
fn exec_inst(args: &[i64], regs: &mut IndexMap<VReg, i64>, inst: &Inst) -> (r: Result<(), InterpError>)
    ensures
        match r {
            Ok(()) => inst_effect(args@, value_entries(*old(regs)), *inst) == Ok::<Seq<(VReg, i64)>, InterpError>(value_entries(*final(regs))),
            Err(e) => inst_effect(args@, value_entries(*old(regs)), *inst) == Err::<Seq<(VReg, i64)>, InterpError>(e),
        },
{
    match inst {
        Inst::ConstI64 { dst, imm } => {
            value_map_insert(regs, *dst, *imm);
        },
        Inst::ArgI64 { dst, idx } => {
            if (idx.0 as usize) < args.len() {
                let x = args[idx.0 as usize];
                value_map_insert(regs, *dst, x);
            } else {
                return Err(InterpError::ArgumentOutOfRange(idx.0));
            }
        },
        Inst::AddI64 { dst, a, b } => {
            let left = read_value(regs, *a, InterpError::UndefinedValue(*a))?;
            let right = read_value(regs, *b, InterpError::UndefinedValue(*b))?;
            value_map_insert(regs, *dst, left.wrapping_add(right));
        },
        Inst::MulI64 { dst, a, b } => {
            let left = read_value(regs, *a, InterpError::UndefinedValue(*a))?;
            let right = read_value(regs, *b, InterpError::UndefinedValue(*b))?;
            value_map_insert(regs, *dst, left.wrapping_mul(right));
        },
        Inst::MovI64 { dst, src } => {
            let x = read_value(regs, *src, InterpError::UndefinedValue(*src))?;
            value_map_insert(regs, *dst, x);
        },
        Inst::CmpGtI64 { dst, a, b } => {
            let left = read_value(regs, *a, InterpError::UndefinedValue(*a))?;
            let right = read_value(regs, *b, InterpError::UndefinedValue(*b))?;
            value_map_insert(regs, *dst, if left > right { 1 } else { 0 });
        },
        Inst::PhiI64 { .. } => {},
    }
    Ok(())
}

/// One more step: the new count, or why it cannot be taken.
fn take_step(steps: usize, limit: usize) -> (r: Result<usize, InterpError>)
    ensures
        match r {
            Ok(s) => step_error(steps + 1, limit as nat) is None && s == steps + 1,
            Err(e) => step_error(steps + 1, limit as nat) == Some(e),
        },
{
    if steps == usize::MAX {
        return Err(InterpError::StepCounterOverflow);
    }
    if steps + 1 > limit {
        return Err(InterpError::StepLimitExceeded);
    }
    Ok(steps + 1)
}

/// Runs the instructions of block `bi`, the step count being `steps` before the first.
fn exec_insts(f: &Function, bi: usize, args: &[i64], regs: &mut IndexMap<VReg, i64>, steps: usize, limit: usize) -> (r: Result<usize, InterpError>)
    requires
        bi < f.blocks@.len(),
    ensures
        match r {
            Ok(s) => run_insts(*f, bi as int, args@, value_entries(*old(regs)), steps as nat, limit as nat, f.blocks@[bi as int].insts@.len() as int)
                == Ok::<Seq<(VReg, i64)>, InterpError>(value_entries(*final(regs)))
                && s == steps + f.blocks@[bi as int].insts@.len(),
            Err(e) => run_insts(*f, bi as int, args@, value_entries(*old(regs)), steps as nat, limit as nat, f.blocks@[bi as int].insts@.len() as int)
                == Err::<Seq<(VReg, i64)>, InterpError>(e),
        },
{
    let ghost start = value_entries(*regs);
    let blk = &f.blocks[bi];
    let mut count = steps;
    let mut x: usize = 0;
    while x < blk.insts.len()
        invariant
            bi < f.blocks@.len(),
            *blk == f.blocks@[bi as int],
            x <= blk.insts@.len(),
            count == steps + x,
            start == value_entries(*old(regs)),
            run_insts(*f, bi as int, args@, start, steps as nat, limit as nat, x as int)
                == Ok::<Seq<(VReg, i64)>, InterpError>(value_entries(*regs)),
        decreases blk.insts.len() - x,
    {
        let ghost before = value_entries(*regs);
        match take_step(count, limit) {
            Ok(c) => count = c,
            Err(err) => {
                proof {
                    assert(run_insts(*f, bi as int, args@, start, steps as nat, limit as nat, x + 1) == Err::<Seq<(VReg, i64)>, InterpError>(err));
                    lemma_run_insts_err(*f, bi as int, args@, start, steps as nat, limit as nat, x + 1, blk.insts@.len() as int);
                }
                return Err(err);
            },
        }
        assert(inst_at(*f, bi as int, x as int) == blk.insts@[x as int]);
        match exec_inst(args, regs, &blk.insts[x]) {
            Ok(()) => {},
            Err(err) => {
                proof {
                    assert(run_insts(*f, bi as int, args@, start, steps as nat, limit as nat, x + 1) == Err::<Seq<(VReg, i64)>, InterpError>(err));
                    lemma_run_insts_err(*f, bi as int, args@, start, steps as nat, limit as nat, x + 1, blk.insts@.len() as int);
                }
                return Err(err);
            },
        }
        x += 1;
    }
    Ok(count)
}

impl Interpreter {
    /// Runs `f` on `args` with the default budget of steps.
    pub fn eval_i64(&self, f: &Function, args: &[i64]) -> (r: Result<i64, InterpError>)
        ensures
            r == evaluation(*f, args@, DEFAULT_STEP_LIMIT as nat),
    {
        self.eval_i64_with_limit(f, args, DEFAULT_STEP_LIMIT)
    }

    /// Runs `f` on `args` with a budget of `step_limit` steps: one per block
    /// entered and one per instruction.
    pub fn eval_i64_with_limit(&self, f: &Function, args: &[i64], step_limit: usize) -> (r: Result<i64, InterpError>)
        ensures
            r == evaluation(*f, args@, step_limit as nat),
    {
        if args.len() != f.args as usize {
            return Err(InterpError::ArgumentCount { expected: f.args, actual: args.len() });
        }
        if step_limit == 0 {
            return Err(InterpError::ZeroStepLimit);
        }
        let ghost limit = step_limit as nat;
        let mut current = f.entry;
        let mut regs = value_map_new();
        let mut predecessor: Option<BlockId> = None;
        let mut steps: usize = 0;
        loop
            invariant
                steps <= step_limit,
                evaluation(*f, args@, limit) == eval_from(*f, args@, limit, current, predecessor, value_entries(regs), steps as nat),
                limit == step_limit as nat,
                args@.len() == f.args,
                step_limit > 0,
            decreases step_limit - steps,
        {
            let ghost st0 = steps as nat;
            let ghost regs0 = value_entries(regs);
            let ghost cur0 = current;
            let ghost pred0 = predecessor;
            steps = take_step(steps, step_limit)?;
            proof { lemma_first_block_index(f.blocks@, current); }
            let bi = match f.find_block(current) {
                Some(bi) => bi,
                None => {
                    return Err(InterpError::UnknownBlock(current));
                },
            };
            let phis = eval_phis(f, bi, predecessor, &regs)?;
            store_phis(&mut regs, &phis);
            let ghost n = f.blocks@[bi as int].insts@.len() as int;
            let s2 = exec_insts(f, bi, args, &mut regs, steps, step_limit)?;
            proof {
                if n >= 1 {
                    lemma_run_insts_steps(*f, bi as int, args@, store_all(regs0, phis@, phis@.len() as int), steps as nat, limit, n);
                }
            }
            match f.blocks[bi].term {
                Terminator::Ret { value } => {
                    return read_value(&regs, value, InterpError::UndefinedReturnValue(value));
                },
                Terminator::Jmp { target } => {
                    predecessor = Some(current);
                    current = target;
                },
                Terminator::Br { cond, then_bb, else_bb } => {
                    let c = read_value(&regs, cond, InterpError::UndefinedBranchCondition(cond))?;
                    predecessor = Some(current);
                    current = if c != 0 { then_bb } else { else_bb };
                },
            }
            steps = s2;
        }
    }
}

} // verus!
