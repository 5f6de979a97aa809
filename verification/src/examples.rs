//! The built-in example functions, written in the textual IR.
use vstd::prelude::*;
use crate::ir::{Function, BlockId, VReg, Terminator};
use crate::parser::{parse, parse_outcome, function_is, ParseError, DraftModel};

verus! {

/// The text of `basicblock`.
pub open spec fn basicblock_text() -> Seq<char> {
    "\n    func basicblock args=3\n    block b0:\n      v0 = arg 0\n      v1 = arg 1\n      v2 = arg 2\n      v3 = add v0 v1\n      v4 = mul v3 v2\n      v5 = const 7\n      v6 = add v4 v5\n      v7 = mul v0 v2\n      v8 = add v6 v7\n      v9 = mul v1 v2\n      v10 = add v8 v9\n      ret v10\n    "@
}

/// A single block of arithmetic on three arguments.
pub fn basicblock() -> (r: Result<Function, ParseError>)
    ensures
        match r {
            Ok(f) => parse_outcome(basicblock_text()) matches Ok(m) && function_is(f, basicblock_text(), m),
            Err(e) => parse_outcome(basicblock_text()) == Err::<((int, int), u32, Seq<DraftModel>, Seq<Seq<Seq<(BlockId, VReg)>>>, Seq<Terminator>), ParseError>(e),
        },
{
    parse("\n    func basicblock args=3\n    block b0:\n      v0 = arg 0\n      v1 = arg 1\n      v2 = arg 2\n      v3 = add v0 v1\n      v4 = mul v3 v2\n      v5 = const 7\n      v6 = add v4 v5\n      v7 = mul v0 v2\n      v8 = add v6 v7\n      v9 = mul v1 v2\n      v10 = add v8 v9\n      ret v10\n    ")
}

/// The text of `trace`.
pub open spec fn trace_text() -> Seq<char> {
    "\n    func trace args=2\n    block b0:\n      v0 = arg 0\n      v1 = arg 1\n      v2 = cmpgt v0 v1\n      br v2 b1 b2\n    block b1:\n      v3 = mov v0\n      jmp b3\n    block b2:\n      v4 = mov v1\n      jmp b3\n    block b3:\n      v5 = phi b1 v3, b2 v4\n      ret v5\n    "@
}

/// The larger of two arguments, through a diamond and a phi.
pub fn trace() -> (r: Result<Function, ParseError>)
    ensures
        match r {
            Ok(f) => parse_outcome(trace_text()) matches Ok(m) && function_is(f, trace_text(), m),
            Err(e) => parse_outcome(trace_text()) == Err::<((int, int), u32, Seq<DraftModel>, Seq<Seq<Seq<(BlockId, VReg)>>>, Seq<Terminator>), ParseError>(e),
        },
{
    parse("\n    func trace args=2\n    block b0:\n      v0 = arg 0\n      v1 = arg 1\n      v2 = cmpgt v0 v1\n      br v2 b1 b2\n    block b1:\n      v3 = mov v0\n      jmp b3\n    block b2:\n      v4 = mov v1\n      jmp b3\n    block b3:\n      v5 = phi b1 v3, b2 v4\n      ret v5\n    ")
}

/// The text of `loop_sum`.
pub open spec fn loop_sum_text() -> Seq<char> {
    "\n    func loop_sum args=1\n    block b0:\n      v0 = arg 0\n      v1 = const 0\n      v2 = const 1\n      jmp b1\n    block b1:\n      v3 = phi b0 v2, b2 v7\n      v4 = phi b0 v1, b2 v6\n      v5 = cmpgt v3 v0\n      br v5 b3 b2\n    block b2:\n      v6 = add v4 v3\n      v7 = add v3 v2\n      jmp b1\n    block b3:\n      ret v4\n    "@
}

/// The sum 1 + 2 + ... + n, in a loop.
pub fn loop_sum() -> (r: Result<Function, ParseError>)
    ensures
        match r {
            Ok(f) => parse_outcome(loop_sum_text()) matches Ok(m) && function_is(f, loop_sum_text(), m),
            Err(e) => parse_outcome(loop_sum_text()) == Err::<((int, int), u32, Seq<DraftModel>, Seq<Seq<Seq<(BlockId, VReg)>>>, Seq<Terminator>), ParseError>(e),
        },
{
    parse("\n    func loop_sum args=1\n    block b0:\n      v0 = arg 0\n      v1 = const 0\n      v2 = const 1\n      jmp b1\n    block b1:\n      v3 = phi b0 v2, b2 v7\n      v4 = phi b0 v1, b2 v6\n      v5 = cmpgt v3 v0\n      br v5 b3 b2\n    block b2:\n      v6 = add v4 v3\n      v7 = add v3 v2\n      jmp b1\n    block b3:\n      ret v4\n    ")
}

/// The text of `phi_swap_loop`.
pub open spec fn phi_swap_loop_text() -> Seq<char> {
    "\n    func phi_swap_loop args=3\n    block b0:\n      v0 = arg 0\n      v1 = arg 1\n      v2 = arg 2\n      v3 = const 0\n      v4 = const -1\n      jmp b1\n    block b1:\n      v5 = phi b0 v0, b2 v6\n      v6 = phi b0 v1, b2 v5\n      v7 = phi b0 v2, b2 v9\n      v8 = cmpgt v7 v3\n      br v8 b2 b3\n    block b2:\n      v9 = add v7 v4\n      jmp b1\n    block b3:\n      ret v5\n    "@
}

/// Two phis that swap each other on every turn of a loop, run a number of times.
pub fn phi_swap_loop() -> (r: Result<Function, ParseError>)
    ensures
        match r {
            Ok(f) => parse_outcome(phi_swap_loop_text()) matches Ok(m) && function_is(f, phi_swap_loop_text(), m),
            Err(e) => parse_outcome(phi_swap_loop_text()) == Err::<((int, int), u32, Seq<DraftModel>, Seq<Seq<Seq<(BlockId, VReg)>>>, Seq<Terminator>), ParseError>(e),
        },
{
    parse("\n    func phi_swap_loop args=3\n    block b0:\n      v0 = arg 0\n      v1 = arg 1\n      v2 = arg 2\n      v3 = const 0\n      v4 = const -1\n      jmp b1\n    block b1:\n      v5 = phi b0 v0, b2 v6\n      v6 = phi b0 v1, b2 v5\n      v7 = phi b0 v2, b2 v9\n      v8 = cmpgt v7 v3\n      br v8 b2 b3\n    block b2:\n      v9 = add v7 v4\n      jmp b1\n    block b3:\n      ret v5\n    ")
}

} // verus!
