//! A compact compiler back end for an `i64` SSA IR: parsing, interpretation,
//! SSA/CFG validation, liveness, live intervals, interference, register
//! allocation with an allocator-independent verifier, and lowering to x86-64.
use vstd::prelude::*;

pub mod smallvecs;
pub mod ir;
pub mod collections;
pub mod cfg;
pub mod validation;
pub mod liveness;
pub mod intervals;
pub mod interference;
pub mod moves;
pub mod regalloc;
pub mod sorting;
pub mod linear_scan;
pub mod sim_anneal;
pub mod codegen;
pub mod assembler;
pub mod disasm;
pub mod interp;
pub mod text;
pub mod parser;
pub mod examples;
pub mod pipeline;
pub mod messages;
pub mod simulation;
pub mod execution;
pub mod layout;
pub mod correctness;

verus! {
} // verus!
