//! The messages of the library's errors, with the decimal and debug forms of
//! the values they name.
use vstd::prelude::*;
use crate::ir::{VReg, BlockId};
use crate::regalloc::{PhysReg, AssignmentError, RegisterSetError};
use crate::validation::ValidationError;
use crate::cfg::CfgError;
use crate::intervals::IntervalError;
use crate::codegen::CodegenError;
use crate::interp::InterpError;

verus! {

/// The decimal digit `d` (below 10).
pub open spec fn digit_char(d: int) -> char {
    ((('0' as int) + d) as char)
}

/// `n` in decimal, most significant digit first.
pub open spec fn decimal_text(n: nat) -> Seq<char>
    decreases n,
{
    if n < 10 {
        seq![digit_char(n as int)]
    } else {
        decimal_text(n / 10) + seq![digit_char((n % 10) as int)]
    }
}

/// How a value prints: `VReg(n)`.
pub open spec fn vreg_text(v: VReg) -> Seq<char> {
    "VReg("@ + decimal_text(v.0 as nat) + ")"@
}

/// How a block id prints: `BlockId(n)`.
pub open spec fn block_text(b: BlockId) -> Seq<char> {
    "BlockId("@ + decimal_text(b.0 as nat) + ")"@
}

/// How a register prints: its variant name.
pub open spec fn register_text(r: PhysReg) -> Seq<char> {
    match r {
        PhysReg::Rax => "Rax"@,
        PhysReg::Rcx => "Rcx"@,
        PhysReg::Rdx => "Rdx"@,
        PhysReg::Rbx => "Rbx"@,
        PhysReg::Rsi => "Rsi"@,
        PhysReg::Rdi => "Rdi"@,
        PhysReg::R8 => "R8"@,
        PhysReg::R9 => "R9"@,
        PhysReg::R10 => "R10"@,
        PhysReg::R11 => "R11"@,
    }
}

fn digit_str(d: u64) -> (s: &'static str)
    requires
        d < 10,
    ensures
        s@ == seq![digit_char(d as int)],
{
    proof {
        reveal_strlit("0"); reveal_strlit("1"); reveal_strlit("2"); reveal_strlit("3"); reveal_strlit("4");
        reveal_strlit("5"); reveal_strlit("6"); reveal_strlit("7"); reveal_strlit("8"); reveal_strlit("9");
    }
    let s = if d == 0 { "0" } else if d == 1 { "1" } else if d == 2 { "2" } else if d == 3 { "3" }
        else if d == 4 { "4" } else if d == 5 { "5" } else if d == 6 { "6" } else if d == 7 { "7" }
        else if d == 8 { "8" } else { "9" };
    assert(s@ =~= seq![digit_char(d as int)]);
    s
}

/// `n` in decimal.
pub fn decimal_string(n: u64) -> (s: String)
    ensures
        s@ == decimal_text(n as nat),
{
    if n == 0 {
        proof {
            reveal_strlit("0");
        }
        let z = String::from_str("0");
        assert(z@ =~= decimal_text(n as nat));
        return z;
    }
    let mut digits: Vec<u64> = Vec::new();
    let mut rest: u64 = n;
    while rest > 0
        invariant
            n > 0,
            forall|i: int| 0 <= i < digits@.len() ==> #[trigger] digits@[i] < 10,
            decimal_text(n as nat) == (if rest > 0 { decimal_text(rest as nat) } else { Seq::<char>::empty() })
                + Seq::new(digits@.len(), |i: int| digit_char(digits@[digits@.len() - 1 - i] as int)),
        decreases rest,
    {
        let ghost old_digits = digits@;
        let ghost old_rest = rest;
        digits.push(rest % 10);
        rest = rest / 10;
        proof {
            let tail = Seq::new(old_digits.len(), |i: int| digit_char(old_digits[old_digits.len() - 1 - i] as int));
            let tail2 = Seq::new(digits@.len(), |i: int| digit_char(digits@[digits@.len() - 1 - i] as int));
            assert(tail2 =~= seq![digit_char((old_rest % 10) as int)] + tail);
            if rest > 0 {
                assert(decimal_text(old_rest as nat) == decimal_text(rest as nat) + seq![digit_char((old_rest % 10) as int)]);
                assert(decimal_text(n as nat) =~= decimal_text(rest as nat) + tail2);
            } else {
                assert(decimal_text(old_rest as nat) == seq![digit_char((old_rest % 10) as int)]);
                assert(decimal_text(n as nat) =~= Seq::<char>::empty() + tail2);
            }
        }
    }
    let mut s = String::new();
    let len = digits.len();
    let mut j: usize = 0;
    while j < len
        invariant
            j <= len == digits@.len(),
            forall|i: int| 0 <= i < digits@.len() ==> #[trigger] digits@[i] < 10,
            s@ == Seq::new(j as nat, |i: int| digit_char(digits@[len - 1 - i] as int)),
        decreases len - j,
    {
        let d = digit_str(digits[len - 1 - j]);
        s.append(d);
        j += 1;
        assert(s@ =~= Seq::new(j as nat, |i: int| digit_char(digits@[len - 1 - i] as int)));
    }
    assert(s@ =~= decimal_text(n as nat));
    s
}

/// How a value prints.
pub fn vreg_string(v: VReg) -> (s: String)
    ensures
        s@ == vreg_text(v),
{
    let mut s = String::from_str("VReg(");
    let t = decimal_string(v.0 as u64);
    s.append(t.as_str());
    s.append(")");
    s
}

/// How a block id prints.
pub fn block_string(b: BlockId) -> (s: String)
    ensures
        s@ == block_text(b),
{
    let mut s = String::from_str("BlockId(");
    let t = decimal_string(b.0 as u64);
    s.append(t.as_str());
    s.append(")");
    s
}

/// How a register prints.
pub fn register_string(r: PhysReg) -> (s: String)
    ensures
        s@ == register_text(r),
{
    let t = match r {
        PhysReg::Rax => "Rax",
        PhysReg::Rcx => "Rcx",
        PhysReg::Rdx => "Rdx",
        PhysReg::Rbx => "Rbx",
        PhysReg::Rsi => "Rsi",
        PhysReg::Rdi => "Rdi",
        PhysReg::R8 => "R8",
        PhysReg::R9 => "R9",
        PhysReg::R10 => "R10",
        PhysReg::R11 => "R11",
    };
    String::from_str(t)
}

/// The message of an assignment error.
pub open spec fn assignment_error_text(e: AssignmentError) -> Seq<char> {
    match e {
        AssignmentError::WrongEntryCount { actual, expected } => "assignment contains "@ + decimal_text(actual as nat) + " entries for "@ + decimal_text(expected as nat) + " intervals"@,
        AssignmentError::MissingValue(v) => "assignment is missing "@ + vreg_text(v),
        AssignmentError::UnknownValue(v) => "assignment contains unknown value "@ + vreg_text(v),
        AssignmentError::UnavailableRegister { value, register } => "value "@ + vreg_text(value) + " uses unavailable register "@ + register_text(register),
        AssignmentError::ReservedScratch { value, register } => "value "@ + vreg_text(value) + " uses reserved scratch register "@ + register_text(register),
        AssignmentError::SpillCountOverflow => "spill count overflow"@,
        AssignmentError::SpillCountMismatch { declared, actual } => "spill count does not match the stack assignments: declared "@ + decimal_text(declared as nat) + ", found "@ + decimal_text(actual as nat),
        AssignmentError::StackSlotCountMismatch { declared, expected } => "stack slot count "@ + decimal_text(declared as nat) + " does not match highest used slot "@ + decimal_text(expected as nat),
        AssignmentError::RegisterConflict { left, right, register } => "overlapping values "@ + vreg_text(left) + " and "@ + vreg_text(right) + " share register "@ + register_text(register),
        AssignmentError::StackSlotConflict { left, right, slot } => "overlapping values "@ + vreg_text(left) + " and "@ + vreg_text(right) + " share stack slot "@ + decimal_text(slot as nat),
    }
}

impl AssignmentError {
    /// The message of the error (see `assignment_error_text`).
    pub fn message(&self) -> (r: String)
        ensures
            r@ == assignment_error_text(*self),
    {
        match self {
            AssignmentError::WrongEntryCount { actual, expected } => {
                let mut s = String::from_str("assignment contains ");
                let t = decimal_string(*actual as u64);
                s.append(t.as_str());
                s.append(" entries for ");
                let t = decimal_string(*expected as u64);
                s.append(t.as_str());
                s.append(" intervals");
                s
            },
            AssignmentError::MissingValue(v) => {
                let mut s = String::from_str("assignment is missing ");
                let t = vreg_string(*v);
                s.append(t.as_str());
                s
            },
            AssignmentError::UnknownValue(v) => {
                let mut s = String::from_str("assignment contains unknown value ");
                let t = vreg_string(*v);
                s.append(t.as_str());
                s
            },
            AssignmentError::UnavailableRegister { value, register } => {
                let mut s = String::from_str("value ");
                let t = vreg_string(*value);
                s.append(t.as_str());
                s.append(" uses unavailable register ");
                let t = register_string(*register);
                s.append(t.as_str());
                s
            },
            AssignmentError::ReservedScratch { value, register } => {
                let mut s = String::from_str("value ");
                let t = vreg_string(*value);
                s.append(t.as_str());
                s.append(" uses reserved scratch register ");
                let t = register_string(*register);
                s.append(t.as_str());
                s
            },
            AssignmentError::SpillCountOverflow => {
                let mut s = String::from_str("spill count overflow");
                s
            },
            AssignmentError::SpillCountMismatch { declared, actual } => {
                let mut s = String::from_str("spill count does not match the stack assignments: declared ");
                let t = decimal_string(*declared as u64);
                s.append(t.as_str());
                s.append(", found ");
                let t = decimal_string(*actual as u64);
                s.append(t.as_str());
                s
            },
            AssignmentError::StackSlotCountMismatch { declared, expected } => {
                let mut s = String::from_str("stack slot count ");
                let t = decimal_string(*declared as u64);
                s.append(t.as_str());
                s.append(" does not match highest used slot ");
                let t = decimal_string(*expected as u64);
                s.append(t.as_str());
                s
            },
            AssignmentError::RegisterConflict { left, right, register } => {
                let mut s = String::from_str("overlapping values ");
                let t = vreg_string(*left);
                s.append(t.as_str());
                s.append(" and ");
                let t = vreg_string(*right);
                s.append(t.as_str());
                s.append(" share register ");
                let t = register_string(*register);
                s.append(t.as_str());
                s
            },
            AssignmentError::StackSlotConflict { left, right, slot } => {
                let mut s = String::from_str("overlapping values ");
                let t = vreg_string(*left);
                s.append(t.as_str());
                s.append(" and ");
                let t = vreg_string(*right);
                s.append(t.as_str());
                s.append(" share stack slot ");
                let t = decimal_string(*slot as u64);
                s.append(t.as_str());
                s
            },
        }
    }
}

/// The message of a validation error.
pub open spec fn validation_error_text(e: ValidationError) -> Seq<char> {
    match e {
        ValidationError::EmptyFunction => "function has no blocks"@,
        ValidationError::DuplicateBlock(b) => "duplicate block id "@ + block_text(b),
        ValidationError::MissingEntry(b) => "entry block "@ + block_text(b) + " is missing"@,
        ValidationError::UnknownSuccessor { block, target } => "block "@ + block_text(block) + " targets unknown block "@ + block_text(target),
        ValidationError::MissingReachableBlock(b) => "reachable block "@ + block_text(b) + " is missing"@,
        ValidationError::UnreachableBlocks => "function contains unreachable blocks"@,
        ValidationError::Analysis(e) => "failed to analyse the control-flow graph: "@ + cfg_error_text(e),
        ValidationError::PhiAfterInstruction(b) => "phi nodes must be contiguous at the start of block "@ + block_text(b),
        ValidationError::ArgumentOutOfRange { index, args } => "argument index "@ + decimal_text(index as nat) + " is out of range for "@ + decimal_text(args as nat) + " arguments"@,
        ValidationError::MultipleDefinitions(v) => "value "@ + vreg_text(v) + " has multiple definitions"@,
        ValidationError::MissingPredecessors(b) => "predecessor information for block "@ + block_text(b) + " is missing"@,
        ValidationError::PhiInEntry(b) => "entry block "@ + block_text(b) + " must not contain phi nodes"@,
        ValidationError::DuplicatePhiPredecessor { block, predecessor } => "phi in "@ + block_text(block) + " contains duplicate predecessor "@ + block_text(predecessor),
        ValidationError::PhiReferencesNonPredecessor { block, predecessor } => "phi in "@ + block_text(block) + " references non-predecessor "@ + block_text(predecessor),
        ValidationError::UndefinedPhiInput(v) => "phi uses undefined value "@ + vreg_text(v),
        ValidationError::PhiInputNotDominated { value, definition, predecessor, block } => "definition of phi input "@ + vreg_text(value) + " in "@ + block_text(definition) + " does not dominate edge "@ + block_text(predecessor) + " -> "@ + block_text(block),
        ValidationError::IncompletePhi(b) => "phi in "@ + block_text(b) + " must have exactly one input for every predecessor"@,
        ValidationError::UndefinedValue(v) => "use of undefined value "@ + vreg_text(v),
        ValidationError::UseBeforeDefinition { value, block } => "value "@ + vreg_text(value) + " is used before its definition in block "@ + block_text(block),
        ValidationError::UseNotDominated { value, definition, use_block } => "definition of "@ + vreg_text(value) + " in "@ + block_text(definition) + " does not dominate use in "@ + block_text(use_block),
    }
}

impl ValidationError {
    /// The message of the error (see `validation_error_text`).
    pub fn message(&self) -> (r: String)
        ensures
            r@ == validation_error_text(*self),
    {
        match self {
            ValidationError::EmptyFunction => {
                let mut s = String::from_str("function has no blocks");
                s
            },
            ValidationError::DuplicateBlock(b) => {
                let mut s = String::from_str("duplicate block id ");
                let t = block_string(*b);
                s.append(t.as_str());
                s
            },
            ValidationError::MissingEntry(b) => {
                let mut s = String::from_str("entry block ");
                let t = block_string(*b);
                s.append(t.as_str());
                s.append(" is missing");
                s
            },
            ValidationError::UnknownSuccessor { block, target } => {
                let mut s = String::from_str("block ");
                let t = block_string(*block);
                s.append(t.as_str());
                s.append(" targets unknown block ");
                let t = block_string(*target);
                s.append(t.as_str());
                s
            },
            ValidationError::MissingReachableBlock(b) => {
                let mut s = String::from_str("reachable block ");
                let t = block_string(*b);
                s.append(t.as_str());
                s.append(" is missing");
                s
            },
            ValidationError::UnreachableBlocks => {
                let mut s = String::from_str("function contains unreachable blocks");
                s
            },
            ValidationError::Analysis(e) => {
                let mut s = String::from_str("failed to analyse the control-flow graph: ");
                let t = e.message();
                s.append(t.as_str());
                s
            },
            ValidationError::PhiAfterInstruction(b) => {
                let mut s = String::from_str("phi nodes must be contiguous at the start of block ");
                let t = block_string(*b);
                s.append(t.as_str());
                s
            },
            ValidationError::ArgumentOutOfRange { index, args } => {
                let mut s = String::from_str("argument index ");
                let t = decimal_string(*index as u64);
                s.append(t.as_str());
                s.append(" is out of range for ");
                let t = decimal_string(*args as u64);
                s.append(t.as_str());
                s.append(" arguments");
                s
            },
            ValidationError::MultipleDefinitions(v) => {
                let mut s = String::from_str("value ");
                let t = vreg_string(*v);
                s.append(t.as_str());
                s.append(" has multiple definitions");
                s
            },
            ValidationError::MissingPredecessors(b) => {
                let mut s = String::from_str("predecessor information for block ");
                let t = block_string(*b);
                s.append(t.as_str());
                s.append(" is missing");
                s
            },
            ValidationError::PhiInEntry(b) => {
                let mut s = String::from_str("entry block ");
                let t = block_string(*b);
                s.append(t.as_str());
                s.append(" must not contain phi nodes");
                s
            },
            ValidationError::DuplicatePhiPredecessor { block, predecessor } => {
                let mut s = String::from_str("phi in ");
                let t = block_string(*block);
                s.append(t.as_str());
                s.append(" contains duplicate predecessor ");
                let t = block_string(*predecessor);
                s.append(t.as_str());
                s
            },
            ValidationError::PhiReferencesNonPredecessor { block, predecessor } => {
                let mut s = String::from_str("phi in ");
                let t = block_string(*block);
                s.append(t.as_str());
                s.append(" references non-predecessor ");
                let t = block_string(*predecessor);
                s.append(t.as_str());
                s
            },
            ValidationError::UndefinedPhiInput(v) => {
                let mut s = String::from_str("phi uses undefined value ");
                let t = vreg_string(*v);
                s.append(t.as_str());
                s
            },
            ValidationError::PhiInputNotDominated { value, definition, predecessor, block } => {
                let mut s = String::from_str("definition of phi input ");
                let t = vreg_string(*value);
                s.append(t.as_str());
                s.append(" in ");
                let t = block_string(*definition);
                s.append(t.as_str());
                s.append(" does not dominate edge ");
                let t = block_string(*predecessor);
                s.append(t.as_str());
                s.append(" -> ");
                let t = block_string(*block);
                s.append(t.as_str());
                s
            },
            ValidationError::IncompletePhi(b) => {
                let mut s = String::from_str("phi in ");
                let t = block_string(*b);
                s.append(t.as_str());
                s.append(" must have exactly one input for every predecessor");
                s
            },
            ValidationError::UndefinedValue(v) => {
                let mut s = String::from_str("use of undefined value ");
                let t = vreg_string(*v);
                s.append(t.as_str());
                s
            },
            ValidationError::UseBeforeDefinition { value, block } => {
                let mut s = String::from_str("value ");
                let t = vreg_string(*value);
                s.append(t.as_str());
                s.append(" is used before its definition in block ");
                let t = block_string(*block);
                s.append(t.as_str());
                s
            },
            ValidationError::UseNotDominated { value, definition, use_block } => {
                let mut s = String::from_str("definition of ");
                let t = vreg_string(*value);
                s.append(t.as_str());
                s.append(" in ");
                let t = block_string(*definition);
                s.append(t.as_str());
                s.append(" does not dominate use in ");
                let t = block_string(*use_block);
                s.append(t.as_str());
                s
            },
        }
    }
}

/// The message of a control-flow error.
pub open spec fn cfg_error_text(e: CfgError) -> Seq<char> {
    match e {
        CfgError::MissingEntry(b) => "entry block "@ + block_text(b) + " is missing"@,
        CfgError::UnknownSuccessor { block, target } => "block "@ + block_text(block) + " has unknown successor "@ + block_text(target),
    }
}

impl CfgError {
    /// The message of the error (see `cfg_error_text`).
    pub fn message(&self) -> (r: String)
        ensures
            r@ == cfg_error_text(*self),
    {
        match self {
            CfgError::MissingEntry(b) => {
                let mut s = String::from_str("entry block ");
                let t = block_string(*b);
                s.append(t.as_str());
                s.append(" is missing");
                s
            },
            CfgError::UnknownSuccessor { block, target } => {
                let mut s = String::from_str("block ");
                let t = block_string(*block);
                s.append(t.as_str());
                s.append(" has unknown successor ");
                let t = block_string(*target);
                s.append(t.as_str());
                s
            },
        }
    }
}

/// The message of a live-interval error.
pub open spec fn interval_error_text(e: IntervalError) -> Seq<char> {
    match e {
        IntervalError::Liveness(e) => cfg_error_text(e),
        IntervalError::PositionOverflow => "instruction position overflow"@,
        IntervalError::UnknownPhiPredecessor(p) => "unknown phi predecessor "@ + block_text(p),
    }
}

impl IntervalError {
    /// The message of the error (see `interval_error_text`).
    pub fn message(&self) -> (r: String)
        ensures
            r@ == interval_error_text(*self),
    {
        match self {
            IntervalError::Liveness(e) => {
                let mut s = e.message();
                s
            },
            IntervalError::PositionOverflow => {
                let mut s = String::from_str("instruction position overflow");
                s
            },
            IntervalError::UnknownPhiPredecessor(p) => {
                let mut s = String::from_str("unknown phi predecessor ");
                let t = block_string(*p);
                s.append(t.as_str());
                s
            },
        }
    }
}

/// The message of a register-set error.
pub open spec fn register_set_error_text(e: RegisterSetError) -> Seq<char> {
    match e {
        RegisterSetError::DuplicateRegister(r) => "duplicate allocatable register "@ + register_text(r),
        RegisterSetError::CalleeSavedRegister => "RBX is callee-saved and is not supported by the MVP prologue"@,
        RegisterSetError::TooFewScratch => "codegen requires two dedicated scratch registers"@,
        RegisterSetError::ScratchOverlap(_) => "scratch register overlaps allocatable set"@,
        RegisterSetError::CalleeSavedScratch => "RBX is callee-saved and cannot be used as scratch"@,
        RegisterSetError::ScratchNotDistinct => "scratch registers must be distinct"@,
    }
}

impl RegisterSetError {
    /// The message of the error (see `register_set_error_text`).
    pub fn message(&self) -> (r: String)
        ensures
            r@ == register_set_error_text(*self),
    {
        match self {
            RegisterSetError::DuplicateRegister(r) => {
                let mut s = String::from_str("duplicate allocatable register ");
                let t = register_string(*r);
                s.append(t.as_str());
                s
            },
            RegisterSetError::CalleeSavedRegister => {
                let mut s = String::from_str("RBX is callee-saved and is not supported by the MVP prologue");
                s
            },
            RegisterSetError::TooFewScratch => {
                let mut s = String::from_str("codegen requires two dedicated scratch registers");
                s
            },
            RegisterSetError::ScratchOverlap(_) => {
                let mut s = String::from_str("scratch register overlaps allocatable set");
                s
            },
            RegisterSetError::CalleeSavedScratch => {
                let mut s = String::from_str("RBX is callee-saved and cannot be used as scratch");
                s
            },
            RegisterSetError::ScratchNotDistinct => {
                let mut s = String::from_str("scratch registers must be distinct");
                s
            },
        }
    }
}

/// The message of a code generation error.
pub open spec fn codegen_error_text(e: CodegenError) -> Seq<char> {
    match e {
        CodegenError::Validation(e) => validation_error_text(e),
        CodegenError::Registers(e) => register_set_error_text(e),
        CodegenError::TooManyArguments(_) => "MVP supports up to 6 arguments"@,
        CodegenError::Intervals(e) => interval_error_text(e),
        CodegenError::Assignment(e) => assignment_error_text(e),
        CodegenError::FrameTooLarge => "stack frame does not fit 32-bit displacements"@,
        CodegenError::Assembler(m) => m@,
    }
}

impl CodegenError {
    /// The message of the error (see `codegen_error_text`).
    pub fn message(&self) -> (r: String)
        ensures
            r@ == codegen_error_text(*self),
    {
        match self {
            CodegenError::Validation(e) => {
                let mut s = e.message();
                s
            },
            CodegenError::Registers(e) => {
                let mut s = e.message();
                s
            },
            CodegenError::TooManyArguments(_) => {
                let mut s = String::from_str("MVP supports up to 6 arguments");
                s
            },
            CodegenError::Intervals(e) => {
                let mut s = e.message();
                s
            },
            CodegenError::Assignment(e) => {
                let mut s = e.message();
                s
            },
            CodegenError::FrameTooLarge => {
                let mut s = String::from_str("stack frame does not fit 32-bit displacements");
                s
            },
            CodegenError::Assembler(m) => {
                let mut s = String::from_str(m.as_str());
                s
            },
        }
    }
}

/// The message of an interpreter error.
pub open spec fn interp_error_text(e: InterpError) -> Seq<char> {
    match e {
        InterpError::ArgumentCount { expected, actual } =>
            "expected "@ + decimal_text(expected as nat) + " args, got "@ + decimal_text(actual as nat),
        InterpError::ZeroStepLimit => "step limit must be positive"@,
        InterpError::StepCounterOverflow => "interpreter step counter overflow"@,
        InterpError::StepLimitExceeded => "interpreter step limit exceeded"@,
        InterpError::UnknownBlock(b) => "unknown block "@ + block_text(b),
        InterpError::PhiInEntryBlock => "phi in entry block"@,
        InterpError::MissingPhiInput => "phi missing incoming for predecessor"@,
        InterpError::UndefinedPhiSource(v) => "phi uses undefined value "@ + vreg_text(v),
        InterpError::ArgumentOutOfRange(i) => "argument index "@ + decimal_text(i as nat) + " is out of range"@,
        InterpError::UndefinedValue(v) => "undefined value "@ + vreg_text(v),
        InterpError::UndefinedReturnValue(v) => "undefined return value "@ + vreg_text(v),
        InterpError::UndefinedBranchCondition(v) => "undefined branch condition "@ + vreg_text(v),
    }
}

impl InterpError {
    /// The message of the error (see `interp_error_text`).
    pub fn message(&self) -> (r: String)
        ensures
            r@ == interp_error_text(*self),
    {
        match self {
            InterpError::ArgumentCount { expected, actual } => {
                let mut s = String::from_str("expected ");
                let t = decimal_string(*expected as u64);
                s.append(t.as_str());
                s.append(" args, got ");
                let t = decimal_string(*actual as u64);
                s.append(t.as_str());
                s
            },
            InterpError::ZeroStepLimit => {
                let mut s = String::from_str("step limit must be positive");
                s
            },
            InterpError::StepCounterOverflow => {
                let mut s = String::from_str("interpreter step counter overflow");
                s
            },
            InterpError::StepLimitExceeded => {
                let mut s = String::from_str("interpreter step limit exceeded");
                s
            },
            InterpError::UnknownBlock(b) => {
                let mut s = String::from_str("unknown block ");
                let t = block_string(*b);
                s.append(t.as_str());
                s
            },
            InterpError::PhiInEntryBlock => {
                let mut s = String::from_str("phi in entry block");
                s
            },
            InterpError::MissingPhiInput => {
                let mut s = String::from_str("phi missing incoming for predecessor");
                s
            },
            InterpError::UndefinedPhiSource(v) => {
                let mut s = String::from_str("phi uses undefined value ");
                let t = vreg_string(*v);
                s.append(t.as_str());
                s
            },
            InterpError::ArgumentOutOfRange(i) => {
                let mut s = String::from_str("argument index ");
                let t = decimal_string(*i as u64);
                s.append(t.as_str());
                s.append(" is out of range");
                s
            },
            InterpError::UndefinedValue(v) => {
                let mut s = String::from_str("undefined value ");
                let t = vreg_string(*v);
                s.append(t.as_str());
                s
            },
            InterpError::UndefinedReturnValue(v) => {
                let mut s = String::from_str("undefined return value ");
                let t = vreg_string(*v);
                s.append(t.as_str());
                s
            },
            InterpError::UndefinedBranchCondition(v) => {
                let mut s = String::from_str("undefined branch condition ");
                let t = vreg_string(*v);
                s.append(t.as_str());
                s
            },
        }
    }
}

} // verus!
