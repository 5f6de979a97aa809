//! SSA and control-flow validation: what the emitter and the analyses rely on.
use vstd::prelude::*;
use crate::ir::{
    Function, Inst, BlockId, VReg, ArgId, spec_def, spec_uses, spec_term_uses, spec_successors, spec_phi_inputs, is_phi,
    first_block_index, lemma_first_block_index, uses, term_uses, defs,
};
use crate::smallvecs::{use_value_items, term_value_items, phi_input_items};
use crate::cfg::{
    CfgError, first_unknown, entry_index, ids_distinct, all_reachable, reachable, path_dominates,
    pred_ids, pred_marks, ids_if, dom_fix, check_successors, reachable_blocks, dominator_matrix, mat,
    lemma_dominators_are_path_dominators, dominates_at, has_edge_at, edge, is_first_unknown, is_path,
};
use crate::collections::set_insert;

verus! {

/// Why a function is not valid SSA over a well-formed control-flow graph.
#[derive(Debug, Clone, Copy, PartialEq, Eq, Structural)]
pub enum ValidationError {
    EmptyFunction,
    DuplicateBlock(BlockId),
    MissingEntry(BlockId),
    UnknownSuccessor { block: BlockId, target: BlockId },
    MissingReachableBlock(BlockId),
    UnreachableBlocks,
    Analysis(CfgError),
    PhiAfterInstruction(BlockId),
    ArgumentOutOfRange { index: u32, args: u32 },
    MultipleDefinitions(VReg),
    MissingPredecessors(BlockId),
    PhiInEntry(BlockId),
    DuplicatePhiPredecessor { block: BlockId, predecessor: BlockId },
    PhiReferencesNonPredecessor { block: BlockId, predecessor: BlockId },
    UndefinedPhiInput(VReg),
    PhiInputNotDominated { value: VReg, definition: BlockId, predecessor: BlockId, block: BlockId },
    IncompletePhi(BlockId),
    UndefinedValue(VReg),
    UseBeforeDefinition { value: VReg, block: BlockId },
    UseNotDominated { value: VReg, definition: BlockId, use_block: BlockId },
}

/// The first present item of a sequence, if any.
pub open spec fn first_some<T>(s: Seq<Option<T>>) -> Option<T>
    decreases s.len(),
{
    if s.len() == 0 {
        None
    } else if s[0] is Some {
        s[0]
    } else {
        first_some(s.drop_first())
    }
}

pub proof fn lemma_first_some_none<T>(s: Seq<Option<T>>)
    ensures
        (first_some(s) is None) <==> (forall|k: int| 0 <= k < s.len() ==> #[trigger] s[k] is None),
    decreases s.len(),
{
    if s.len() > 0 {
        lemma_first_some_none(s.drop_first());
        if s[0] is None {
            assert forall|k: int| 1 <= k < s.len() implies #[trigger] s[k] == s.drop_first()[k - 1] by {}
        }
    }
}

/// A present item that `first_some` gives is an item of the sequence.
pub proof fn lemma_first_some_in<T>(s: Seq<Option<T>>)
    ensures
        first_some(s) is Some ==> exists|k: int| 0 <= k < s.len() && s[k] == first_some(s),
    decreases s.len(),
{
    if s.len() > 0 && s[0] is None {
        lemma_first_some_in(s.drop_first());
        if first_some(s) is Some {
            let k = choose|k: int| 0 <= k < s.drop_first().len() && s.drop_first()[k] == first_some(s.drop_first());
            assert(s[k + 1] == first_some(s));
        }
    }
}

pub proof fn lemma_first_some_at<T>(s: Seq<Option<T>>, k: int)
    requires
        0 <= k < s.len(),
        s[k] is Some,
        forall|q: int| 0 <= q < k ==> #[trigger] s[q] is None,
    ensures
        first_some(s) == s[k],
    decreases k,
{
    if k > 0 {
        assert forall|q: int| 0 <= q < k - 1 implies #[trigger] s.drop_first()[q] is None by {
            assert(s.drop_first()[q] == s[q + 1]);
        }
        lemma_first_some_at(s.drop_first(), k - 1);
    }
}

// ---------------------------------------------------------------------------
// The checks, position by position.

/// Instruction `x` of block `i`.
pub open spec fn inst_at(f: Function, i: int, x: int) -> Inst {
    f.blocks@[i].insts@[x]
}

/// Block `j` repeats the id of an earlier block.
pub open spec fn dup_error(f: Function, j: int) -> Option<ValidationError> {
    if exists|q: int| 0 <= q < j && #[trigger] f.blocks@[q].id == f.blocks@[j].id {
        Some(ValidationError::DuplicateBlock(f.blocks@[j].id))
    } else {
        None
    }
}

/// The first unknown successor of block `j`, as an error.
pub open spec fn succ_error(f: Function, j: int) -> Option<ValidationError> {
    match first_unknown(f, j) {
        Some(t) => Some(ValidationError::UnknownSuccessor { block: f.blocks@[j].id, target: t }),
        None => None,
    }
}

/// Position `(i2, x2)` comes before `(i, x)` in layout order.
pub open spec fn pos_before(i2: int, x2: int, i: int, x: int) -> bool {
    i2 < i || (i2 == i && x2 < x)
}

/// Some instruction before `(i, x)` defines `v`.
pub open spec fn defined_before(f: Function, i: int, x: int, v: VReg) -> bool {
    exists|i2: int, x2: int| 0 <= i2 < f.blocks@.len() && 0 <= x2 < f.blocks@[i2].insts@.len()
        && pos_before(i2, x2, i, x) && #[trigger] spec_def(inst_at(f, i2, x2)) == v
}

/// What is wrong with the definition made by instruction `x` of block `i`:
/// a phi after another instruction, an argument index out of range, or a
/// value defined a second time.
pub open spec fn def_error(f: Function, i: int, x: int) -> Option<ValidationError> {
    let inst = inst_at(f, i, x);
    if is_phi(inst) && exists|y: int| 0 <= y < x && !is_phi(#[trigger] inst_at(f, i, y)) {
        Some(ValidationError::PhiAfterInstruction(f.blocks@[i].id))
    } else if inst matches Inst::ArgI64 { idx, .. } && idx.0 >= f.args {
        Some(ValidationError::ArgumentOutOfRange { index: inst->idx.0, args: f.args })
    } else if defined_before(f, i, x, spec_def(inst)) {
        Some(ValidationError::MultipleDefinitions(spec_def(inst)))
    } else {
        None
    }
}

/// Some instruction defines `v`.
pub open spec fn has_def(f: Function, v: VReg) -> bool {
    exists|i: int, x: int| 0 <= i < f.blocks@.len() && 0 <= x < f.blocks@[i].insts@.len()
        && #[trigger] spec_def(inst_at(f, i, x)) == v
}

/// The position `(block, instruction)` of the definition of `v`.
pub open spec fn def_pos(f: Function, v: VReg) -> (int, int) {
    choose|i: int, x: int| 0 <= i < f.blocks@.len() && 0 <= x < f.blocks@[i].insts@.len()
        && #[trigger] spec_def(inst_at(f, i, x)) == v
}

/// What is wrong with a use of `v` at position `x` of block `i` (`x` is the
/// number of instructions for the terminator): no definition, a definition later
/// in the same block, or a definition in a block that does not dominate it.
pub open spec fn use_error(f: Function, i: int, x: int, v: VReg) -> Option<ValidationError> {
    if !has_def(f, v) {
        Some(ValidationError::UndefinedValue(v))
    } else if def_pos(f, v).0 == i {
        if def_pos(f, v).1 >= x {
            Some(ValidationError::UseBeforeDefinition { value: v, block: f.blocks@[i].id })
        } else {
            None
        }
    } else if !path_dominates(f, def_pos(f, v).0, i) {
        Some(ValidationError::UseNotDominated {
            value: v,
            definition: f.blocks@[def_pos(f, v).0].id,
            use_block: f.blocks@[i].id,
        })
    } else {
        None
    }
}

/// What is wrong with input `y` of a phi of block `i`: a repeated predecessor, a
/// block that is not a predecessor, an undefined value, or a definition that
/// does not dominate the edge.
pub open spec fn phi_input_error(f: Function, i: int, inc: Seq<(BlockId, VReg)>, y: int) -> Option<ValidationError> {
    let p = inc[y].0;
    let v = inc[y].1;
    if exists|q: int| 0 <= q < y && #[trigger] inc[q].0 == p {
        Some(ValidationError::DuplicatePhiPredecessor { block: f.blocks@[i].id, predecessor: p })
    } else if !pred_ids(f, i).contains(p) {
        Some(ValidationError::PhiReferencesNonPredecessor { block: f.blocks@[i].id, predecessor: p })
    } else if !has_def(f, v) {
        Some(ValidationError::UndefinedPhiInput(v))
    } else if f.blocks@[def_pos(f, v).0].id != p
        && !path_dominates(f, def_pos(f, v).0, first_block_index(f.blocks@, p)) {
        Some(ValidationError::PhiInputNotDominated {
            value: v,
            definition: f.blocks@[def_pos(f, v).0].id,
            predecessor: p,
            block: f.blocks@[i].id,
        })
    } else {
        None
    }
}

/// The checks of the inputs of a phi of block `i`, input by input.
pub open spec fn phi_row(f: Function, i: int, inc: Seq<(BlockId, VReg)>) -> Seq<Option<ValidationError>> {
    Seq::new(inc.len(), |y: int| phi_input_error(f, i, inc, y))
}

/// The checks of the values `us` read at position `x` of block `i`, value by value.
pub open spec fn use_row(f: Function, i: int, x: int, us: Seq<VReg>) -> Seq<Option<ValidationError>> {
    Seq::new(us.len(), |y: int| use_error(f, i, x, us[y]))
}

/// The first problem with the values read by instruction `x` of block `i`.
pub open spec fn inst_use_error(f: Function, i: int, x: int) -> Option<ValidationError> {
    let inst = inst_at(f, i, x);
    if is_phi(inst) {
        let inc = spec_phi_inputs(inst);
        if f.blocks@[i].id == f.entry {
            Some(ValidationError::PhiInEntry(f.blocks@[i].id))
        } else if first_some(phi_row(f, i, inc)) is Some {
            first_some(phi_row(f, i, inc))
        } else if inc.len() != pred_ids(f, i).len() {
            Some(ValidationError::IncompletePhi(f.blocks@[i].id))
        } else {
            None
        }
    } else {
        first_some(use_row(f, i, x, spec_uses(inst)))
    }
}

/// The first problem with the values read by the terminator of block `i`.
pub open spec fn term_use_error(f: Function, i: int) -> Option<ValidationError> {
    first_some(use_row(f, i, f.blocks@[i].insts@.len() as int, spec_term_uses(f.blocks@[i].term)))
}

/// The use checks of block `i`, instruction by instruction.
pub open spec fn inst_row(f: Function, i: int) -> Seq<Option<ValidationError>> {
    Seq::new(f.blocks@[i].insts@.len(), |x: int| inst_use_error(f, i, x))
}

/// The first problem with the values read in block `i`.
pub open spec fn block_use_error(f: Function, i: int) -> Option<ValidationError> {
    first_some(inst_row(f, i).push(term_use_error(f, i)))
}

/// The first problem with a use, in layout order.
pub open spec fn first_use_error(f: Function) -> Option<ValidationError> {
    first_some(Seq::new(f.blocks@.len(), |i: int| block_use_error(f, i)))
}

/// The definition checks of block `i`, instruction by instruction.
pub open spec fn def_row(f: Function, i: int) -> Seq<Option<ValidationError>> {
    Seq::new(f.blocks@[i].insts@.len(), |x: int| def_error(f, i, x))
}

/// The first problem with a definition, in layout order.
pub open spec fn first_def_error(f: Function) -> Option<ValidationError> {
    first_some(Seq::new(f.blocks@.len(), |i: int| first_some(def_row(f, i))))
}


/// What validation answers: the checks in order (blocks, duplicate ids, the
/// entry, successors, reachability, definitions, then uses), the first failure
/// reported.
pub open spec fn validation_result(f: Function) -> Result<(), ValidationError> {
    let n = f.blocks@.len();
    if n == 0 {
        Err(ValidationError::EmptyFunction)
    } else if first_some(Seq::new(n, |j: int| dup_error(f, j))) is Some {
        Err(first_some(Seq::new(n, |j: int| dup_error(f, j)))->0)
    } else if !f.has_block(f.entry) {
        Err(ValidationError::MissingEntry(f.entry))
    } else if first_some(Seq::new(n, |j: int| succ_error(f, j))) is Some {
        Err(first_some(Seq::new(n, |j: int| succ_error(f, j)))->0)
    } else if !all_reachable(f) {
        Err(ValidationError::UnreachableBlocks)
    } else if first_def_error(f) is Some {
        Err(first_def_error(f)->0)
    } else if first_use_error(f) is Some {
        Err(first_use_error(f)->0)
    } else {
        Ok(())
    }
}

/// A valid function: every check passes.
pub open spec fn function_valid(f: Function) -> bool {
    validation_result(f) is Ok
}

/// The read of `v` at position `x` of block `i` is in order: `v` has a definition,
/// earlier in block `i` or in a block that dominates block `i`.
pub open spec fn use_in_order(f: Function, i: int, x: int, v: VReg) -> bool {
    &&& has_def(f, v)
    &&& def_pos(f, v).0 == i ==> def_pos(f, v).1 < x
    &&& def_pos(f, v).0 != i ==> path_dominates(f, def_pos(f, v).0, i)
}

/// Input `y` of a phi of block `i` comes from a predecessor that no earlier input
/// names, and its value is defined in that predecessor or in a block dominating it.
pub open spec fn phi_input_in_order(f: Function, i: int, inc: Seq<(BlockId, VReg)>, y: int) -> bool {
    let p = inc[y].0;
    let v = inc[y].1;
    &&& forall|q: int| 0 <= q < y ==> #[trigger] inc[q].0 != p
    &&& pred_ids(f, i).contains(p)
    &&& has_def(f, v)
    &&& (f.blocks@[def_pos(f, v).0].id == p || path_dominates(f, def_pos(f, v).0, first_block_index(f.blocks@, p)))
}

/// The invariants of the IR: blocks exist with distinct ids, the entry is one of them,
/// every successor names a block and every block is reachable; every value is defined
/// once; phis open their block, never the entry, and take one input from each
/// predecessor, defined where it dominates the edge; every argument index is below the
/// argument count; every other read, terminators included, is dominated by its
/// definition.
pub open spec fn ir_invariants(f: Function) -> bool {
    &&& f.blocks@.len() > 0
    &&& ids_distinct(f)
    &&& f.has_block(f.entry)
    &&& forall|j: int, t: BlockId| 0 <= j < f.blocks@.len() && #[trigger] spec_successors(f.blocks@[j].term).contains(t)
        ==> f.has_block(t)
    &&& all_reachable(f)
    &&& forall|i: int, x: int| 0 <= i < f.blocks@.len() && 0 <= x < f.blocks@[i].insts@.len() ==> {
        let inst = #[trigger] inst_at(f, i, x);
        &&& !defined_before(f, i, x, spec_def(inst))
        &&& is_phi(inst) ==> forall|y: int| 0 <= y < x ==> is_phi(#[trigger] inst_at(f, i, y))
        &&& (inst matches Inst::ArgI64 { idx, .. } ==> idx.0 < f.args)
        &&& !is_phi(inst) ==> forall|k: int| 0 <= k < spec_uses(inst).len()
            ==> use_in_order(f, i, x, #[trigger] spec_uses(inst)[k])
        &&& is_phi(inst) ==> {
            &&& f.blocks@[i].id != f.entry
            &&& spec_phi_inputs(inst).len() == pred_ids(f, i).len()
            &&& forall|y: int| 0 <= y < spec_phi_inputs(inst).len()
                ==> #[trigger] phi_input_in_order(f, i, spec_phi_inputs(inst), y)
        }
    }
    &&& forall|i: int, k: int| 0 <= i < f.blocks@.len() && 0 <= k < spec_term_uses(f.blocks@[i].term).len()
        ==> use_in_order(f, i, f.blocks@[i].insts@.len() as int, #[trigger] spec_term_uses(f.blocks@[i].term)[k])
}

proof fn lemma_def_errors_none(f: Function)
    ensures
        (first_def_error(f) is None) <==> forall|i: int, x: int| 0 <= i < f.blocks@.len()
            && 0 <= x < f.blocks@[i].insts@.len() ==> #[trigger] def_error(f, i, x) is None,
{
    let outer = Seq::new(f.blocks@.len(), |i: int| first_some(def_row(f, i)));
    lemma_first_some_none(outer);
    assert forall|i: int| 0 <= i < f.blocks@.len() implies
        ((#[trigger] first_some(def_row(f, i))) is None <==> forall|x: int| 0 <= x < f.blocks@[i].insts@.len()
            ==> #[trigger] def_error(f, i, x) is None) by {
        lemma_first_some_none(def_row(f, i));
        if first_some(def_row(f, i)) is None {
            assert forall|x: int| 0 <= x < f.blocks@[i].insts@.len() implies #[trigger] def_error(f, i, x) is None by {
                assert(def_row(f, i)[x] is None);
            }
        }
    }
    if first_def_error(f) is None {
        assert forall|i: int, x: int| 0 <= i < f.blocks@.len() && 0 <= x < f.blocks@[i].insts@.len()
            implies #[trigger] def_error(f, i, x) is None by {
            assert(outer[i] is None);
        }
    } else {
        let k = choose|k: int| 0 <= k < outer.len() && #[trigger] outer[k] is Some;
        assert(first_some(def_row(f, k)) is Some);
    }
}

proof fn lemma_row_none<T>(s: Seq<Option<T>>, n: int)
    requires
        s.len() == n,
    ensures
        (first_some(s) is None) <==> forall|k: int| 0 <= k < n ==> #[trigger] s[k] is None,
{
    lemma_first_some_none(s);
}

proof fn lemma_inst_use_none(f: Function, i: int, x: int)
    requires
        0 <= i < f.blocks@.len(),
        0 <= x < f.blocks@[i].insts@.len(),
    ensures
        (inst_use_error(f, i, x) is None) <==> {
            let inst = inst_at(f, i, x);
            &&& !is_phi(inst) ==> forall|k: int| 0 <= k < spec_uses(inst).len()
                ==> use_in_order(f, i, x, #[trigger] spec_uses(inst)[k])
            &&& is_phi(inst) ==> {
                &&& f.blocks@[i].id != f.entry
                &&& spec_phi_inputs(inst).len() == pred_ids(f, i).len()
                &&& forall|y: int| 0 <= y < spec_phi_inputs(inst).len()
                    ==> #[trigger] phi_input_in_order(f, i, spec_phi_inputs(inst), y)
            }
        },
{
    let inst = inst_at(f, i, x);
    if is_phi(inst) {
        let inc = spec_phi_inputs(inst);
        let row = phi_row(f, i, inc);
        lemma_row_none(row, inc.len() as int);
        assert forall|y: int| 0 <= y < inc.len() implies
            (#[trigger] phi_input_in_order(f, i, inc, y) <==> row[y] is None) by {
            assert(row[y] == phi_input_error(f, i, inc, y));
        }
        let all_in_order = forall|y: int| 0 <= y < inc.len() ==> #[trigger] phi_input_in_order(f, i, inc, y);
        assert(all_in_order <==> first_some(row) is None) by {
            if all_in_order {
                assert forall|y: int| 0 <= y < inc.len() implies #[trigger] row[y] is None by {
                    assert(phi_input_in_order(f, i, inc, y));
                }
            }
        }
        assert(inst_use_error(f, i, x) == (if f.blocks@[i].id == f.entry {
            Some(ValidationError::PhiInEntry(f.blocks@[i].id))
        } else if first_some(row) is Some {
            first_some(row)
        } else if inc.len() != pred_ids(f, i).len() {
            Some(ValidationError::IncompletePhi(f.blocks@[i].id))
        } else {
            None
        }));
    } else {
        let us = spec_uses(inst);
        let row = use_row(f, i, x, us);
        lemma_row_none(row, us.len() as int);
        assert forall|k: int| 0 <= k < us.len() implies
            (use_in_order(f, i, x, #[trigger] us[k]) <==> row[k] is None) by {
            assert(row[k] == use_error(f, i, x, us[k]));
        }
        let all_in_order = forall|k: int| 0 <= k < us.len() ==> use_in_order(f, i, x, #[trigger] us[k]);
        assert(all_in_order <==> first_some(row) is None) by {
            if all_in_order {
                assert forall|k: int| 0 <= k < us.len() implies #[trigger] row[k] is None by {
                    assert(use_in_order(f, i, x, us[k]));
                }
            } else {
                let k = choose|k: int| 0 <= k < us.len() && !use_in_order(f, i, x, #[trigger] us[k]);
                assert(row[k] is Some);
            }
        }
        assert(inst_use_error(f, i, x) == first_some(row));
    }
}

proof fn lemma_use_errors_none(f: Function)
    ensures
        (first_use_error(f) is None) <==> {
            &&& forall|i: int, x: int| 0 <= i < f.blocks@.len() && 0 <= x < f.blocks@[i].insts@.len()
                ==> #[trigger] inst_use_error(f, i, x) is None
            &&& forall|i: int, k: int| 0 <= i < f.blocks@.len() && 0 <= k < spec_term_uses(f.blocks@[i].term).len()
                ==> use_in_order(f, i, f.blocks@[i].insts@.len() as int, #[trigger] spec_term_uses(f.blocks@[i].term)[k])
        },
{
    let outer = Seq::new(f.blocks@.len(), |i: int| block_use_error(f, i));
    lemma_first_some_none(outer);
    assert forall|i: int| 0 <= i < f.blocks@.len() implies
        ((#[trigger] block_use_error(f, i)) is None <==> {
            &&& forall|x: int| 0 <= x < f.blocks@[i].insts@.len() ==> #[trigger] inst_use_error(f, i, x) is None
            &&& forall|k: int| 0 <= k < spec_term_uses(f.blocks@[i].term).len()
                ==> use_in_order(f, i, f.blocks@[i].insts@.len() as int, #[trigger] spec_term_uses(f.blocks@[i].term)[k])
        }) by {
        let n = f.blocks@[i].insts@.len() as int;
        let row = inst_row(f, i).push(term_use_error(f, i));
        lemma_row_none(row, n + 1);
        let us = spec_term_uses(f.blocks@[i].term);
        let trow = use_row(f, i, n, us);
        lemma_row_none(trow, us.len() as int);
        assert(row[n] == term_use_error(f, i));
        assert forall|x: int| 0 <= x < n implies #[trigger] row[x] == inst_use_error(f, i, x) by {}
        assert forall|k: int| 0 <= k < us.len() implies
            (use_in_order(f, i, n, #[trigger] us[k]) <==> trow[k] is None) by {
            assert(trow[k] == use_error(f, i, n, us[k]));
        }
        let insts_ok = forall|x: int| 0 <= x < n ==> #[trigger] inst_use_error(f, i, x) is None;
        let term_ok = forall|k: int| 0 <= k < us.len() ==> use_in_order(f, i, n, #[trigger] us[k]);
        assert(term_ok <==> term_use_error(f, i) is None) by {
            if term_ok {
                assert forall|k: int| 0 <= k < us.len() implies #[trigger] trow[k] is None by {
                    assert(use_in_order(f, i, n, us[k]));
                }
            } else {
                let k = choose|k: int| 0 <= k < us.len() && !use_in_order(f, i, n, #[trigger] us[k]);
                assert(trow[k] is Some);
            }
        }
        if insts_ok && term_ok {
            assert forall|x: int| 0 <= x < n + 1 implies #[trigger] row[x] is None by {
                if x < n { assert(inst_use_error(f, i, x) is None); }
            }
        }
        if block_use_error(f, i) is None {
            assert forall|x: int| 0 <= x < n implies #[trigger] inst_use_error(f, i, x) is None by {
                assert(row[x] is None);
            }
            assert(row[n] is None);
        }
    }
    let insts_ok = forall|i: int, x: int| 0 <= i < f.blocks@.len() && 0 <= x < f.blocks@[i].insts@.len()
        ==> #[trigger] inst_use_error(f, i, x) is None;
    let terms_ok = forall|i: int, k: int| 0 <= i < f.blocks@.len() && 0 <= k < spec_term_uses(f.blocks@[i].term).len()
        ==> use_in_order(f, i, f.blocks@[i].insts@.len() as int, #[trigger] spec_term_uses(f.blocks@[i].term)[k]);
    if first_use_error(f) is None {
        assert forall|i: int, x: int| 0 <= i < f.blocks@.len() && 0 <= x < f.blocks@[i].insts@.len()
            implies #[trigger] inst_use_error(f, i, x) is None by {
            assert(outer[i] is None);
            assert(block_use_error(f, i) is None);
        }
        assert forall|i: int, k: int| 0 <= i < f.blocks@.len() && 0 <= k < spec_term_uses(f.blocks@[i].term).len()
            implies use_in_order(f, i, f.blocks@[i].insts@.len() as int, #[trigger] spec_term_uses(f.blocks@[i].term)[k]) by {
            assert(outer[i] is None);
            assert(block_use_error(f, i) is None);
        }
    }
    if insts_ok && terms_ok {
        assert forall|i: int| 0 <= i < outer.len() implies #[trigger] outer[i] is None by {
            assert(forall|x: int| 0 <= x < f.blocks@[i].insts@.len() ==> #[trigger] inst_use_error(f, i, x) is None);
            assert(forall|k: int| 0 <= k < spec_term_uses(f.blocks@[i].term).len()
                ==> use_in_order(f, i, f.blocks@[i].insts@.len() as int, #[trigger] spec_term_uses(f.blocks@[i].term)[k]));
            assert(block_use_error(f, i) is None);
        }
    }
}

/// Validation accepts exactly the functions that meet the invariants of the IR.
pub proof fn lemma_validation_accepts_invariants(f: Function)
    ensures
        function_valid(f) <==> ir_invariants(f),
{
    let n = f.blocks@.len();
    let dups = Seq::new(n, |j: int| dup_error(f, j));
    let succs = Seq::new(n, |j: int| succ_error(f, j));
    lemma_first_some_none(dups);
    lemma_first_some_none(succs);
    lemma_def_errors_none(f);
    lemma_use_errors_none(f);
    assert forall|i: int, x: int| 0 <= i < n && 0 <= x < f.blocks@[i].insts@.len() implies
        (#[trigger] def_error(f, i, x) is None <==> {
            let inst = inst_at(f, i, x);
            &&& !defined_before(f, i, x, spec_def(inst))
            &&& is_phi(inst) ==> forall|y: int| 0 <= y < x ==> is_phi(#[trigger] inst_at(f, i, y))
            &&& (inst matches Inst::ArgI64 { idx, .. } ==> idx.0 < f.args)
        }) by {}
    assert forall|i: int, x: int| 0 <= i < n && 0 <= x < f.blocks@[i].insts@.len() implies
        #[trigger] inst_use_error(f, i, x) is None <==> {
            let inst = inst_at(f, i, x);
            &&& !is_phi(inst) ==> forall|k: int| 0 <= k < spec_uses(inst).len()
                ==> use_in_order(f, i, x, #[trigger] spec_uses(inst)[k])
            &&& is_phi(inst) ==> {
                &&& f.blocks@[i].id != f.entry
                &&& spec_phi_inputs(inst).len() == pred_ids(f, i).len()
                &&& forall|y: int| 0 <= y < spec_phi_inputs(inst).len()
                    ==> #[trigger] phi_input_in_order(f, i, spec_phi_inputs(inst), y)
            }
        } by {
        lemma_inst_use_none(f, i, x);
    }
    let succ_ok = forall|j: int, t: BlockId| 0 <= j < n && #[trigger] spec_successors(f.blocks@[j].term).contains(t)
        ==> f.has_block(t);
    assert(succ_ok <==> forall|j: int| 0 <= j < n ==> #[trigger] succs[j] is None) by {
        if succ_ok {
            assert forall|j: int| 0 <= j < n implies #[trigger] succs[j] is None by {
                let s = spec_successors(f.blocks@[j].term);
                if s.len() > 0 { assert(s.contains(s[0])); }
                if s.len() > 1 { assert(s.contains(s[1])); }
            }
        }
        if forall|j: int| 0 <= j < n ==> #[trigger] succs[j] is None {
            assert forall|j: int, t: BlockId| 0 <= j < n && #[trigger] spec_successors(f.blocks@[j].term).contains(t)
                implies f.has_block(t) by {
                assert(succs[j] is None);
                let s = spec_successors(f.blocks@[j].term);
                let k = choose|k: int| 0 <= k < s.len() && s[k] == t;
            }
        }
    }
    assert(ids_distinct(f) <==> forall|j: int| 0 <= j < n ==> #[trigger] dups[j] is None) by {
        if ids_distinct(f) {
            assert forall|j: int| 0 <= j < n implies #[trigger] dups[j] is None by {
                if exists|q: int| 0 <= q < j && #[trigger] f.blocks@[q].id == f.blocks@[j].id {
                    let q = choose|q: int| 0 <= q < j && #[trigger] f.blocks@[q].id == f.blocks@[j].id;
                }
            }
        }
        if forall|j: int| 0 <= j < n ==> #[trigger] dups[j] is None {
            assert forall|i: int, j: int| 0 <= i < j < n implies f.blocks@[i].id != f.blocks@[j].id by {
                assert(dups[j] is None);
            }
        }
    }
    if function_valid(f) {
        assert forall|i: int, x: int| 0 <= i < n && 0 <= x < f.blocks@[i].insts@.len() implies {
            let inst = #[trigger] inst_at(f, i, x);
            &&& !defined_before(f, i, x, spec_def(inst))
            &&& is_phi(inst) ==> forall|y: int| 0 <= y < x ==> is_phi(#[trigger] inst_at(f, i, y))
            &&& (inst matches Inst::ArgI64 { idx, .. } ==> idx.0 < f.args)
            &&& !is_phi(inst) ==> forall|k: int| 0 <= k < spec_uses(inst).len()
                ==> use_in_order(f, i, x, #[trigger] spec_uses(inst)[k])
            &&& is_phi(inst) ==> {
                &&& f.blocks@[i].id != f.entry
                &&& spec_phi_inputs(inst).len() == pred_ids(f, i).len()
                &&& forall|y: int| 0 <= y < spec_phi_inputs(inst).len()
                    ==> #[trigger] phi_input_in_order(f, i, spec_phi_inputs(inst), y)
            }
        } by {
            assert(def_error(f, i, x) is None);
            assert(inst_use_error(f, i, x) is None);
        }
        assert(ir_invariants(f));
    }
    if ir_invariants(f) {
        assert forall|i: int, x: int| 0 <= i < n && 0 <= x < f.blocks@[i].insts@.len()
            implies #[trigger] def_error(f, i, x) is None by {
            assert(!defined_before(f, i, x, spec_def(inst_at(f, i, x))));
        }
        assert forall|i: int, x: int| 0 <= i < n && 0 <= x < f.blocks@[i].insts@.len()
            implies #[trigger] inst_use_error(f, i, x) is None by {
            assert(!defined_before(f, i, x, spec_def(inst_at(f, i, x))));
        }
        assert(first_def_error(f) is None);
        assert(first_use_error(f) is None);
        assert(function_valid(f));
    }
}

/// Block `block` holds a phi with an input that names `predecessor`, and no block
/// with id `predecessor` jumps to `block`.
pub open spec fn phi_names_non_predecessor(f: Function, block: BlockId, predecessor: BlockId) -> bool {
    exists|i: int, x: int, y: int| 0 <= i < f.blocks@.len() && 0 <= x < f.blocks@[i].insts@.len()
        && f.blocks@[i].id == block && is_phi(inst_at(f, i, x))
        && 0 <= y < spec_phi_inputs(inst_at(f, i, x)).len() && (#[trigger] spec_phi_inputs(inst_at(f, i, x))[y]).0 == predecessor
        && forall|j: int| 0 <= j < f.blocks@.len() && f.blocks@[j].id == predecessor
            ==> !(#[trigger] spec_successors(f.blocks@[j].term)).contains(block)
}

/// The errors that checking the inputs of a phi reports.
pub open spec fn is_phi_input_kind(e: ValidationError) -> bool {
    ||| e is DuplicatePhiPredecessor
    ||| e is PhiReferencesNonPredecessor
    ||| e is UndefinedPhiInput
    ||| e is PhiInputNotDominated
}

/// What a phi-input error says about the function, in its own terms:
/// - a repeated predecessor: a phi of `block` has two inputs naming `predecessor`;
/// - a non-predecessor: see `phi_names_non_predecessor`;
/// - an undefined input: a phi takes `v`, and no instruction defines `v`;
/// - an input not dominating its edge: a phi of `block` takes `value` from
///   `predecessor`, `value` is defined in a block with id `definition` other than
///   `predecessor`, and some path from the entry to the block with id
///   `predecessor` avoids that block.
pub open spec fn phi_input_report_true(f: Function, e: ValidationError) -> bool {
    match e {
        ValidationError::DuplicatePhiPredecessor { block, predecessor } =>
            exists|i: int, x: int, y1: int, y2: int| 0 <= i < f.blocks@.len() && 0 <= x < f.blocks@[i].insts@.len()
                && f.blocks@[i].id == block && is_phi(inst_at(f, i, x))
                && 0 <= y1 < y2 < spec_phi_inputs(inst_at(f, i, x)).len()
                && (#[trigger] spec_phi_inputs(inst_at(f, i, x))[y1]).0 == predecessor
                && (#[trigger] spec_phi_inputs(inst_at(f, i, x))[y2]).0 == predecessor,
        ValidationError::PhiReferencesNonPredecessor { block, predecessor } =>
            phi_names_non_predecessor(f, block, predecessor),
        ValidationError::UndefinedPhiInput(v) =>
            (exists|i: int, x: int, y: int| 0 <= i < f.blocks@.len() && 0 <= x < f.blocks@[i].insts@.len()
                && is_phi(inst_at(f, i, x)) && 0 <= y < spec_phi_inputs(inst_at(f, i, x)).len()
                && (#[trigger] spec_phi_inputs(inst_at(f, i, x))[y]).1 == v)
            && forall|i: int, x: int| 0 <= i < f.blocks@.len() && 0 <= x < f.blocks@[i].insts@.len()
                ==> #[trigger] spec_def(inst_at(f, i, x)) != v,
        ValidationError::PhiInputNotDominated { value, definition, predecessor, block } =>
            (exists|i: int, x: int, y: int| 0 <= i < f.blocks@.len() && 0 <= x < f.blocks@[i].insts@.len()
                && f.blocks@[i].id == block && is_phi(inst_at(f, i, x)) && 0 <= y < spec_phi_inputs(inst_at(f, i, x)).len()
                && #[trigger] spec_phi_inputs(inst_at(f, i, x))[y] == (predecessor, value))
            && definition != predecessor
            && exists|d: int, xd: int| 0 <= d < f.blocks@.len() && 0 <= xd < f.blocks@[d].insts@.len()
                && f.blocks@[d].id == definition && #[trigger] spec_def(inst_at(f, d, xd)) == value
                && exists|pth: Seq<int>| #[trigger] is_path(f, pth) && pth.last() == first_block_index(f.blocks@, predecessor)
                    && !pth.contains(d),
        _ => true,
    }
}

proof fn lemma_use_row_kind(f: Function, i: int, x: int, us: Seq<VReg>)
    ensures
        first_some(use_row(f, i, x, us)) is Some ==> !is_phi_input_kind(first_some(use_row(f, i, x, us))->0),
{
    let row = use_row(f, i, x, us);
    lemma_first_some_in(row);
    if first_some(row) is Some {
        let k = choose|k: int| 0 <= k < row.len() && row[k] == first_some(row);
        assert(row[k] == use_error(f, i, x, us[k]));
    }
}

/// A phi-input error that validation reports comes from an input of a phi.
proof fn lemma_phi_input_source(f: Function, err: ValidationError)
    requires
        validation_result(f) == Err::<(), ValidationError>(err),
        is_phi_input_kind(err),
    ensures
        exists|i: int, x: int, y: int| 0 <= i < f.blocks@.len() && 0 <= x < f.blocks@[i].insts@.len()
            && is_phi(inst_at(f, i, x)) && 0 <= y < spec_phi_inputs(inst_at(f, i, x)).len()
            && #[trigger] phi_input_error(f, i, spec_phi_inputs(inst_at(f, i, x)), y) == Some(err),
{
    let n = f.blocks@.len();
    let dups = Seq::new(n, |j: int| dup_error(f, j));
    lemma_first_some_in(dups);
    if first_some(dups) is Some {
        let k = choose|k: int| 0 <= k < dups.len() && dups[k] == first_some(dups);
        assert(dups[k] == dup_error(f, k));
    }
    let succs = Seq::new(n, |j: int| succ_error(f, j));
    lemma_first_some_in(succs);
    if first_some(succs) is Some {
        let k = choose|k: int| 0 <= k < succs.len() && succs[k] == first_some(succs);
        assert(succs[k] == succ_error(f, k));
    }
    let defs = Seq::new(n, |i: int| first_some(def_row(f, i)));
    lemma_first_some_in(defs);
    if first_def_error(f) is Some {
        let k = choose|k: int| 0 <= k < defs.len() && defs[k] == first_some(defs);
        lemma_first_some_in(def_row(f, k));
        let x = choose|x: int| 0 <= x < def_row(f, k).len() && def_row(f, k)[x] == first_some(def_row(f, k));
        assert(def_row(f, k)[x] == def_error(f, k, x));
    }
    assert(first_use_error(f) == Some(err));
    let blocks_u = Seq::new(n, |i: int| block_use_error(f, i));
    lemma_first_some_in(blocks_u);
    let i = choose|i: int| 0 <= i < blocks_u.len() && blocks_u[i] == first_some(blocks_u);
    assert(block_use_error(f, i) == Some(err));
    let len = f.blocks@[i].insts@.len() as int;
    let row = inst_row(f, i).push(term_use_error(f, i));
    lemma_first_some_in(row);
    let x = choose|x: int| 0 <= x < row.len() && row[x] == first_some(row);
    if x == len {
        assert(row[x] == term_use_error(f, i));
        lemma_use_row_kind(f, i, len, spec_term_uses(f.blocks@[i].term));
        assert(false);
    }
    assert(row[x] == inst_use_error(f, i, x));
    let inst = inst_at(f, i, x);
    if !is_phi(inst) {
        lemma_use_row_kind(f, i, x, spec_uses(inst));
        assert(false);
    }
    let inc = spec_phi_inputs(inst);
    let prow = phi_row(f, i, inc);
    assert(first_some(prow) == Some(err));
    lemma_first_some_in(prow);
    let y = choose|y: int| 0 <= y < prow.len() && prow[y] == first_some(prow);
    assert(prow[y] == phi_input_error(f, i, inc, y));
}

/// Every phi-input error that validation reports is true of the function (see
/// `phi_input_report_true`).
pub proof fn lemma_phi_input_reports(f: Function, err: ValidationError)
    requires
        validation_result(f) == Err::<(), ValidationError>(err),
        is_phi_input_kind(err),
    ensures
        phi_input_report_true(f, err),
{
    lemma_phi_input_source(f, err);
    let (i, x, y) = choose|i: int, x: int, y: int| 0 <= i < f.blocks@.len() && 0 <= x < f.blocks@[i].insts@.len()
        && is_phi(inst_at(f, i, x)) && 0 <= y < spec_phi_inputs(inst_at(f, i, x)).len()
        && #[trigger] phi_input_error(f, i, spec_phi_inputs(inst_at(f, i, x)), y) == Some(err);
    let n = f.blocks@.len();
    let inc = spec_phi_inputs(inst_at(f, i, x));
    let p = inc[y].0;
    let v = inc[y].1;
    if exists|q: int| 0 <= q < y && #[trigger] inc[q].0 == p {
        let q = choose|q: int| 0 <= q < y && #[trigger] inc[q].0 == p;
        assert(inc[q].0 == p && inc[y].0 == p);
    } else if !pred_ids(f, i).contains(p) {
        assert forall|j: int| 0 <= j < f.blocks@.len() && f.blocks@[j].id == p
            implies !(#[trigger] spec_successors(f.blocks@[j].term)).contains(f.blocks@[i].id) by {
            if spec_successors(f.blocks@[j].term).contains(f.blocks@[i].id) {
                assert(edge(f, j, i));
                assert(pred_marks(f, i)[j]);
                lemma_ids_if_has(f.blocks@, pred_marks(f, i), n as int, j);
            }
        }
        assert(inc[y].0 == p);
    } else if !has_def(f, v) {
        assert(inc[y].1 == v);
    } else {
        let (d, xd) = def_pos(f, v);
        assert(spec_def(inst_at(f, d, xd)) == v);
        assert(!path_dominates(f, d, first_block_index(f.blocks@, p)));
        let pth = choose|pth: Seq<int>| #[trigger] is_path(f, pth) && pth.last() == first_block_index(f.blocks@, p)
            && !pth.contains(d);
        assert(inc[y] == (p, v));
    }
}

/// A report that a phi names a block that is not a predecessor is true of the
/// function: the reported block holds a phi with an input naming the reported
/// predecessor, and no block with that id jumps to the reported block.
pub proof fn lemma_non_predecessor_report(f: Function, block: BlockId, predecessor: BlockId)
    requires
        validation_result(f) == Err::<(), ValidationError>(ValidationError::PhiReferencesNonPredecessor { block, predecessor }),
    ensures
        phi_names_non_predecessor(f, block, predecessor),
{
    lemma_phi_input_reports(f, ValidationError::PhiReferencesNonPredecessor { block, predecessor });
}

/// A valid function has distinct block ids.
pub proof fn lemma_valid_ids_distinct(f: Function)
    requires
        function_valid(f),
    ensures
        ids_distinct(f),
        f.blocks@.len() > 0,
{
    let s = Seq::new(f.blocks@.len(), |j: int| dup_error(f, j));
    lemma_first_some_none(s);
    assert forall|i: int, j: int| 0 <= i < j < f.blocks@.len() implies f.blocks@[i].id != f.blocks@[j].id by {
        assert(s[j] is None);
    }
}

// ---------------------------------------------------------------------------
// The checks, executed.

/// The first block that repeats the id of an earlier block.
fn first_duplicate_block(f: &Function) -> (r: Option<ValidationError>)
    ensures
        r == first_some(Seq::new(f.blocks@.len(), |j: int| dup_error(*f, j))),
        r is None ==> ids_distinct(*f),
{
    let n = f.blocks.len();
    let ghost s = Seq::new(f.blocks@.len(), |j: int| dup_error(*f, j));
    let mut j: usize = 0;
    while j < n
        invariant
            n == f.blocks@.len(),
            j <= n,
            s == Seq::new(f.blocks@.len(), |j: int| dup_error(*f, j)),
            forall|q: int| 0 <= q < j ==> #[trigger] s[q] is None,
        decreases n - j,
    {
        let mut q: usize = 0;
        while q < j
            invariant
                n == f.blocks@.len(),
                j < n,
                q <= j,
                s == Seq::new(f.blocks@.len(), |j: int| dup_error(*f, j)),
                forall|w: int| 0 <= w < j ==> #[trigger] s[w] is None,
                forall|w: int| 0 <= w < q ==> #[trigger] f.blocks@[w].id != f.blocks@[j as int].id,
            decreases j - q,
        {
            if f.blocks[q].id == f.blocks[j].id {
                proof {
                    assert(f.blocks@[q as int].id == f.blocks@[j as int].id);
                    assert(s[j as int] is Some);
                    lemma_first_some_at(s, j as int);
                }
                return Some(ValidationError::DuplicateBlock(f.blocks[j].id));
            }
            q += 1;
        }
        assert(s[j as int] is None);
        j += 1;
    }
    proof {
        lemma_first_some_none(s);
        assert forall|a: int, b: int| 0 <= a < b < n implies f.blocks@[a].id != f.blocks@[b].id by {
            assert(s[b] is None);
        }
    }
    None
}

/// The first unknown successor, as a validation error.
fn first_unknown_successor(f: &Function) -> (r: Option<ValidationError>)
    ensures
        r == first_some(Seq::new(f.blocks@.len(), |j: int| succ_error(*f, j))),
{
    let ghost s = Seq::new(f.blocks@.len(), |j: int| succ_error(*f, j));
    match check_successors(f) {
        Ok(()) => {
            proof {
                assert forall|k: int| 0 <= k < s.len() implies #[trigger] s[k] is None by {
                    assert(first_unknown(*f, k) is None);
                }
                lemma_first_some_none(s);
            }
            None
        },
        Err(e) => {
            proof {
                let j = choose|j: int| 0 <= j < f.blocks@.len()
                    && (forall|q: int| 0 <= q < j ==> #[trigger] first_unknown(*f, q) is None)
                    && first_unknown(*f, j) is Some
                    && e == (CfgError::UnknownSuccessor { block: f.blocks@[j].id, target: first_unknown(*f, j)->0 });
                assert forall|q: int| 0 <= q < j implies #[trigger] s[q] is None by {
                    assert(first_unknown(*f, q) is None);
                }
                lemma_first_some_at(s, j);
            }
            match e {
                CfgError::UnknownSuccessor { block, target } =>
                    Some(ValidationError::UnknownSuccessor { block, target }),
                CfgError::MissingEntry(b) => Some(ValidationError::MissingEntry(b)),
            }
        },
    }
}

/// Whether every block is reachable from the entry block.
fn all_blocks_reachable(f: &Function, e: usize) -> (r: bool)
    requires
        e < f.blocks@.len(),
        e as int == entry_index(*f),
    ensures
        r == all_reachable(*f),
{
    let seen = reachable_blocks(f, e);
    let mut i: usize = 0;
    while i < seen.len()
        invariant
            e < f.blocks@.len(),
            seen@.len() == f.blocks@.len(),
            i <= seen@.len(),
            forall|q: int| 0 <= q < f.blocks@.len() ==> seen@[q] == reachable(*f, q),
            forall|q: int| 0 <= q < i ==> #[trigger] reachable(*f, q),
        decreases seen.len() - i,
    {
        if !seen[i] {
            proof {
                assert(!reachable(*f, i as int));
            }
            return false;
        }
        i += 1;
    }
    true
}

/// The definitions seen so far: value, block position, instruction index.
pub open spec fn defs_sound(f: Function, ds: Seq<(VReg, usize, usize)>, i: int, x: int) -> bool {
    forall|k: int| 0 <= k < ds.len() ==> {
        let d = #[trigger] ds[k];
        &&& (d.1 as int) < f.blocks@.len()
        &&& (d.2 as int) < f.blocks@[d.1 as int].insts@.len()
        &&& spec_def(inst_at(f, d.1 as int, d.2 as int)) == d.0
        &&& pos_before(d.1 as int, d.2 as int, i, x)
    }
}

/// Every definition before `(i, x)` has been seen.
pub open spec fn defs_complete(f: Function, ds: Seq<(VReg, usize, usize)>, i: int, x: int) -> bool {
    forall|i2: int, x2: int| 0 <= i2 < f.blocks@.len() && 0 <= x2 < f.blocks@[i2].insts@.len()
        && pos_before(i2, x2, i, x)
        ==> ds.contains((#[trigger] spec_def(inst_at(f, i2, x2)), i2 as usize, x2 as usize))
}

/// The recorded definition of `v`, if any.
fn find_def(ds: &Vec<(VReg, usize, usize)>, v: VReg) -> (r: Option<(usize, usize)>)
    ensures
        match r {
            Some(p) => ds@.contains((v, p.0, p.1)),
            None => forall|k: int| 0 <= k < ds@.len() ==> (#[trigger] ds@[k]).0 != v,
        },
{
    let mut k: usize = 0;
    while k < ds.len()
        invariant
            k <= ds@.len(),
            forall|q: int| 0 <= q < k ==> (#[trigger] ds@[q]).0 != v,
        decreases ds.len() - k,
    {
        if ds[k].0 == v {
            assert(ds@[k as int] == (v, ds@[k as int].1, ds@[k as int].2));
            return Some((ds[k].1, ds[k].2));
        }
        k += 1;
    }
    None
}

/// Whether an instruction is a phi.
fn is_phi_inst(inst: &Inst) -> (r: bool)
    ensures
        r == is_phi(*inst),
{
    match inst {
        Inst::PhiI64 { .. } => true,
        _ => false,
    }
}

/// All definition checks are passed: the definitions of the function are unique.
pub proof fn lemma_unique_def(f: Function, v: VReg, i: int, x: int)
    requires
        first_def_error(f) is None,
        0 <= i < f.blocks@.len(),
        0 <= x < f.blocks@[i].insts@.len(),
        spec_def(inst_at(f, i, x)) == v,
    ensures
        has_def(f, v),
        def_pos(f, v) == (i, x),
{
    let n = f.blocks@.len();
    let rows = Seq::new(n, |b: int| first_some(def_row(f, b)));
    lemma_first_some_none(rows);
    assert(has_def(f, v));
    let p = def_pos(f, v);
    assert(spec_def(inst_at(f, i, x)) == v);
    assert(0 <= p.0 < n && 0 <= p.1 < f.blocks@[p.0].insts@.len() && spec_def(inst_at(f, p.0, p.1)) == v);
    if p != (i, x) {
        assert(spec_def(inst_at(f, p.0, p.1)) == v);
        let r1 = def_row(f, i);
        let r2 = def_row(f, p.0);
        assert(rows[i] is None);
        assert(rows[p.0] is None);
        lemma_first_some_none(r1);
        lemma_first_some_none(r2);
        assert(r1[x] is None);
        assert(r2[p.1] is None);
        if pos_before(p.0, p.1, i, x) {
            assert(defined_before(f, i, x, v));
        } else {
            assert(pos_before(i, x, p.0, p.1));
            assert(defined_before(f, p.0, p.1, v));
        }
    }
}

/// Scans the definitions in layout order; on success returns all of them.
fn scan_definitions(f: &Function) -> (r: Result<Vec<(VReg, usize, usize)>, ValidationError>)
    ensures
        match r {
            Ok(ds) => first_def_error(*f) is None
                && defs_sound(*f, ds@, f.blocks@.len() as int, 0)
                && defs_complete(*f, ds@, f.blocks@.len() as int, 0),
            Err(e) => first_def_error(*f) == Some(e),
        },
{
    let n = f.blocks.len();
    let ghost rows = Seq::new(f.blocks@.len(), |b: int| first_some(def_row(*f, b)));
    let mut ds: Vec<(VReg, usize, usize)> = Vec::new();
    let mut i: usize = 0;
    while i < n
        invariant
            n == f.blocks@.len(),
            i <= n,
            rows == Seq::new(f.blocks@.len(), |b: int| first_some(def_row(*f, b))),
            forall|q: int| 0 <= q < i ==> #[trigger] rows[q] is None,
            defs_sound(*f, ds@, i as int, 0),
            defs_complete(*f, ds@, i as int, 0),
        decreases n - i,
    {
        let block = &f.blocks[i];
        let len = block.insts.len();
        let ghost row = def_row(*f, i as int);
        let mut saw_non_phi = false;
        let mut x: usize = 0;
        while x < len
            invariant
                n == f.blocks@.len(),
                i < n,
                block == f.blocks@[i as int],
                len == block.insts@.len(),
                x <= len,
                row == def_row(*f, i as int),
                rows == Seq::new(f.blocks@.len(), |b: int| first_some(def_row(*f, b))),
                forall|q: int| 0 <= q < i ==> #[trigger] rows[q] is None,
                forall|q: int| 0 <= q < x ==> #[trigger] row[q] is None,
                saw_non_phi == exists|y: int| 0 <= y < x && !is_phi(#[trigger] inst_at(*f, i as int, y)),
                defs_sound(*f, ds@, i as int, x as int),
                defs_complete(*f, ds@, i as int, x as int),
            decreases len - x,
        {
            let inst = &block.insts[x];
            let ghost xi = x as int;
            assert(*inst == inst_at(*f, i as int, xi));
            let mut err: Option<ValidationError> = None;
            if is_phi_inst(inst) {
                if saw_non_phi {
                    err = Some(ValidationError::PhiAfterInstruction(block.id));
                }
            } else {
                saw_non_phi = true;
            }
            if err.is_none() {
                if let Inst::ArgI64 { idx, .. } = inst {
                    if idx.0 >= f.args {
                        err = Some(ValidationError::ArgumentOutOfRange { index: idx.0, args: f.args });
                    }
                }
            }
            let v = defs(inst).unwrap();
            if err.is_none() {
                let found = find_def(&ds, v);
                proof {
                    if found is Some {
                        let p = found->0;
                        let k = choose|k: int| 0 <= k < ds@.len() && ds@[k] == (v, p.0, p.1);
                        assert(ds@[k] == (v, p.0, p.1));
                        assert(defined_before(*f, i as int, xi, v));
                    } else {
                        if defined_before(*f, i as int, xi, v) {
                            let (i2, x2) = choose|i2: int, x2: int| 0 <= i2 < f.blocks@.len() && 0 <= x2 < f.blocks@[i2].insts@.len()
                                && pos_before(i2, x2, i as int, xi) && #[trigger] spec_def(inst_at(*f, i2, x2)) == v;
                            assert(ds@.contains((spec_def(inst_at(*f, i2, x2)), i2 as usize, x2 as usize)));
                            let k = choose|k: int| 0 <= k < ds@.len() && ds@[k] == (v, i2 as usize, x2 as usize);
                            assert(ds@[k].0 == v);
                        }
                    }
                }
                if found.is_some() {
                    err = Some(ValidationError::MultipleDefinitions(v));
                }
            }
            proof {
                assert(err == def_error(*f, i as int, xi));
            }
            if let Some(e) = err {
                proof {
                    lemma_first_some_at(row, xi);
                    assert(rows[i as int] == first_some(row));
                    lemma_first_some_at(rows, i as int);
                }
                return Err(e);
            }
            let ghost ods = ds@;
            ds.push((v, i, x));
            proof {
                let nds = ds@;
                assert forall|k: int| 0 <= k < nds.len() implies {
                    let d = #[trigger] nds[k];
                    &&& (d.1 as int) < f.blocks@.len()
                    &&& (d.2 as int) < f.blocks@[d.1 as int].insts@.len()
                    &&& spec_def(inst_at(*f, d.1 as int, d.2 as int)) == d.0
                    &&& pos_before(d.1 as int, d.2 as int, i as int, xi + 1)
                } by {
                    if k < nds.len() - 1 {
                        assert(nds[k] == ods[k]);
                    }
                }
                assert forall|i2: int, x2: int| 0 <= i2 < f.blocks@.len() && 0 <= x2 < f.blocks@[i2].insts@.len()
                    && pos_before(i2, x2, i as int, xi + 1)
                    implies nds.contains((#[trigger] spec_def(inst_at(*f, i2, x2)), i2 as usize, x2 as usize)) by {
                    if i2 == i && x2 == xi {
                        assert(nds[nds.len() - 1] == (v, i, x));
                    } else {
                        let old_ds = nds.drop_last();
                        assert(old_ds == ods);
                        assert(old_ds.contains((spec_def(inst_at(*f, i2, x2)), i2 as usize, x2 as usize)));
                        let k = choose|k: int| 0 <= k < old_ds.len() && old_ds[k] == (spec_def(inst_at(*f, i2, x2)), i2 as usize, x2 as usize);
                        assert(nds[k] == old_ds[k]);
                    }
                }
                if !is_phi(inst_at(*f, i as int, xi)) {
                    assert(!is_phi(inst_at(*f, i as int, xi)));
                }
            }
            x += 1;
        }
        proof {
            lemma_first_some_none(row);
            assert(rows[i as int] == first_some(row));
            assert(rows[i as int] is None);
            assert forall|i2: int, x2: int| 0 <= i2 < f.blocks@.len() && 0 <= x2 < f.blocks@[i2].insts@.len()
                && pos_before(i2, x2, i as int + 1, 0)
                implies ds@.contains((#[trigger] spec_def(inst_at(*f, i2, x2)), i2 as usize, x2 as usize)) by {
                assert(pos_before(i2, x2, i as int, len as int));
            }
        }
        i += 1;
    }
    proof {
        lemma_first_some_none(rows);
    }
    Ok(ds)
}

/// What the use checks rely on: unique definitions, all of them recorded, and
/// the dominator matrix equal to path dominance.
pub open spec fn use_ctx(f: Function, ds: Seq<(VReg, usize, usize)>, d: Seq<Seq<bool>>) -> bool {
    let n = f.blocks@.len() as int;
    &&& first_def_error(f) is None
    &&& defs_sound(f, ds, n, 0)
    &&& defs_complete(f, ds, n, 0)
    &&& d.len() == n
    &&& forall|i: int| 0 <= i < n ==> (#[trigger] d[i]).len() == n
    &&& forall|i: int, k: int| 0 <= i < n && 0 <= k < n ==> #[trigger] d[i][k] == path_dominates(f, k, i)
}

/// Looks up the definition of `v` among all recorded definitions.
fn lookup_def(f: &Function, ds: &Vec<(VReg, usize, usize)>, Ghost(d): Ghost<Seq<Seq<bool>>>, v: VReg) -> (r: Option<(usize, usize)>)
    requires
        use_ctx(*f, ds@, d),
    ensures
        r is None <==> !has_def(*f, v),
        r matches Some(p) ==> has_def(*f, v) && def_pos(*f, v) == (p.0 as int, p.1 as int)
            && (p.0 as int) < f.blocks@.len(),
{
    let found = find_def(ds, v);
    proof {
        let n = f.blocks@.len() as int;
        match found {
            Some(p) => {
                let k = choose|k: int| 0 <= k < ds@.len() && ds@[k] == (v, p.0, p.1);
                assert(ds@[k] == (v, p.0, p.1));
                lemma_unique_def(*f, v, p.0 as int, p.1 as int);
            },
            None => {
                if has_def(*f, v) {
                    let (i2, x2) = choose|i2: int, x2: int| 0 <= i2 < f.blocks@.len() && 0 <= x2 < f.blocks@[i2].insts@.len()
                        && #[trigger] spec_def(inst_at(*f, i2, x2)) == v;
                    assert(pos_before(i2, x2, n, 0));
                    assert(ds@.contains((spec_def(inst_at(*f, i2, x2)), i2 as usize, x2 as usize)));
                    let k = choose|k: int| 0 <= k < ds@.len() && ds@[k] == (v, i2 as usize, x2 as usize);
                    assert(ds@[k].0 == v);
                }
            },
        }
    }
    found
}

/// The check of a use of `v` at position `x` of block `i`.
fn check_use(f: &Function, ds: &Vec<(VReg, usize, usize)>, d: &Vec<Vec<bool>>, i: usize, x: usize, v: VReg) -> (r: Option<ValidationError>)
    requires
        use_ctx(*f, ds@, mat(d@)),
        i < f.blocks@.len(),
    ensures
        r == use_error(*f, i as int, x as int, v),
{
    match lookup_def(f, ds, Ghost(mat(d@)), v) {
        None => Some(ValidationError::UndefinedValue(v)),
        Some((bi, bx)) => {
            if bi == i {
                if bx >= x {
                    Some(ValidationError::UseBeforeDefinition { value: v, block: f.blocks[i].id })
                } else {
                    None
                }
            } else {
                assert(d@[i as int]@ == mat(d@)[i as int]);
                if !d[i][bi] {
                    Some(ValidationError::UseNotDominated {
                        value: v,
                        definition: f.blocks[bi].id,
                        use_block: f.blocks[i].id,
                    })
                } else {
                    None
                }
            }
        },
    }
}

/// The first failing check among the values `us` read at position `x` of block `i`.
fn check_uses(f: &Function, ds: &Vec<(VReg, usize, usize)>, d: &Vec<Vec<bool>>, i: usize, x: usize, us: &Vec<VReg>) -> (r: Option<ValidationError>)
    requires
        use_ctx(*f, ds@, mat(d@)),
        i < f.blocks@.len(),
    ensures
        r == first_some(use_row(*f, i as int, x as int, us@)),
{
    let ghost row = use_row(*f, i as int, x as int, us@);
    let mut y: usize = 0;
    while y < us.len()
        invariant
            use_ctx(*f, ds@, mat(d@)),
            i < f.blocks@.len(),
            y <= us@.len(),
            row == use_row(*f, i as int, x as int, us@),
            forall|q: int| 0 <= q < y ==> #[trigger] row[q] is None,
        decreases us.len() - y,
    {
        let r = check_use(f, ds, d, i, x, us[y]);
        if r.is_some() {
            proof { lemma_first_some_at(row, y as int); }
            return r;
        }
        y += 1;
    }
    proof { lemma_first_some_none(row); }
    None
}

/// Whether `b` occurs in `bs`.
fn contains_block(bs: &Vec<BlockId>, b: BlockId) -> (r: bool)
    ensures
        r == bs@.contains(b),
{
    let mut k: usize = 0;
    while k < bs.len()
        invariant
            k <= bs@.len(),
            forall|q: int| 0 <= q < k ==> bs@[q] != b,
        decreases bs.len() - k,
    {
        if bs[k] == b {
            assert(bs@[k as int] == b);
            return true;
        }
        k += 1;
    }
    false
}

/// A listed id belongs to some marked block.
pub proof fn lemma_ids_if_member(blocks: Seq<crate::ir::Block>, keep: Seq<bool>, m: int, x: BlockId)
    requires
        ids_if(blocks, keep, m).contains(x),
        m <= blocks.len(),
        m <= keep.len(),
    ensures
        exists|j: int| 0 <= j < m && keep[j] && #[trigger] blocks[j].id == x,
    decreases m,
{
    if m > 0 {
        let r = ids_if(blocks, keep, m - 1);
        if r.contains(x) {
            lemma_ids_if_member(blocks, keep, m - 1, x);
        } else {
            assert(keep[m - 1] && blocks[m - 1].id == x);
        }
    }
}

/// Every block marked in `keep` has its id among the ids kept.
pub proof fn lemma_ids_if_has(blocks: Seq<crate::ir::Block>, keep: Seq<bool>, m: int, j: int)
    requires
        0 <= j < m <= blocks.len(),
        m <= keep.len(),
        keep[j],
    ensures
        ids_if(blocks, keep, m).contains(blocks[j].id),
    decreases m,
{
    let r = ids_if(blocks, keep, m - 1);
    if j < m - 1 {
        lemma_ids_if_has(blocks, keep, m - 1, j);
        if keep[m - 1] && !r.contains(blocks[m - 1].id) {
            let k = choose|k: int| 0 <= k < r.len() && r[k] == blocks[j].id;
            assert(r.push(blocks[m - 1].id)[k] == blocks[j].id);
        }
    } else {
        if !r.contains(blocks[j].id) {
            assert(r.push(blocks[j].id)[r.len() as int] == blocks[j].id);
        }
    }
}

/// The ids marked in `keep`, in order, each once.
fn ids_list(f: &Function, keep: &Vec<bool>) -> (r: Vec<BlockId>)
    requires
        keep@.len() == f.blocks@.len(),
    ensures
        r@ == ids_if(f.blocks@, keep@, f.blocks@.len() as int),
{
    let mut r: Vec<BlockId> = Vec::new();
    let mut k: usize = 0;
    while k < f.blocks.len()
        invariant
            keep@.len() == f.blocks@.len(),
            k <= f.blocks@.len(),
            r@ == ids_if(f.blocks@, keep@, k as int),
        decreases f.blocks.len() - k,
    {
        if keep[k] {
            let id = f.blocks[k].id;
            if !contains_block(&r, id) {
                r.push(id);
            }
        }
        k += 1;
    }
    r
}

/// The ids of the blocks that jump to block `i`.
fn pred_list(f: &Function, i: usize) -> (r: Vec<BlockId>)
    requires
        i < f.blocks@.len(),
    ensures
        r@ == pred_ids(*f, i as int),
{
    let mut marks: Vec<bool> = Vec::new();
    let mut j: usize = 0;
    while j < f.blocks.len()
        invariant
            i < f.blocks@.len(),
            j <= f.blocks@.len(),
            marks@.len() == j,
            forall|q: int| 0 <= q < j ==> marks@[q] == edge(*f, q, i as int),
        decreases f.blocks.len() - j,
    {
        marks.push(has_edge_at(f, j, i));
        j += 1;
    }
    assert(marks@ =~= pred_marks(*f, i as int));
    ids_list(f, &marks)
}

/// Whether some input before `y` names predecessor `p`.
fn pred_seen(inc: &Vec<(BlockId, VReg)>, y: usize, p: BlockId) -> (r: bool)
    requires
        y <= inc@.len(),
    ensures
        r == exists|q: int| 0 <= q < y && #[trigger] inc@[q].0 == p,
{
    let mut q: usize = 0;
    while q < y
        invariant
            y <= inc@.len(),
            q <= y,
            forall|w: int| 0 <= w < q ==> #[trigger] inc@[w].0 != p,
        decreases y - q,
    {
        if inc[q].0 == p {
            assert(inc@[q as int].0 == p);
            return true;
        }
        q += 1;
    }
    false
}

/// The check of input `y` of a phi of block `i`.
fn check_phi_input(
    f: &Function,
    ds: &Vec<(VReg, usize, usize)>,
    d: &Vec<Vec<bool>>,
    i: usize,
    preds: &Vec<BlockId>,
    inc: &Vec<(BlockId, VReg)>,
    y: usize,
) -> (r: Option<ValidationError>)
    requires
        use_ctx(*f, ds@, mat(d@)),
        i < f.blocks@.len(),
        preds@ == pred_ids(*f, i as int),
        y < inc@.len(),
    ensures
        r == phi_input_error(*f, i as int, inc@, y as int),
{
    let (p, v) = inc[y];
    if pred_seen(inc, y, p) {
        return Some(ValidationError::DuplicatePhiPredecessor { block: f.blocks[i].id, predecessor: p });
    }
    if !contains_block(preds, p) {
        return Some(ValidationError::PhiReferencesNonPredecessor { block: f.blocks[i].id, predecessor: p });
    }
    match lookup_def(f, ds, Ghost(mat(d@)), v) {
        None => Some(ValidationError::UndefinedPhiInput(v)),
        Some((bi, _bx)) => {
            if f.blocks[bi].id != p {
                proof {
                    lemma_ids_if_member(f.blocks@, pred_marks(*f, i as int), f.blocks@.len() as int, p);
                    let j = choose|j: int| 0 <= j < f.blocks@.len() && pred_marks(*f, i as int)[j] && #[trigger] f.blocks@[j].id == p;
                    lemma_first_block_index(f.blocks@, p);
                }
                let pp = f.find_block(p).unwrap();
                assert(d@[pp as int]@ == mat(d@)[pp as int]);
                if !d[pp][bi] {
                    return Some(ValidationError::PhiInputNotDominated {
                        value: v,
                        definition: f.blocks[bi].id,
                        predecessor: p,
                        block: f.blocks[i].id,
                    });
                }
            }
            None
        },
    }
}

/// The first failing check among the values read by instruction `x` of block `i`.
fn check_inst_uses(f: &Function, ds: &Vec<(VReg, usize, usize)>, d: &Vec<Vec<bool>>, i: usize, x: usize) -> (r: Option<ValidationError>)
    requires
        use_ctx(*f, ds@, mat(d@)),
        i < f.blocks@.len(),
        x < f.blocks@[i as int].insts@.len(),
    ensures
        r == inst_use_error(*f, i as int, x as int),
{
    let block = &f.blocks[i];
    let inst = &block.insts[x];
    assert(*inst == inst_at(*f, i as int, x as int));
    match inst {
        Inst::PhiI64 { incoming, .. } => {
            if block.id == f.entry {
                return Some(ValidationError::PhiInEntry(block.id));
            }
            let preds = pred_list(f, i);
            let inc = incoming.to_vec();
            assert(spec_phi_inputs(*inst) == inc@);
            let ghost row = phi_row(*f, i as int, inc@);
            let mut y: usize = 0;
            while y < inc.len()
                invariant
                    use_ctx(*f, ds@, mat(d@)),
                    i < f.blocks@.len(),
                    x < f.blocks@[i as int].insts@.len(),
                    *inst == inst_at(*f, i as int, x as int),
                    is_phi(*inst),
                    spec_phi_inputs(*inst) == inc@,
                    f.blocks@[i as int].id != f.entry,
                    preds@ == pred_ids(*f, i as int),
                    y <= inc@.len(),
                    row == phi_row(*f, i as int, inc@),
                    forall|q: int| 0 <= q < y ==> #[trigger] row[q] is None,
                decreases inc.len() - y,
            {
                let r = check_phi_input(f, ds, d, i, &preds, &inc, y);
                if r.is_some() {
                    proof { lemma_first_some_at(row, y as int); }
                    return r;
                }
                y += 1;
            }
            proof {
                lemma_first_some_none(row);
                assert(is_phi(*inst));
                assert(spec_phi_inputs(*inst) == inc@);
                assert(block.id == f.blocks@[i as int].id);
            }
            if inc.len() != preds.len() {
                return Some(ValidationError::IncompletePhi(block.id));
            }
            None
        },
        _ => {
            let us = uses(inst).to_vec();
            assert(!is_phi(*inst));
            assert(us@ == spec_uses(*inst));
            check_uses(f, ds, d, i, x, &us)
        },
    }
}

/// The first failing check among the values read in block `i`.
fn check_block_uses(f: &Function, ds: &Vec<(VReg, usize, usize)>, d: &Vec<Vec<bool>>, i: usize) -> (r: Option<ValidationError>)
    requires
        use_ctx(*f, ds@, mat(d@)),
        i < f.blocks@.len(),
    ensures
        r == block_use_error(*f, i as int),
{
    let block = &f.blocks[i];
    let len = block.insts.len();
    let ghost row = inst_row(*f, i as int).push(term_use_error(*f, i as int));
    let mut x: usize = 0;
    while x < len
        invariant
            use_ctx(*f, ds@, mat(d@)),
            i < f.blocks@.len(),
            block == f.blocks@[i as int],
            len == block.insts@.len(),
            x <= len,
            row == inst_row(*f, i as int).push(term_use_error(*f, i as int)),
            forall|q: int| 0 <= q < x ==> #[trigger] row[q] is None,
        decreases len - x,
    {
        let r = check_inst_uses(f, ds, d, i, x);
        if r.is_some() {
            proof {
                assert(row[x as int] == inst_use_error(*f, i as int, x as int));
                lemma_first_some_at(row, x as int);
            }
            return r;
        }
        assert(row[x as int] == inst_use_error(*f, i as int, x as int));
        x += 1;
    }
    let us = term_uses(&block.term).to_vec();
    let r = check_uses(f, ds, d, i, len, &us);
    proof {
        assert(row[len as int] == term_use_error(*f, i as int));
        if r is Some {
            lemma_first_some_at(row, len as int);
        } else {
            lemma_first_some_none(row);
        }
    }
    r
}

/// Validates a function: at least one block, distinct block ids, an existing
/// entry block, successors that name blocks, every block reachable, phis first
/// in their blocks, argument indices in range, one definition per value, phi
/// inputs exactly for the predecessors with definitions dominating their edges,
/// and every other use dominated by its definition. The first failure, in that
/// order and in layout order, is reported.
pub fn validate_function(f: &Function) -> (r: Result<(), ValidationError>)
    ensures
        r == validation_result(*f),
        r is Ok <==> ir_invariants(*f),
        r matches Err(ValidationError::PhiReferencesNonPredecessor { block, predecessor })
            ==> phi_names_non_predecessor(*f, block, predecessor),
        r matches Err(e) ==> (is_phi_input_kind(e) ==> phi_input_report_true(*f, e)),
{
    proof {
        lemma_validation_accepts_invariants(*f);
        match validation_result(*f) {
            Err(e) => {
                if is_phi_input_kind(e) {
                    lemma_phi_input_reports(*f, e);
                }
            },
            _ => {},
        }
    }
    run_validation(f)
}

/// The checks of `validate_function`, in order.
fn run_validation(f: &Function) -> (r: Result<(), ValidationError>)
    ensures
        r == validation_result(*f),
{
    let n = f.blocks.len();
    if n == 0 {
        return Err(ValidationError::EmptyFunction);
    }
    if let Some(e) = first_duplicate_block(f) {
        return Err(e);
    }
    proof { lemma_first_block_index(f.blocks@, f.entry); }
    let e = match f.find_block(f.entry) {
        Some(e) => e,
        None => {
            return Err(ValidationError::MissingEntry(f.entry));
        },
    };
    if let Some(err) = first_unknown_successor(f) {
        return Err(err);
    }
    if !all_blocks_reachable(f, e) {
        return Err(ValidationError::UnreachableBlocks);
    }
    let ds = scan_definitions(f)?;
    let d = dominator_matrix(f, e);
    proof {
        lemma_dominators_are_path_dominators(*f);
        let m = mat(d@);
        assert forall|i: int, k: int| 0 <= i < n && 0 <= k < n implies #[trigger] m[i][k] == path_dominates(*f, k, i) by {
            assert(dominates_at(*f, k, i) <==> path_dominates(*f, k, i));
        }
        assert forall|i: int| 0 <= i < n implies (#[trigger] m[i]).len() == n by {
            assert(crate::cfg::square(n as int, m));
        }
    }
    let ghost rows = Seq::new(f.blocks@.len(), |i: int| block_use_error(*f, i));
    let mut i: usize = 0;
    while i < n
        invariant
            n == f.blocks@.len(),
            n > 0,
            i <= n,
            use_ctx(*f, ds@, mat(d@)),
            all_reachable(*f),
            f.has_block(f.entry),
            first_some(Seq::new(f.blocks@.len(), |j: int| dup_error(*f, j))) is None,
            first_some(Seq::new(f.blocks@.len(), |j: int| succ_error(*f, j))) is None,
            rows == Seq::new(f.blocks@.len(), |i: int| block_use_error(*f, i)),
            forall|q: int| 0 <= q < i ==> #[trigger] rows[q] is None,
        decreases n - i,
    {
        let r = check_block_uses(f, &ds, &d, i);
        if let Some(err) = r {
            proof {
                lemma_first_some_at(rows, i as int);
                assert(first_use_error(*f) == Some(err));
                assert(first_def_error(*f) is None);
                assert(all_reachable(*f));
                assert(f.has_block(f.entry));
                assert(first_some(Seq::new(f.blocks@.len(), |j: int| dup_error(*f, j))) is None);
                assert(first_some(Seq::new(f.blocks@.len(), |j: int| succ_error(*f, j))) is None);
            }
            return Err(err);
        }
        i += 1;
    }
    proof { lemma_first_some_none(rows); }
    Ok(())
}

} // verus!
