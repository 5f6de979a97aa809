//! The textual IR. A `func NAME args=N` header line, then blocks: a
//! `block bN:` line, instructions `vK = op operands`, and one terminator
//! (`ret v`, `jmp bN`, `br v bN bM`). Phi inputs (`phi bN v, bM w`) and
//! terminators may name blocks defined later: lines are read first, then phi
//! inputs, then terminators. Blank lines and lines starting with `#` are skipped.
use vstd::prelude::*;
use crate::ir::{Function, Block, Inst, Terminator, VReg, BlockId, ArgId};
use crate::smallvecs::{PhiInputs, phi_input_items};
use crate::text::{
    chars_of, significant_line_ranges, text_lines, trimmed, words, pieces_from, is_text, starts_with,
    parse_u32, parse_i64, trim_range, split_words, split_pieces, text_is, text_starts_with, same_text,
    read_u32, read_i64,
};

verus! {

/// Why a text is not a function.
#[derive(Debug, Clone, Copy, PartialEq, Eq, Structural)]
pub enum ParseError {
    /// No significant line.
    MissingHeader,
    /// The first line does not start with `func`.
    ExpectedFunc,
    MissingName,
    MissingArgs,
    /// The header's third word does not start with `args=`.
    ExpectedArgs,
    /// A number is malformed or out of range.
    InvalidInteger,
    /// A word after the last operand.
    UnexpectedToken,
    /// A value is not written `vN`.
    ExpectedValue,
    /// A block is not written `bN`.
    ExpectedBlock,
    /// A block line does not end with `:`.
    MissingColon,
    /// The block's label was used before.
    DuplicateLabel(BlockId),
    InstructionOutsideBlock,
    MultipleTerminators(BlockId),
    InstructionAfterTerminator(BlockId),
    /// An instruction line without `=`.
    ExpectedEquals,
    MissingOperation,
    MissingOperand,
    UnknownOperation,
    /// The block ends without a terminator.
    NoTerminator(BlockId),
    NoBlocks,
    /// A phi input or a jump names a label no block has.
    UnknownLabel,
    /// A phi without inputs.
    EmptyPhi,
    UnknownTerminator,
}

/// An instruction as its line gives it; a phi keeps the character range of
/// its inputs (after the word `phi`) until labels are known.
#[derive(Debug, Clone, Copy, PartialEq, Eq, Structural)]
pub enum LineInst {
    Const { dst: VReg, imm: i64 },
    Arg { dst: VReg, idx: u32 },
    Add { dst: VReg, a: VReg, b: VReg },
    Mul { dst: VReg, a: VReg, b: VReg },
    Greater { dst: VReg, a: VReg, b: VReg },
    Mov { dst: VReg, src: VReg },
    Phi { dst: VReg, from: usize, to: usize },
}

/// A block while its lines are read: its instructions, and the range of its
/// terminator line once seen.
pub struct Draft {
    pub id: BlockId,
    pub insts: Vec<LineInst>,
    pub term: Option<(usize, usize)>,
}

/// A draft as values.
pub type DraftModel = (BlockId, Seq<LineInst>, Option<(usize, usize)>);

/// The finished drafts, the current one, and the labels seen (range, id).
pub type ReadState = (Seq<DraftModel>, Option<DraftModel>, Seq<(usize, usize, BlockId)>);

pub open spec fn draft_model(d: Draft) -> DraftModel {
    (d.id, d.insts@, d.term)
}

pub open spec fn drafts_model(ds: Seq<Draft>) -> Seq<DraftModel> {
    ds.map_values(|d: Draft| draft_model(d))
}

// ---------------------------------------------------------------------------
// The grammar.

/// `[a, b)` as `vN`.
pub open spec fn value_ref(t: Seq<char>, a: int, b: int) -> Result<VReg, ParseError> {
    if a < b && t[a] == 'v' {
        match parse_u32(t, a + 1, b) {
            Some(n) => Ok(VReg(n)),
            None => Err(ParseError::InvalidInteger),
        }
    } else {
        Err(ParseError::ExpectedValue)
    }
}

/// `[a, b)` as `bN`.
pub open spec fn block_ref(t: Seq<char>, a: int, b: int) -> Result<BlockId, ParseError> {
    if a < b && t[a] == 'b' {
        match parse_u32(t, a + 1, b) {
            Some(n) => Ok(BlockId(n)),
            None => Err(ParseError::InvalidInteger),
        }
    } else {
        Err(ParseError::ExpectedBlock)
    }
}

/// The first position of `c` in `[i, e)`, or `e`.
pub open spec fn find_char(t: Seq<char>, i: int, e: int, c: char) -> int
    decreases e - i,
{
    if i >= e {
        e
    } else if t[i] == c {
        i
    } else {
        find_char(t, i + 1, e, c)
    }
}

/// The id of the first label from position `k` on with the text of `[a, b)`.
pub open spec fn label_lookup(t: Seq<char>, labels: Seq<(usize, usize, BlockId)>, a: int, b: int, k: int) -> Option<BlockId>
    decreases labels.len() - k,
{
    if k >= labels.len() || k < 0 {
        None
    } else if t.subrange(labels[k].0 as int, labels[k].1 as int) == t.subrange(a, b) {
        Some(labels[k].2)
    } else {
        label_lookup(t, labels, a, b, k + 1)
    }
}

/// The instruction on the line `[a, b)`.
pub open spec fn inst_line(t: Seq<char>, a: int, b: int) -> Result<LineInst, ParseError> {
    let eq = find_char(t, a, b, '=');
    if eq >= b {
        Err(ParseError::ExpectedEquals)
    } else {
        let lhs = trimmed(t, a, eq);
        match value_ref(t, lhs.0, lhs.1) {
            Err(e) => Err(e),
            Ok(dst) => {
                let rhs = trimmed(t, eq + 1, b);
                let ws = words(t, rhs.0, rhs.1);
                if ws.len() == 0 {
                    Err(ParseError::MissingOperation)
                } else if is_text(t, ws[0].0, ws[0].1, "const"@) {
                    if ws.len() < 2 {
                        Err(ParseError::MissingOperand)
                    } else {
                        match parse_i64(t, ws[1].0, ws[1].1) {
                            None => Err(ParseError::InvalidInteger),
                            Some(imm) => if ws.len() > 2 {
                                Err(ParseError::UnexpectedToken)
                            } else {
                                Ok(LineInst::Const { dst, imm })
                            },
                        }
                    }
                } else if is_text(t, ws[0].0, ws[0].1, "arg"@) {
                    if ws.len() < 2 {
                        Err(ParseError::MissingOperand)
                    } else {
                        match parse_u32(t, ws[1].0, ws[1].1) {
                            None => Err(ParseError::InvalidInteger),
                            Some(idx) => if ws.len() > 2 {
                                Err(ParseError::UnexpectedToken)
                            } else {
                                Ok(LineInst::Arg { dst, idx })
                            },
                        }
                    }
                } else if is_text(t, ws[0].0, ws[0].1, "add"@) || is_text(t, ws[0].0, ws[0].1, "mul"@)
                    || is_text(t, ws[0].0, ws[0].1, "cmpgt"@) {
                    if ws.len() < 2 {
                        Err(ParseError::MissingOperand)
                    } else {
                        match value_ref(t, ws[1].0, ws[1].1) {
                            Err(e) => Err(e),
                            Ok(x) => if ws.len() < 3 {
                                Err(ParseError::MissingOperand)
                            } else {
                                match value_ref(t, ws[2].0, ws[2].1) {
                                    Err(e) => Err(e),
                                    Ok(y) => if ws.len() > 3 {
                                        Err(ParseError::UnexpectedToken)
                                    } else if is_text(t, ws[0].0, ws[0].1, "add"@) {
                                        Ok(LineInst::Add { dst, a: x, b: y })
                                    } else if is_text(t, ws[0].0, ws[0].1, "mul"@) {
                                        Ok(LineInst::Mul { dst, a: x, b: y })
                                    } else {
                                        Ok(LineInst::Greater { dst, a: x, b: y })
                                    },
                                }
                            },
                        }
                    }
                } else if is_text(t, ws[0].0, ws[0].1, "mov"@) {
                    if ws.len() < 2 {
                        Err(ParseError::MissingOperand)
                    } else {
                        match value_ref(t, ws[1].0, ws[1].1) {
                            Err(e) => Err(e),
                            Ok(src) => if ws.len() > 2 {
                                Err(ParseError::UnexpectedToken)
                            } else {
                                Ok(LineInst::Mov { dst, src })
                            },
                        }
                    }
                } else if is_text(t, ws[0].0, ws[0].1, "phi"@) {
                    Ok(LineInst::Phi { dst, from: ws[0].1 as usize, to: rhs.1 as usize })
                } else {
                    Err(ParseError::UnknownOperation)
                }
            },
        }
    }
}

/// The drafts once the current one is finished: it needs its terminator.
pub open spec fn finish_draft(done: Seq<DraftModel>, cur: Option<DraftModel>) -> Result<Seq<DraftModel>, ParseError> {
    match cur {
        None => Ok(done),
        Some(c) => if c.2 is None { Err(ParseError::NoTerminator(c.0)) } else { Ok(done.push(c)) },
    }
}

/// Reading the line `[a, b)`.
pub open spec fn read_line(t: Seq<char>, st: ReadState, a: int, b: int) -> Result<ReadState, ParseError> {
    let (done, cur, labels) = st;
    if starts_with(t, a, b, "block "@) {
        match finish_draft(done, cur) {
            Err(e) => Err(e),
            Ok(done2) => {
                let l = trimmed(t, a + 6, b);
                if !(l.0 < l.1 && t[l.1 - 1] == ':') {
                    Err(ParseError::MissingColon)
                } else {
                    match block_ref(t, l.0, l.1 - 1) {
                        Err(e) => Err(e),
                        Ok(id) => if label_lookup(t, labels, l.0, l.1 - 1, 0) is Some {
                            Err(ParseError::DuplicateLabel(id))
                        } else {
                            Ok((done2, Some((id, seq![], None)), labels.push((l.0 as usize, (l.1 - 1) as usize, id))))
                        },
                    }
                }
            },
        }
    } else {
        match cur {
            None => Err(ParseError::InstructionOutsideBlock),
            Some(c) => if starts_with(t, a, b, "ret "@) || starts_with(t, a, b, "jmp "@) || starts_with(t, a, b, "br "@) {
                if c.2 is Some {
                    Err(ParseError::MultipleTerminators(c.0))
                } else {
                    Ok((done, Some((c.0, c.1, Some((a as usize, b as usize)))), labels))
                }
            } else if c.2 is Some {
                Err(ParseError::InstructionAfterTerminator(c.0))
            } else {
                match inst_line(t, a, b) {
                    Err(e) => Err(e),
                    Ok(li) => Ok((done, Some((c.0, c.1.push(li), None)), labels)),
                }
            },
        }
    }
}

/// Reading the first `n` of the lines `ls`.
pub open spec fn read_lines(t: Seq<char>, ls: Seq<(int, int)>, n: int) -> Result<ReadState, ParseError>
    decreases n,
{
    if n <= 0 {
        Ok((seq![], None, seq![]))
    } else {
        match read_lines(t, ls, n - 1) {
            Err(e) => Err(e),
            Ok(st) => read_line(t, st, ls[n - 1].0, ls[n - 1].1),
        }
    }
}

/// The header `[a, b)`: the name's range and the argument count.
pub open spec fn header(t: Seq<char>, a: int, b: int) -> Result<((int, int), u32), ParseError> {
    let ws = words(t, a, b);
    if !(ws.len() > 0 && is_text(t, ws[0].0, ws[0].1, "func"@)) {
        Err(ParseError::ExpectedFunc)
    } else if ws.len() < 2 {
        Err(ParseError::MissingName)
    } else if ws.len() < 3 {
        Err(ParseError::MissingArgs)
    } else if !starts_with(t, ws[2].0, ws[2].1, "args="@) {
        Err(ParseError::ExpectedArgs)
    } else {
        match parse_u32(t, ws[2].0 + 5, ws[2].1) {
            None => Err(ParseError::InvalidInteger),
            Some(n) => if ws.len() > 3 { Err(ParseError::UnexpectedToken) } else { Ok((ws[1], n)) },
        }
    }
}

/// The inputs read from the first `n` pieces (`pred value`, comma separated)
/// of a phi; pieces without words are skipped.
pub open spec fn phi_inputs_from(t: Seq<char>, labels: Seq<(usize, usize, BlockId)>, ps: Seq<(int, int)>, n: int) -> Result<Seq<(BlockId, VReg)>, ParseError>
    decreases n,
{
    if n <= 0 {
        Ok(seq![])
    } else {
        match phi_inputs_from(t, labels, ps, n - 1) {
            Err(e) => Err(e),
            Ok(acc) => {
                let ws = words(t, ps[n - 1].0, ps[n - 1].1);
                if ws.len() == 0 {
                    Ok(acc)
                } else if ws.len() < 2 {
                    Err(ParseError::MissingOperand)
                } else if ws.len() > 2 {
                    Err(ParseError::UnexpectedToken)
                } else {
                    match label_lookup(t, labels, ws[0].0, ws[0].1, 0) {
                        None => Err(ParseError::UnknownLabel),
                        Some(p) => match value_ref(t, ws[1].0, ws[1].1) {
                            Err(e) => Err(e),
                            Ok(v) => Ok(acc.push((p, v))),
                        },
                    }
                }
            },
        }
    }
}

/// The inputs of a phi, written in `[from, to)` after the word `phi`.
pub open spec fn phi_inputs(t: Seq<char>, labels: Seq<(usize, usize, BlockId)>, from: int, to: int) -> Result<Seq<(BlockId, VReg)>, ParseError> {
    let ps = pieces_from(t, from, to, from, ',');
    match phi_inputs_from(t, labels, ps, ps.len() as int) {
        Err(e) => Err(e),
        Ok(ins) => if ins.len() == 0 { Err(ParseError::EmptyPhi) } else { Ok(ins) },
    }
}

/// The inputs of the first `n` instructions (nothing for those that are not phis).
pub open spec fn insts_inputs(t: Seq<char>, labels: Seq<(usize, usize, BlockId)>, lis: Seq<LineInst>, n: int) -> Result<Seq<Seq<(BlockId, VReg)>>, ParseError>
    decreases n,
{
    if n <= 0 {
        Ok(seq![])
    } else {
        match insts_inputs(t, labels, lis, n - 1) {
            Err(e) => Err(e),
            Ok(acc) => match lis[n - 1] {
                LineInst::Phi { from, to, .. } => match phi_inputs(t, labels, from as int, to as int) {
                    Err(e) => Err(e),
                    Ok(ins) => Ok(acc.push(ins)),
                },
                _ => Ok(acc.push(seq![])),
            },
        }
    }
}

/// The phi inputs of the first `n` drafts.
pub open spec fn drafts_inputs(t: Seq<char>, labels: Seq<(usize, usize, BlockId)>, ds: Seq<DraftModel>, n: int) -> Result<Seq<Seq<Seq<(BlockId, VReg)>>>, ParseError>
    decreases n,
{
    if n <= 0 {
        Ok(seq![])
    } else {
        match drafts_inputs(t, labels, ds, n - 1) {
            Err(e) => Err(e),
            Ok(acc) => match insts_inputs(t, labels, ds[n - 1].1, ds[n - 1].1.len() as int) {
                Err(e) => Err(e),
                Ok(ins) => Ok(acc.push(ins)),
            },
        }
    }
}

/// The terminator on the line `[a, b)`.
pub open spec fn term_line(t: Seq<char>, labels: Seq<(usize, usize, BlockId)>, a: int, b: int) -> Result<Terminator, ParseError> {
    let ws = words(t, a, b);
    if ws.len() > 0 && is_text(t, ws[0].0, ws[0].1, "ret"@) {
        if ws.len() < 2 {
            Err(ParseError::MissingOperand)
        } else {
            match value_ref(t, ws[1].0, ws[1].1) {
                Err(e) => Err(e),
                Ok(value) => if ws.len() > 2 { Err(ParseError::UnexpectedToken) } else { Ok(Terminator::Ret { value }) },
            }
        }
    } else if ws.len() > 0 && is_text(t, ws[0].0, ws[0].1, "jmp"@) {
        if ws.len() < 2 {
            Err(ParseError::MissingOperand)
        } else if ws.len() > 2 {
            Err(ParseError::UnexpectedToken)
        } else {
            match label_lookup(t, labels, ws[1].0, ws[1].1, 0) {
                None => Err(ParseError::UnknownLabel),
                Some(target) => Ok(Terminator::Jmp { target }),
            }
        }
    } else if ws.len() > 0 && is_text(t, ws[0].0, ws[0].1, "br"@) {
        if ws.len() < 2 {
            Err(ParseError::MissingOperand)
        } else {
            match value_ref(t, ws[1].0, ws[1].1) {
                Err(e) => Err(e),
                Ok(cond) => if ws.len() < 4 {
                    Err(ParseError::MissingOperand)
                } else if ws.len() > 4 {
                    Err(ParseError::UnexpectedToken)
                } else {
                    match label_lookup(t, labels, ws[2].0, ws[2].1, 0) {
                        None => Err(ParseError::UnknownLabel),
                        Some(then_bb) => match label_lookup(t, labels, ws[3].0, ws[3].1, 0) {
                            None => Err(ParseError::UnknownLabel),
                            Some(else_bb) => Ok(Terminator::Br { cond, then_bb, else_bb }),
                        },
                    }
                },
            }
        }
    } else {
        Err(ParseError::UnknownTerminator)
    }
}

/// The terminators of the first `n` drafts.
pub open spec fn drafts_terms(t: Seq<char>, labels: Seq<(usize, usize, BlockId)>, ds: Seq<DraftModel>, n: int) -> Result<Seq<Terminator>, ParseError>
    decreases n,
{
    if n <= 0 {
        Ok(seq![])
    } else {
        match drafts_terms(t, labels, ds, n - 1) {
            Err(e) => Err(e),
            Ok(acc) => match term_line(t, labels, ds[n - 1].2->Some_0.0 as int, ds[n - 1].2->Some_0.1 as int) {
                Err(e) => Err(e),
                Ok(term) => Ok(acc.push(term)),
            },
        }
    }
}

/// The drafts and labels the lines `ls` give, every block finished; at least one block.
pub open spec fn drafted(t: Seq<char>, ls: Seq<(int, int)>) -> Result<(Seq<DraftModel>, Seq<(usize, usize, BlockId)>), ParseError> {
    match read_lines(t, ls, ls.len() as int) {
        Err(e) => Err(e),
        Ok(st) => match finish_draft(st.0, st.1) {
            Err(e) => Err(e),
            Ok(ds) => if ds.len() == 0 { Err(ParseError::NoBlocks) } else { Ok((ds, st.2)) },
        },
    }
}

/// What a parse gives: the name's range, the argument count, the drafts, the
/// inputs of their phis and their terminators; or the first error.
pub open spec fn parse_outcome(t: Seq<char>) -> Result<((int, int), u32, Seq<DraftModel>, Seq<Seq<Seq<(BlockId, VReg)>>>, Seq<Terminator>), ParseError> {
    let ls = text_lines(t);
    if ls.len() == 0 {
        Err(ParseError::MissingHeader)
    } else {
        match header(t, ls[0].0, ls[0].1) {
            Err(e) => Err(e),
            Ok(h) => match drafted(t, ls.drop_first()) {
                Err(e) => Err(e),
                Ok(dl) => match drafts_inputs(t, dl.1, dl.0, dl.0.len() as int) {
                    Err(e) => Err(e),
                    Ok(ins) => match drafts_terms(t, dl.1, dl.0, dl.0.len() as int) {
                        Err(e) => Err(e),
                        Ok(terms) => Ok((h.0, h.1, dl.0, ins, terms)),
                    },
                },
            },
        }
    }
}

/// The instruction a line instruction becomes, with the phi's inputs.
pub open spec fn inst_is(inst: Inst, li: LineInst, inputs: Seq<(BlockId, VReg)>) -> bool {
    match li {
        LineInst::Const { dst, imm } => inst == Inst::ConstI64 { dst, imm },
        LineInst::Arg { dst, idx } => inst == Inst::ArgI64 { dst, idx: ArgId(idx) },
        LineInst::Add { dst, a, b } => inst == Inst::AddI64 { dst, a, b },
        LineInst::Mul { dst, a, b } => inst == Inst::MulI64 { dst, a, b },
        LineInst::Greater { dst, a, b } => inst == Inst::CmpGtI64 { dst, a, b },
        LineInst::Mov { dst, src } => inst == Inst::MovI64 { dst, src },
        LineInst::Phi { dst, .. } => inst matches Inst::PhiI64 { dst: d, incoming } && d == dst
            && phi_input_items(incoming) == inputs,
    }
}

/// The function a parse outcome describes.
pub open spec fn function_is(f: Function, t: Seq<char>, m: ((int, int), u32, Seq<DraftModel>, Seq<Seq<Seq<(BlockId, VReg)>>>, Seq<Terminator>)) -> bool {
    let (name, args, ds, ins, terms) = m;
    &&& f.name@ == t.subrange(name.0, name.1)
    &&& f.args == args
    &&& f.blocks@.len() == ds.len()
    &&& f.entry == ds[0].0
    &&& forall|i: int| 0 <= i < ds.len() ==> {
        let b = #[trigger] f.blocks@[i];
        &&& b.id == ds[i].0
        &&& b.term == terms[i]
        &&& b.insts@.len() == ds[i].1.len()
        &&& forall|x: int| 0 <= x < ds[i].1.len() ==> inst_is(#[trigger] b.insts@[x], ds[i].1[x], ins[i][x])
    }
}

// ---------------------------------------------------------------------------
// Ranges stay within the text.

/// Every range a draft keeps lies within the text.
pub open spec fn draft_in_text(n: int, d: DraftModel) -> bool {
    &&& forall|x: int| 0 <= x < d.1.len() ==> (#[trigger] d.1[x] matches LineInst::Phi { from, to, .. } ==> from <= to <= n)
    &&& d.2 matches Some(r) ==> r.0 <= r.1 <= n
}

/// Every range of the read state lies within the text.
pub open spec fn state_in_text(n: int, st: ReadState) -> bool {
    &&& forall|k: int| 0 <= k < st.0.len() ==> draft_in_text(n, #[trigger] st.0[k]) && st.0[k].2 is Some
    &&& st.1 matches Some(c) ==> draft_in_text(n, c)
    &&& forall|k: int| 0 <= k < st.2.len() ==> (#[trigger] st.2[k]).0 <= st.2[k].1 <= n
}

pub open spec fn opt_draft_model(d: Option<Draft>) -> Option<DraftModel> {
    match d {
        Some(d) => Some(draft_model(d)),
        None => None,
    }
}

// ---------------------------------------------------------------------------
// Errors stay.

proof fn lemma_read_lines_err(t: Seq<char>, ls: Seq<(int, int)>, k: int, m: int)
    requires
        0 <= k <= m,
        read_lines(t, ls, k) is Err,
    ensures
        read_lines(t, ls, m) == read_lines(t, ls, k),
    decreases m - k,
{
    if m > k {
        lemma_read_lines_err(t, ls, k, m - 1);
    }
}

proof fn lemma_phi_inputs_err(t: Seq<char>, labels: Seq<(usize, usize, BlockId)>, ps: Seq<(int, int)>, k: int, m: int)
    requires
        0 <= k <= m,
        phi_inputs_from(t, labels, ps, k) is Err,
    ensures
        phi_inputs_from(t, labels, ps, m) == phi_inputs_from(t, labels, ps, k),
    decreases m - k,
{
    if m > k {
        lemma_phi_inputs_err(t, labels, ps, k, m - 1);
    }
}

proof fn lemma_insts_inputs_err(t: Seq<char>, labels: Seq<(usize, usize, BlockId)>, lis: Seq<LineInst>, k: int, m: int)
    requires
        0 <= k <= m,
        insts_inputs(t, labels, lis, k) is Err,
    ensures
        insts_inputs(t, labels, lis, m) == insts_inputs(t, labels, lis, k),
    decreases m - k,
{
    if m > k {
        lemma_insts_inputs_err(t, labels, lis, k, m - 1);
    }
}

proof fn lemma_drafts_inputs_err(t: Seq<char>, labels: Seq<(usize, usize, BlockId)>, ds: Seq<DraftModel>, k: int, m: int)
    requires
        0 <= k <= m,
        drafts_inputs(t, labels, ds, k) is Err,
    ensures
        drafts_inputs(t, labels, ds, m) == drafts_inputs(t, labels, ds, k),
    decreases m - k,
{
    if m > k {
        lemma_drafts_inputs_err(t, labels, ds, k, m - 1);
    }
}

proof fn lemma_drafts_terms_err(t: Seq<char>, labels: Seq<(usize, usize, BlockId)>, ds: Seq<DraftModel>, k: int, m: int)
    requires
        0 <= k <= m,
        drafts_terms(t, labels, ds, k) is Err,
    ensures
        drafts_terms(t, labels, ds, m) == drafts_terms(t, labels, ds, k),
    decreases m - k,
{
    if m > k {
        lemma_drafts_terms_err(t, labels, ds, k, m - 1);
    }
}

// ---------------------------------------------------------------------------
// Executed.

fn value_ref_of(t: &Vec<char>, a: usize, b: usize) -> (r: Result<VReg, ParseError>)
    requires
        a <= b <= t@.len(),
    ensures
        r == value_ref(t@, a as int, b as int),
{
    if a < b && t[a] == 'v' {
        match read_u32(t, a + 1, b) {
            Some(n) => Ok(VReg(n)),
            None => Err(ParseError::InvalidInteger),
        }
    } else {
        Err(ParseError::ExpectedValue)
    }
}

fn block_ref_of(t: &Vec<char>, a: usize, b: usize) -> (r: Result<BlockId, ParseError>)
    requires
        a <= b <= t@.len(),
    ensures
        r == block_ref(t@, a as int, b as int),
{
    if a < b && t[a] == 'b' {
        match read_u32(t, a + 1, b) {
            Some(n) => Ok(BlockId(n)),
            None => Err(ParseError::InvalidInteger),
        }
    } else {
        Err(ParseError::ExpectedBlock)
    }
}

fn find_char_in(t: &Vec<char>, i: usize, e: usize, c: char) -> (r: usize)
    requires
        i <= e <= t@.len(),
    ensures
        r == find_char(t@, i as int, e as int, c),
        i <= r <= e,
{
    let mut j = i;
    while j < e && t[j] != c
        invariant
            i <= j <= e <= t@.len(),
            find_char(t@, i as int, e as int, c) == find_char(t@, j as int, e as int, c),
        decreases e - j,
    {
        j += 1;
    }
    j
}

fn lookup_label(t: &Vec<char>, labels: &Vec<(usize, usize, BlockId)>, a: usize, b: usize) -> (r: Option<BlockId>)
    requires
        a <= b <= t@.len(),
        forall|k: int| 0 <= k < labels@.len() ==> (#[trigger] labels@[k]).0 <= labels@[k].1 <= t@.len(),
    ensures
        r == label_lookup(t@, labels@, a as int, b as int, 0),
{
    let mut k: usize = 0;
    while k < labels.len()
        invariant
            k <= labels@.len(),
            a <= b <= t@.len(),
            forall|q: int| 0 <= q < labels@.len() ==> (#[trigger] labels@[q]).0 <= labels@[q].1 <= t@.len(),
            label_lookup(t@, labels@, a as int, b as int, 0) == label_lookup(t@, labels@, a as int, b as int, k as int),
        decreases labels.len() - k,
    {
        let (la, lb, id) = labels[k];
        if same_text(t, la, lb, a, b) {
            return Some(id);
        }
        k += 1;
    }
    None
}

/// The words of `[i, e)` as the spec's ranges.
proof fn lemma_words_view(t: Seq<char>, i: int, e: int, ws: Seq<(usize, usize)>)
    requires
        ws.len() == words(t, i, e).len(),
        forall|k: int| 0 <= k < ws.len() ==> (#[trigger] ws[k]).0 as int == words(t, i, e)[k].0
            && ws[k].1 as int == words(t, i, e)[k].1,
    ensures
        forall|k: int| 0 <= k < ws.len() ==> words(t, i, e)[k] == (#[trigger] ws[k].0 as int, ws[k].1 as int),
{
}

fn word_is(t: &Vec<char>, ws: &Vec<(usize, usize)>, k: usize, lit: &str) -> (r: bool)
    requires
        k < ws@.len(),
        ws@[k as int].0 <= ws@[k as int].1 <= t@.len(),
    ensures
        r == is_text(t@, ws@[k as int].0 as int, ws@[k as int].1 as int, lit@),
{
    text_is(t, ws[k].0, ws[k].1, lit)
}

/// The instruction on the line `[a, b)`.
#[verifier::rlimit(60)]
fn read_inst(t: &Vec<char>, a: usize, b: usize) -> (r: Result<LineInst, ParseError>)
    requires
        a <= b <= t@.len(),
    ensures
        r == inst_line(t@, a as int, b as int),
        r matches Ok(LineInst::Phi { from, to, .. }) ==> from <= to <= t@.len(),
{
    let eq = find_char_in(t, a, b, '=');
    if eq >= b {
        return Err(ParseError::ExpectedEquals);
    }
    let (la, lb) = trim_range(t, a, eq);
    let dst = value_ref_of(t, la, lb)?;
    let (ra, rb) = trim_range(t, eq + 1, b);
    let ws = split_words(t, ra, rb);
    proof { lemma_words_view(t@, ra as int, rb as int, ws@); }
    if ws.len() == 0 {
        return Err(ParseError::MissingOperation);
    }
    if word_is(t, &ws, 0, "const") {
        if ws.len() < 2 {
            return Err(ParseError::MissingOperand);
        }
        let imm = match read_i64(t, ws[1].0, ws[1].1) {
            Some(v) => v,
            None => {
                return Err(ParseError::InvalidInteger);
            },
        };
        if ws.len() > 2 {
            return Err(ParseError::UnexpectedToken);
        }
        return Ok(LineInst::Const { dst, imm });
    }
    if word_is(t, &ws, 0, "arg") {
        if ws.len() < 2 {
            return Err(ParseError::MissingOperand);
        }
        let idx = match read_u32(t, ws[1].0, ws[1].1) {
            Some(v) => v,
            None => {
                return Err(ParseError::InvalidInteger);
            },
        };
        if ws.len() > 2 {
            return Err(ParseError::UnexpectedToken);
        }
        return Ok(LineInst::Arg { dst, idx });
    }
    let is_add = word_is(t, &ws, 0, "add");
    let is_mul = word_is(t, &ws, 0, "mul");
    let is_greater = word_is(t, &ws, 0, "cmpgt");
    if is_add || is_mul || is_greater {
        if ws.len() < 2 {
            return Err(ParseError::MissingOperand);
        }
        let x = value_ref_of(t, ws[1].0, ws[1].1)?;
        if ws.len() < 3 {
            return Err(ParseError::MissingOperand);
        }
        let y = value_ref_of(t, ws[2].0, ws[2].1)?;
        if ws.len() > 3 {
            return Err(ParseError::UnexpectedToken);
        }
        if is_add {
            return Ok(LineInst::Add { dst, a: x, b: y });
        } else if is_mul {
            return Ok(LineInst::Mul { dst, a: x, b: y });
        } else {
            return Ok(LineInst::Greater { dst, a: x, b: y });
        }
    }
    if word_is(t, &ws, 0, "mov") {
        if ws.len() < 2 {
            return Err(ParseError::MissingOperand);
        }
        let src = value_ref_of(t, ws[1].0, ws[1].1)?;
        if ws.len() > 2 {
            return Err(ParseError::UnexpectedToken);
        }
        return Ok(LineInst::Mov { dst, src });
    }
    if word_is(t, &ws, 0, "phi") {
        return Ok(LineInst::Phi { dst, from: ws[0].1, to: rb });
    }
    Err(ParseError::UnknownOperation)
}

/// Reads one line into the state.
#[verifier::rlimit(60)]
fn read_one_line(t: &Vec<char>, done: &mut Vec<Draft>, cur: &mut Option<Draft>, labels: &mut Vec<(usize, usize, BlockId)>, a: usize, b: usize) -> (r: Result<(), ParseError>)
    requires
        a <= b <= t@.len(),
        state_in_text(t@.len() as int, (drafts_model(old(done)@), opt_draft_model(*old(cur)), old(labels)@)),
    ensures
        match r {
            Ok(()) => read_line(t@, (drafts_model(old(done)@), opt_draft_model(*old(cur)), old(labels)@), a as int, b as int)
                == Ok::<ReadState, ParseError>((drafts_model(final(done)@), opt_draft_model(*final(cur)), final(labels)@))
                && state_in_text(t@.len() as int, (drafts_model(final(done)@), opt_draft_model(*final(cur)), final(labels)@)),
            Err(e) => read_line(t@, (drafts_model(old(done)@), opt_draft_model(*old(cur)), old(labels)@), a as int, b as int)
                == Err::<ReadState, ParseError>(e),
        },
{
    let ghost n = t@.len() as int;
    proof { reveal_strlit("block "); }
    if text_starts_with(t, a, b, "block ") {
        let ghost done0 = drafts_model(done@);
        match cur.take() {
            Some(c) => {
                if c.term.is_none() {
                    return Err(ParseError::NoTerminator(c.id));
                }
                done.push(c);
                assert(drafts_model(done@) =~= done0.push(draft_model(c)));
            },
            None => {},
        }
        let ghost done2 = drafts_model(done@);
        let (la, lb) = trim_range(t, a + 6, b);
        if !(la < lb && t[lb - 1] == ':') {
            return Err(ParseError::MissingColon);
        }
        let id = block_ref_of(t, la, lb - 1)?;
        if lookup_label(t, labels, la, lb - 1).is_some() {
            return Err(ParseError::DuplicateLabel(id));
        }
        labels.push((la, lb - 1, id));
        *cur = Some(Draft { id, insts: Vec::new(), term: None });
        assert(opt_draft_model(*cur) == Some::<DraftModel>((id, Seq::<LineInst>::empty(), None)));
        return Ok(());
    }
    let c = match cur.take() {
        Some(c) => c,
        None => {
            return Err(ParseError::InstructionOutsideBlock);
        },
    };
    if text_starts_with(t, a, b, "ret ") || text_starts_with(t, a, b, "jmp ") || text_starts_with(t, a, b, "br ") {
        if c.term.is_some() {
            return Err(ParseError::MultipleTerminators(c.id));
        }
        *cur = Some(Draft { id: c.id, insts: c.insts, term: Some((a, b)) });
        return Ok(());
    }
    if c.term.is_some() {
        return Err(ParseError::InstructionAfterTerminator(c.id));
    }
    let li = read_inst(t, a, b)?;
    let mut insts = c.insts;
    let ghost before = insts@;
    insts.push(li);
    *cur = Some(Draft { id: c.id, insts, term: None });
    proof {
        let d = draft_model(cur->Some_0);
        assert(d.1 == before.push(li));
        assert forall|x: int| 0 <= x < d.1.len() implies (#[trigger] d.1[x] matches LineInst::Phi { from, to, .. } ==> from <= to <= n) by {
            if x < before.len() {
                assert(d.1[x] == before[x]);
            }
        }
    }
    Ok(())
}

/// The header line `[a, b)`.
fn read_header(t: &Vec<char>, a: usize, b: usize) -> (r: Result<((usize, usize), u32), ParseError>)
    requires
        a <= b <= t@.len(),
    ensures
        match r {
            Ok(h) => header(t@, a as int, b as int) == Ok::<((int, int), u32), ParseError>(((h.0.0 as int, h.0.1 as int), h.1))
                && h.0.0 <= h.0.1 <= t@.len(),
            Err(e) => header(t@, a as int, b as int) == Err::<((int, int), u32), ParseError>(e),
        },
{
    proof { reveal_strlit("args="); }
    let ws = split_words(t, a, b);
    proof { lemma_words_view(t@, a as int, b as int, ws@); }
    if !(ws.len() > 0 && word_is(t, &ws, 0, "func")) {
        return Err(ParseError::ExpectedFunc);
    }
    if ws.len() < 2 {
        return Err(ParseError::MissingName);
    }
    if ws.len() < 3 {
        return Err(ParseError::MissingArgs);
    }
    if !text_starts_with(t, ws[2].0, ws[2].1, "args=") {
        return Err(ParseError::ExpectedArgs);
    }
    let n = match read_u32(t, ws[2].0 + 5, ws[2].1) {
        Some(n) => n,
        None => {
            return Err(ParseError::InvalidInteger);
        },
    };
    if ws.len() > 3 {
        return Err(ParseError::UnexpectedToken);
    }
    Ok((ws[1], n))
}

/// The inputs of a phi written in `[from, to)`.
#[verifier::rlimit(40)]
fn read_phi_inputs(t: &Vec<char>, labels: &Vec<(usize, usize, BlockId)>, from: usize, to: usize) -> (r: Result<Vec<(BlockId, VReg)>, ParseError>)
    requires
        from <= to <= t@.len(),
        forall|k: int| 0 <= k < labels@.len() ==> (#[trigger] labels@[k]).0 <= labels@[k].1 <= t@.len(),
    ensures
        match r {
            Ok(v) => phi_inputs(t@, labels@, from as int, to as int) == Ok::<Seq<(BlockId, VReg)>, ParseError>(v@),
            Err(e) => phi_inputs(t@, labels@, from as int, to as int) == Err::<Seq<(BlockId, VReg)>, ParseError>(e),
        },
{
    let ps = split_pieces(t, from, to, ',');
    let ghost psm = pieces_from(t@, from as int, to as int, from as int, ',');
    assert forall|k: int| 0 <= k < ps@.len() implies psm[k] == (#[trigger] ps@[k].0 as int, ps@[k].1 as int) by {}
    let mut out: Vec<(BlockId, VReg)> = Vec::new();
    let mut k: usize = 0;
    while k < ps.len()
        invariant
            k <= ps@.len(),
            ps@.len() == psm.len(),
            psm == pieces_from(t@, from as int, to as int, from as int, ','),
            forall|q: int| 0 <= q < ps@.len() ==> psm[q] == (#[trigger] ps@[q].0 as int, ps@[q].1 as int),
            forall|q: int| 0 <= q < ps@.len() ==> from <= (#[trigger] ps@[q]).0 <= ps@[q].1 <= to,
            to <= t@.len(),
            forall|q: int| 0 <= q < labels@.len() ==> (#[trigger] labels@[q]).0 <= labels@[q].1 <= t@.len(),
            phi_inputs_from(t@, labels@, psm, k as int) == Ok::<Seq<(BlockId, VReg)>, ParseError>(out@),
        decreases ps.len() - k,
    {
        let (pa, pb) = ps[k];
        let ws = split_words(t, pa, pb);
        proof { lemma_words_view(t@, pa as int, pb as int, ws@); }
        if ws.len() > 0 {
            let mut failure: Option<ParseError> = None;
            if ws.len() < 2 {
                failure = Some(ParseError::MissingOperand);
            } else if ws.len() > 2 {
                failure = Some(ParseError::UnexpectedToken);
            } else {
                match lookup_label(t, labels, ws[0].0, ws[0].1) {
                    None => {
                        failure = Some(ParseError::UnknownLabel);
                    },
                    Some(p) => match value_ref_of(t, ws[1].0, ws[1].1) {
                        Err(e) => {
                            failure = Some(e);
                        },
                        Ok(v) => {
                            out.push((p, v));
                        },
                    },
                }
            }
            if let Some(e) = failure {
                proof { lemma_phi_inputs_err(t@, labels@, psm, k + 1, psm.len() as int); }
                return Err(e);
            }
        }
        k += 1;
    }
    assert(psm.len() == ps@.len());
    if out.len() == 0 {
        return Err(ParseError::EmptyPhi);
    }
    Ok(out)
}

/// The instruction of the IR a line instruction becomes.
fn resolve_inst(t: &Vec<char>, labels: &Vec<(usize, usize, BlockId)>, li: LineInst) -> (r: Result<Inst, ParseError>)
    requires
        li matches LineInst::Phi { from, to, .. } ==> from <= to <= t@.len(),
        forall|k: int| 0 <= k < labels@.len() ==> (#[trigger] labels@[k]).0 <= labels@[k].1 <= t@.len(),
    ensures
        match li {
            LineInst::Phi { from, to, .. } => match r {
                Ok(inst) => phi_inputs(t@, labels@, from as int, to as int) matches Ok(ins) && inst_is(inst, li, ins),
                Err(e) => phi_inputs(t@, labels@, from as int, to as int) == Err::<Seq<(BlockId, VReg)>, ParseError>(e),
            },
            _ => r matches Ok(inst) && inst_is(inst, li, seq![]),
        },
{
    match li {
        LineInst::Const { dst, imm } => Ok(Inst::ConstI64 { dst, imm }),
        LineInst::Arg { dst, idx } => Ok(Inst::ArgI64 { dst, idx: ArgId(idx) }),
        LineInst::Add { dst, a, b } => Ok(Inst::AddI64 { dst, a, b }),
        LineInst::Mul { dst, a, b } => Ok(Inst::MulI64 { dst, a, b }),
        LineInst::Greater { dst, a, b } => Ok(Inst::CmpGtI64 { dst, a, b }),
        LineInst::Mov { dst, src } => Ok(Inst::MovI64 { dst, src }),
        LineInst::Phi { dst, from, to } => {
            let ins = read_phi_inputs(t, labels, from, to)?;
            Ok(Inst::PhiI64 { dst, incoming: PhiInputs::from_vec(ins) })
        },
    }
}

/// The instructions of a draft with their phi inputs read.
fn resolve_insts(t: &Vec<char>, labels: &Vec<(usize, usize, BlockId)>, lis: &Vec<LineInst>) -> (r: Result<Vec<Inst>, ParseError>)
    requires
        forall|x: int| 0 <= x < lis@.len() ==> (#[trigger] lis@[x] matches LineInst::Phi { from, to, .. } ==> from <= to <= t@.len()),
        forall|k: int| 0 <= k < labels@.len() ==> (#[trigger] labels@[k]).0 <= labels@[k].1 <= t@.len(),
    ensures
        match r {
            Ok(v) => insts_inputs(t@, labels@, lis@, lis@.len() as int) matches Ok(ins)
                && v@.len() == lis@.len()
                && forall|x: int| 0 <= x < lis@.len() ==> inst_is(#[trigger] v@[x], lis@[x], ins[x]),
            Err(e) => insts_inputs(t@, labels@, lis@, lis@.len() as int) == Err::<Seq<Seq<(BlockId, VReg)>>, ParseError>(e),
        },
{
    let ghost mut acc: Seq<Seq<(BlockId, VReg)>> = seq![];
    let mut out: Vec<Inst> = Vec::new();
    let mut x: usize = 0;
    while x < lis.len()
        invariant
            x <= lis@.len(),
            forall|q: int| 0 <= q < lis@.len() ==> (#[trigger] lis@[q] matches LineInst::Phi { from, to, .. } ==> from <= to <= t@.len()),
            forall|k: int| 0 <= k < labels@.len() ==> (#[trigger] labels@[k]).0 <= labels@[k].1 <= t@.len(),
            insts_inputs(t@, labels@, lis@, x as int) == Ok::<Seq<Seq<(BlockId, VReg)>>, ParseError>(acc),
            acc.len() == x,
            out@.len() == x,
            forall|q: int| 0 <= q < x ==> inst_is(#[trigger] out@[q], lis@[q], acc[q]),
        decreases lis.len() - x,
    {
        let li = lis[x];
        match resolve_inst(t, labels, li) {
            Ok(inst) => {
                proof {
                    let ins = match li {
                        LineInst::Phi { from, to, .. } => phi_inputs(t@, labels@, from as int, to as int)->Ok_0,
                        _ => Seq::<(BlockId, VReg)>::empty(),
                    };
                    acc = acc.push(ins);
                }
                out.push(inst);
            },
            Err(e) => {
                proof { lemma_insts_inputs_err(t@, labels@, lis@, x + 1, lis@.len() as int); }
                return Err(e);
            },
        }
        x += 1;
    }
    Ok(out)
}

/// The terminator on the line `[a, b)`.
#[verifier::rlimit(40)]
fn read_term(t: &Vec<char>, labels: &Vec<(usize, usize, BlockId)>, a: usize, b: usize) -> (r: Result<Terminator, ParseError>)
    requires
        a <= b <= t@.len(),
        forall|k: int| 0 <= k < labels@.len() ==> (#[trigger] labels@[k]).0 <= labels@[k].1 <= t@.len(),
    ensures
        r == term_line(t@, labels@, a as int, b as int),
{
    let ws = split_words(t, a, b);
    proof { lemma_words_view(t@, a as int, b as int, ws@); }
    if ws.len() > 0 && word_is(t, &ws, 0, "ret") {
        if ws.len() < 2 {
            return Err(ParseError::MissingOperand);
        }
        let value = value_ref_of(t, ws[1].0, ws[1].1)?;
        if ws.len() > 2 {
            return Err(ParseError::UnexpectedToken);
        }
        return Ok(Terminator::Ret { value });
    }
    if ws.len() > 0 && word_is(t, &ws, 0, "jmp") {
        if ws.len() < 2 {
            return Err(ParseError::MissingOperand);
        }
        if ws.len() > 2 {
            return Err(ParseError::UnexpectedToken);
        }
        return match lookup_label(t, labels, ws[1].0, ws[1].1) {
            None => Err(ParseError::UnknownLabel),
            Some(target) => Ok(Terminator::Jmp { target }),
        };
    }
    if ws.len() > 0 && word_is(t, &ws, 0, "br") {
        if ws.len() < 2 {
            return Err(ParseError::MissingOperand);
        }
        let cond = value_ref_of(t, ws[1].0, ws[1].1)?;
        if ws.len() < 4 {
            return Err(ParseError::MissingOperand);
        }
        if ws.len() > 4 {
            return Err(ParseError::UnexpectedToken);
        }
        let then_bb = match lookup_label(t, labels, ws[2].0, ws[2].1) {
            None => {
                return Err(ParseError::UnknownLabel);
            },
            Some(x) => x,
        };
        let else_bb = match lookup_label(t, labels, ws[3].0, ws[3].1) {
            None => {
                return Err(ParseError::UnknownLabel);
            },
            Some(x) => x,
        };
        return Ok(Terminator::Br { cond, then_bb, else_bb });
    }
    Err(ParseError::UnknownTerminator)
}

/// The drafted blocks are within the text and finished; the labels too.
pub open spec fn drafts_in_text(n: int, ds: Seq<DraftModel>, labels: Seq<(usize, usize, BlockId)>) -> bool {
    &&& forall|q: int| 0 <= q < ds.len() ==> draft_in_text(n, #[trigger] ds[q]) && ds[q].2 is Some
    &&& forall|q: int| 0 <= q < labels.len() ==> (#[trigger] labels[q]).0 <= labels[q].1 <= n
}

/// Reads the lines after the header into finished drafts.
#[verifier::rlimit(40)]
fn read_drafts(t: &Vec<char>, ls: &Vec<(usize, usize)>) -> (r: Result<(Vec<Draft>, Vec<(usize, usize, BlockId)>), ParseError>)
    requires
        ls@.len() >= 1,
        ls@.len() == text_lines(t@).len(),
        forall|k: int| 0 <= k < ls@.len() ==> (#[trigger] ls@[k]).0 as int == text_lines(t@)[k].0 && ls@[k].1 as int == text_lines(t@)[k].1,
        forall|k: int| 0 <= k < ls@.len() ==> (#[trigger] ls@[k]).0 < ls@[k].1 <= t@.len(),
    ensures
        match r {
            Ok((done, labels)) => drafted(t@, text_lines(t@).drop_first())
                == Ok::<(Seq<DraftModel>, Seq<(usize, usize, BlockId)>), ParseError>((drafts_model(done@), labels@))
                && drafts_in_text(t@.len() as int, drafts_model(done@), labels@),
            Err(e) => drafted(t@, text_lines(t@).drop_first())
                == Err::<(Seq<DraftModel>, Seq<(usize, usize, BlockId)>), ParseError>(e),
        },
{
    let ghost lsm = text_lines(t@);
    let ghost rest = lsm.drop_first();
    let mut done: Vec<Draft> = Vec::new();
    let mut cur: Option<Draft> = None;
    let mut labels: Vec<(usize, usize, BlockId)> = Vec::new();
    assert(drafts_model(done@) =~= Seq::<DraftModel>::empty());
    let mut i: usize = 1;
    while i < ls.len()
        invariant
            1 <= i <= ls@.len(),
            ls@.len() == lsm.len(),
            lsm == text_lines(t@),
            rest == lsm.drop_first(),
            forall|k: int| 0 <= k < ls@.len() ==> (#[trigger] ls@[k]).0 as int == lsm[k].0 && ls@[k].1 as int == lsm[k].1,
            forall|k: int| 0 <= k < ls@.len() ==> (#[trigger] ls@[k]).0 < ls@[k].1 <= t@.len(),
            read_lines(t@, rest, i - 1) == Ok::<ReadState, ParseError>((drafts_model(done@), opt_draft_model(cur), labels@)),
            state_in_text(t@.len() as int, (drafts_model(done@), opt_draft_model(cur), labels@)),
        decreases ls.len() - i,
    {
        let (a, b) = ls[i];
        assert(rest[i - 1] == lsm[i as int]);
        match read_one_line(t, &mut done, &mut cur, &mut labels, a, b) {
            Ok(()) => {},
            Err(e) => {
                proof { lemma_read_lines_err(t@, rest, i as int, rest.len() as int); }
                return Err(e);
            },
        }
        i += 1;
    }
    assert(rest.len() == i - 1);
    let ghost done0 = drafts_model(done@);
    match cur {
        Some(c) => {
            if c.term.is_none() {
                return Err(ParseError::NoTerminator(c.id));
            }
            done.push(c);
            assert(drafts_model(done@) =~= done0.push(draft_model(c)));
        },
        None => {},
    }
    if done.len() == 0 {
        return Err(ParseError::NoBlocks);
    }
    Ok((done, labels))
}

/// Reads every phi's inputs, in order, for their errors.
fn check_phis(t: &Vec<char>, labels: &Vec<(usize, usize, BlockId)>, done: &Vec<Draft>) -> (r: Result<(), ParseError>)
    requires
        drafts_in_text(t@.len() as int, drafts_model(done@), labels@),
    ensures
        match r {
            Ok(()) => drafts_inputs(t@, labels@, drafts_model(done@), done@.len() as int) is Ok,
            Err(e) => drafts_inputs(t@, labels@, drafts_model(done@), done@.len() as int)
                == Err::<Seq<Seq<Seq<(BlockId, VReg)>>>, ParseError>(e),
        },
{
    let ghost ds = drafts_model(done@);
    let mut k: usize = 0;
    while k < done.len()
        invariant
            k <= done@.len(),
            ds == drafts_model(done@),
            drafts_in_text(t@.len() as int, ds, labels@),
            drafts_inputs(t@, labels@, ds, k as int) is Ok,
        decreases done.len() - k,
    {
        assert(ds[k as int] == draft_model(done@[k as int]));
        match resolve_insts(t, labels, &done[k].insts) {
            Ok(_) => {},
            Err(e) => {
                proof { lemma_drafts_inputs_err(t@, labels@, ds, k + 1, done@.len() as int); }
                return Err(e);
            },
        }
        k += 1;
    }
    Ok(())
}

/// Reads every terminator, in order.
fn read_terms(t: &Vec<char>, labels: &Vec<(usize, usize, BlockId)>, done: &Vec<Draft>) -> (r: Result<Vec<Terminator>, ParseError>)
    requires
        drafts_in_text(t@.len() as int, drafts_model(done@), labels@),
    ensures
        match r {
            Ok(terms) => drafts_terms(t@, labels@, drafts_model(done@), done@.len() as int)
                == Ok::<Seq<Terminator>, ParseError>(terms@) && terms@.len() == done@.len(),
            Err(e) => drafts_terms(t@, labels@, drafts_model(done@), done@.len() as int)
                == Err::<Seq<Terminator>, ParseError>(e),
        },
{
    let ghost ds = drafts_model(done@);
    let mut terms: Vec<Terminator> = Vec::new();
    let mut k: usize = 0;
    while k < done.len()
        invariant
            k <= done@.len(),
            ds == drafts_model(done@),
            drafts_in_text(t@.len() as int, ds, labels@),
            drafts_terms(t@, labels@, ds, k as int) == Ok::<Seq<Terminator>, ParseError>(terms@),
            terms@.len() == k,
        decreases done.len() - k,
    {
        assert(ds[k as int] == draft_model(done@[k as int]));
        let (a, b) = match done[k].term {
            Some(r) => r,
            None => (0, 0),
        };
        match read_term(t, labels, a, b) {
            Ok(term) => terms.push(term),
            Err(e) => {
                proof { lemma_drafts_terms_err(t@, labels@, ds, k + 1, done@.len() as int); }
                return Err(e);
            },
        }
        k += 1;
    }
    Ok(terms)
}

/// The blocks of the function, once phi inputs are known to read.
fn build_blocks(t: &Vec<char>, labels: &Vec<(usize, usize, BlockId)>, done: &Vec<Draft>, terms: &Vec<Terminator>) -> (r: Vec<Block>)
    requires
        drafts_in_text(t@.len() as int, drafts_model(done@), labels@),
        drafts_inputs(t@, labels@, drafts_model(done@), done@.len() as int) is Ok,
        terms@.len() == done@.len(),
    ensures
        r@.len() == done@.len(),
        forall|q: int| 0 <= q < done@.len() ==> {
            let b = #[trigger] r@[q];
            let ds = drafts_model(done@);
            let ins = drafts_inputs(t@, labels@, ds, done@.len() as int)->Ok_0;
            &&& b.id == ds[q].0
            &&& b.term == terms@[q]
            &&& b.insts@.len() == ds[q].1.len()
            &&& forall|x: int| 0 <= x < ds[q].1.len() ==> inst_is(#[trigger] b.insts@[x], ds[q].1[x], ins[q][x])
        },
{
    let ghost ds = drafts_model(done@);
    let ghost n = done@.len() as int;
    let ghost mut acc: Seq<Seq<Seq<(BlockId, VReg)>>> = seq![];
    let mut blocks: Vec<Block> = Vec::new();
    let mut k: usize = 0;
    while k < done.len()
        invariant
            k <= done@.len(),
            ds == drafts_model(done@),
            n == done@.len(),
            drafts_in_text(t@.len() as int, ds, labels@),
            drafts_inputs(t@, labels@, ds, n) is Ok,
            terms@.len() == n,
            drafts_inputs(t@, labels@, ds, k as int) == Ok::<Seq<Seq<Seq<(BlockId, VReg)>>>, ParseError>(acc),
            acc.len() == k,
            blocks@.len() == k,
            forall|q: int| 0 <= q < k ==> {
                let b = #[trigger] blocks@[q];
                &&& b.id == ds[q].0
                &&& b.term == terms@[q]
                &&& b.insts@.len() == ds[q].1.len()
                &&& forall|x: int| 0 <= x < ds[q].1.len() ==> inst_is(#[trigger] b.insts@[x], ds[q].1[x], acc[q][x])
            },
        decreases done.len() - k,
    {
        assert(ds[k as int] == draft_model(done@[k as int]));
        match resolve_insts(t, labels, &done[k].insts) {
            Ok(insts) => {
                proof {
                    let ins = insts_inputs(t@, labels@, ds[k as int].1, ds[k as int].1.len() as int)->Ok_0;
                    acc = acc.push(ins);
                }
                blocks.push(Block { id: done[k].id, insts, term: terms[k] });
            },
            Err(e) => {
                proof { lemma_drafts_inputs_err(t@, labels@, ds, k + 1, n); }
            },
        }
        k += 1;
    }
    blocks
}

/// Parses the textual IR (see the module documentation). The lines are read
/// first, then the phi inputs of every block in order, then the terminators;
/// the first error found is returned.
pub fn parse(text: &str) -> (r: Result<Function, ParseError>)
    ensures
        match r {
            Ok(f) => parse_outcome(text@) matches Ok(m) && function_is(f, text@, m),
            Err(e) => parse_outcome(text@) == Err::<((int, int), u32, Seq<DraftModel>, Seq<Seq<Seq<(BlockId, VReg)>>>, Seq<Terminator>), ParseError>(e),
        },
{
    let t = chars_of(text);
    let ls = significant_line_ranges(&t);
    if ls.len() == 0 {
        return Err(ParseError::MissingHeader);
    }
    let ((na, nb), args) = read_header(&t, ls[0].0, ls[0].1)?;
    let (done, labels) = read_drafts(&t, &ls)?;
    check_phis(&t, &labels, &done)?;
    let terms = read_terms(&t, &labels, &done)?;
    let blocks = build_blocks(&t, &labels, &done, &terms);
    let name = text.substring_char(na, nb).to_owned();
    let entry = blocks[0].id;
    Ok(Function { name, args, entry, blocks })
}

} // verus!
