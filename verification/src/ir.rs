//! The IR: virtual registers, blocks, instructions and terminators.
use vstd::prelude::*;
use crate::smallvecs::{PhiInputs, UseValues, TermValues, Successors, phi_input_items, use_value_items, term_value_items, successor_items};

verus! {

/// A virtual register holding an `i64`.
#[derive(Debug, Copy, Clone, PartialEq, Eq, Hash, Structural)]
pub struct VReg(pub u32);

/// A basic block identifier.
#[derive(Debug, Copy, Clone, PartialEq, Eq, Hash, Structural)]
pub struct BlockId(pub u32);

/// An instruction identifier.
#[derive(Debug, Copy, Clone, PartialEq, Eq, Hash, Structural)]
pub struct InstId(pub u32);

/// The index of a function argument.
#[derive(Debug, Copy, Clone, PartialEq, Eq, Hash, Structural)]
pub struct ArgId(pub u32);

/// A function over `i64` values.
#[derive(Debug, Clone)]
pub struct Function {
    pub name: String,
    /// The number of `i64` arguments.
    pub args: u32,
    pub entry: BlockId,
    pub blocks: Vec<Block>,
}

/// A basic block: instructions followed by one terminator.
#[derive(Debug, Clone)]
pub struct Block {
    pub id: BlockId,
    pub insts: Vec<Inst>,
    pub term: Terminator,
}

/// An instruction; every instruction defines exactly one value.
#[derive(Debug, Clone)]
pub enum Inst {
    ConstI64 { dst: VReg, imm: i64 },
    AddI64 { dst: VReg, a: VReg, b: VReg },
    MulI64 { dst: VReg, a: VReg, b: VReg },
    MovI64 { dst: VReg, src: VReg },
    /// `dst` is 1 when `a > b`, else 0.
    CmpGtI64 { dst: VReg, a: VReg, b: VReg },
    PhiI64 { dst: VReg, incoming: PhiInputs },
    ArgI64 { dst: VReg, idx: ArgId },
}

/// The control transfer that ends a block.
#[derive(Debug, Clone, Copy)]
pub enum Terminator {
    Ret { value: VReg },
    Jmp { target: BlockId },
    Br { cond: VReg, then_bb: BlockId, else_bb: BlockId },
}

/// The successors of a terminator, in order.
pub open spec fn spec_successors(term: Terminator) -> Seq<BlockId> {
    match term {
        Terminator::Ret { .. } => seq![],
        Terminator::Jmp { target } => seq![target],
        Terminator::Br { then_bb, else_bb, .. } => seq![then_bb, else_bb],
    }
}

/// The value an instruction defines.
pub open spec fn spec_def(inst: Inst) -> VReg {
    match inst {
        Inst::ConstI64 { dst, .. } => dst,
        Inst::AddI64 { dst, .. } => dst,
        Inst::MulI64 { dst, .. } => dst,
        Inst::MovI64 { dst, .. } => dst,
        Inst::CmpGtI64 { dst, .. } => dst,
        Inst::PhiI64 { dst, .. } => dst,
        Inst::ArgI64 { dst, .. } => dst,
    }
}

/// The `(predecessor, value)` inputs of a phi, and nothing for other instructions.
pub open spec fn spec_phi_inputs(inst: Inst) -> Seq<(BlockId, VReg)> {
    match inst {
        Inst::PhiI64 { incoming, .. } => phi_input_items(incoming),
        _ => seq![],
    }
}

/// The values an instruction reads, in operand order (for a phi, its inputs).
pub open spec fn spec_uses(inst: Inst) -> Seq<VReg> {
    match inst {
        Inst::ConstI64 { .. } => seq![],
        Inst::ArgI64 { .. } => seq![],
        Inst::AddI64 { a, b, .. } => seq![a, b],
        Inst::MulI64 { a, b, .. } => seq![a, b],
        Inst::MovI64 { src, .. } => seq![src],
        Inst::CmpGtI64 { a, b, .. } => seq![a, b],
        Inst::PhiI64 { incoming, .. } => phi_input_items(incoming).map_values(|p: (BlockId, VReg)| p.1),
    }
}

/// The values a terminator reads.
pub open spec fn spec_term_uses(term: Terminator) -> Seq<VReg> {
    match term {
        Terminator::Ret { value } => seq![value],
        Terminator::Jmp { .. } => seq![],
        Terminator::Br { cond, .. } => seq![cond],
    }
}

pub open spec fn is_phi(inst: Inst) -> bool {
    inst is PhiI64
}

/// The index of the first block of `blocks` with identifier `id`, or -1.
pub open spec fn first_block_index(blocks: Seq<Block>, id: BlockId) -> int
    decreases blocks.len(),
{
    if blocks.len() == 0 {
        -1
    } else if blocks[0].id == id {
        0
    } else {
        let rest = first_block_index(blocks.drop_first(), id);
        if rest < 0 { -1 } else { rest + 1 }
    }
}

pub proof fn lemma_first_block_index(blocks: Seq<Block>, id: BlockId)
    ensures
        -1 <= first_block_index(blocks, id) < blocks.len(),
        first_block_index(blocks, id) >= 0 ==> blocks[first_block_index(blocks, id)].id == id,
        forall|j: int| 0 <= j < blocks.len() && (first_block_index(blocks, id) < 0 || j < first_block_index(blocks, id))
            ==> blocks[j].id != id,
        forall|i: int| 0 <= i < blocks.len() && blocks[i].id == id
            && (forall|j: int| 0 <= j < i ==> #[trigger] blocks[j].id != id)
            ==> first_block_index(blocks, id) == i,
    decreases blocks.len(),
{
    if blocks.len() > 0 {
        lemma_first_block_index(blocks.drop_first(), id);
        assert forall|j: int| 1 <= j < blocks.len() implies blocks[j] == blocks.drop_first()[j - 1] by {}
    }
}

/// The values that block ids of `blocks` take, in order.
pub open spec fn block_ids(blocks: Seq<Block>) -> Seq<BlockId> {
    blocks.map_values(|b: Block| b.id)
}

impl Function {
    /// Whether some block has identifier `id`.
    pub open spec fn has_block(&self, id: BlockId) -> bool {
        exists|i: int| 0 <= i < self.blocks@.len() && self.blocks@[i].id == id
    }

    /// The first block with identifier `id`; the caller guarantees that one exists.
    pub fn block(&self, id: BlockId) -> (b: &Block)
        requires
            self.has_block(id),
        ensures
            *b == self.blocks@[first_block_index(self.blocks@, id)],
    {
        proof { lemma_first_block_index(self.blocks@, id); }
        let found = self.find_block(id);
        &self.blocks[found.unwrap()]
    }

    /// The first block with identifier `id`, mutably; the caller guarantees that one exists.
    pub fn block_mut(&mut self, id: BlockId) -> (b: &mut Block)
        requires
            old(self).has_block(id),
        ensures
            *b == old(self).blocks@[first_block_index(old(self).blocks@, id)],
            final(self).blocks@ == old(self).blocks@.update(first_block_index(old(self).blocks@, id), *final(b)),
            final(self).name == old(self).name,
            final(self).args == old(self).args,
            final(self).entry == old(self).entry,
    {
        proof { lemma_first_block_index(old(self).blocks@, id); }
        let found = self.find_block(id);
        let i = found.unwrap();
        &mut self.blocks[i]
    }

    /// The blocks in layout order.
    pub fn blocks_in_order(&self) -> (r: &Vec<Block>)
        ensures
            r@ == self.blocks@,
    {
        &self.blocks
    }

    /// The first block with identifier `id`, if any.
    pub fn try_block(&self, id: BlockId) -> (r: Option<&Block>)
        ensures
            match r {
                Some(b) => first_block_index(self.blocks@, id) >= 0
                    && *b == self.blocks@[first_block_index(self.blocks@, id)],
                None => first_block_index(self.blocks@, id) < 0,
            },
    {
        proof { lemma_first_block_index(self.blocks@, id); }
        match self.find_block(id) {
            Some(i) => Some(&self.blocks[i]),
            None => None,
        }
    }

    /// The index of the first block with identifier `id`, if any.
    pub fn find_block(&self, id: BlockId) -> (r: Option<usize>)
        ensures
            match r {
                Some(i) => i as int == first_block_index(self.blocks@, id),
                None => first_block_index(self.blocks@, id) < 0,
            },
    {
        proof { lemma_first_block_index(self.blocks@, id); }
        let mut i: usize = 0;
        while i < self.blocks.len()
            invariant
                i <= self.blocks.len(),
                forall|j: int| 0 <= j < i ==> self.blocks@[j].id != id,
            decreases self.blocks.len() - i,
        {
            if self.blocks[i].id == id {
                proof {
                    lemma_first_block_index(self.blocks@, id);
                    let k = first_block_index(self.blocks@, id);
                    if k < 0 || k > i {
                        assert(self.blocks@[i as int].id != id);
                    } else if k < i {
                        assert(self.blocks@[k].id != id);
                    }
                }
                return Some(i);
            }
            i += 1;
        }
        None
    }
}

/// The successor blocks of a terminator.
pub fn successors(term: &Terminator) -> (r: Successors)
    ensures
        successor_items(r) == spec_successors(*term),
{
    Successors::from_vec(successor_list(term))
}

/// The successor blocks of a terminator, as a vector.
fn successor_list(term: &Terminator) -> (r: Vec<BlockId>)
    ensures
        r@ == spec_successors(*term),
{
    match *term {
        Terminator::Ret { .. } => Vec::new(),
        Terminator::Jmp { target } => vec![target],
        Terminator::Br { then_bb, else_bb, .. } => vec![then_bb, else_bb],
    }
}

/// The value an instruction defines; every instruction defines one.
pub fn defs(inst: &Inst) -> (r: Option<VReg>)
    ensures
        r == Some(spec_def(*inst)),
{
    match *inst {
        Inst::ConstI64 { dst, .. } => Some(dst),
        Inst::AddI64 { dst, .. } => Some(dst),
        Inst::MulI64 { dst, .. } => Some(dst),
        Inst::MovI64 { dst, .. } => Some(dst),
        Inst::CmpGtI64 { dst, .. } => Some(dst),
        Inst::PhiI64 { dst, .. } => Some(dst),
        Inst::ArgI64 { dst, .. } => Some(dst),
    }
}

/// The values an instruction reads.
pub fn uses(inst: &Inst) -> (r: UseValues)
    ensures
        use_value_items(r) == spec_uses(*inst),
{
    UseValues::from_vec(use_list(inst))
}

/// The values an instruction reads, as a vector.
fn use_list(inst: &Inst) -> (r: Vec<VReg>)
    ensures
        r@ == spec_uses(*inst),
{
    match inst {
        Inst::ConstI64 { .. } => Vec::new(),
        Inst::ArgI64 { .. } => Vec::new(),
        Inst::AddI64 { a, b, .. } => vec![*a, *b],
        Inst::MulI64 { a, b, .. } => vec![*a, *b],
        Inst::MovI64 { src, .. } => vec![*src],
        Inst::CmpGtI64 { a, b, .. } => vec![*a, *b],
        Inst::PhiI64 { incoming, .. } => {
            let pairs = incoming.to_vec();
            let mut out: Vec<VReg> = Vec::new();
            let mut i: usize = 0;
            while i < pairs.len()
                invariant
                    i <= pairs.len(),
                    out@ == pairs@.take(i as int).map_values(|p: (BlockId, VReg)| p.1),
                decreases pairs.len() - i,
            {
                out.push(pairs[i].1);
                i += 1;
                assert(pairs@.take(i as int).drop_last() == pairs@.take(i - 1));
            }
            assert(pairs@.take(i as int) == pairs@);
            out
        },
    }
}

/// The values a terminator reads.
pub fn term_uses(term: &Terminator) -> (r: TermValues)
    ensures
        term_value_items(r) == spec_term_uses(*term),
{
    TermValues::from_vec(term_use_list(term))
}

/// The values a terminator reads, as a vector.
fn term_use_list(term: &Terminator) -> (r: Vec<VReg>)
    ensures
        r@ == spec_term_uses(*term),
{
    match *term {
        Terminator::Ret { value } => vec![value],
        Terminator::Jmp { .. } => Vec::new(),
        Terminator::Br { cond, .. } => vec![cond],
    }
}

} // verus!
