//! Live intervals over a linear numbering of instruction positions.
use vstd::prelude::*;
use indexmap::IndexMap;
use crate::ir::{
    Function, Inst, BlockId, VReg, spec_def, spec_uses, spec_term_uses, spec_phi_inputs, is_phi, uses, term_uses,
    defs, first_block_index, lemma_first_block_index,
};
use crate::validation::inst_at;
use crate::liveness::{live_fix, live_least, liveness_core, core_ok, LiveCore, set_of, mentioned, lemma_phi_input_used};
use crate::cfg::{CfgError, successors_known, is_last_unknown, check_successors_from_end, ids_distinct, mat};
use crate::sorting::sort_intervals;
use crate::collections::{pos_entries, pos_map_new, pos_map_insert, entries_insert, entries_insert_all};
use crate::linear_scan::lemma_permutation;

verus! {

/// A position in the linear numbering of a function's instructions.
#[derive(Debug, Copy, Clone, PartialEq, Eq, PartialOrd, Ord, Hash, Structural)]
pub struct Pos(pub u32);

/// The closed range of positions `[start, end]` over which `v` is live.
#[derive(Debug, Copy, Clone, PartialEq, Eq, Structural)]
pub struct LiveInterval {
    pub v: VReg,
    pub start: Pos,
    pub end: Pos,
}

/// Two closed intervals share a position.
pub open spec fn spec_overlaps(a: LiveInterval, b: LiveInterval) -> bool {
    !(a.end.0 < b.start.0 || b.end.0 < a.start.0)
}

impl LiveInterval {
    /// Whether the two intervals share a position.
    pub fn overlaps(&self, other: &Self) -> (r: bool)
        ensures
            r == spec_overlaps(*self, *other),
    {
        !(self.end.0 < other.start.0 || other.end.0 < self.start.0)
    }
}

/// The sort key of an interval: start, then end, then value number.
pub open spec fn interval_key_le(a: LiveInterval, b: LiveInterval) -> bool {
    a.start.0 < b.start.0
    || (a.start.0 == b.start.0 && a.end.0 < b.end.0)
    || (a.start.0 == b.start.0 && a.end.0 == b.end.0 && a.v.0 <= b.v.0)
}


/// The live intervals of a function and the position of each instruction.
#[derive(Debug)]
pub struct LiveIntervals {
    pub intervals: Vec<LiveInterval>,
    /// The position of instruction `i` of each block; index `insts.len()` is the terminator.
    pub positions: IndexMap<(BlockId, usize), Pos>,
}


// ---------------------------------------------------------------------------
// Positions and the places where a value is touched.

/// The position of the first instruction of block `b`: one position per
/// instruction and terminator of the blocks before it.
pub open spec fn block_base(f: Function, b: int) -> int
    decreases b,
{
    if b <= 0 {
        0
    } else {
        block_base(f, b - 1) + f.blocks@[b - 1].insts@.len() + 1
    }
}

/// The position of instruction `x` of block `b` (`x` the number of
/// instructions for the terminator).
pub open spec fn pos_of(f: Function, b: int, x: int) -> int {
    block_base(f, b) + x
}

/// The position of the terminator of the first block with id `pid`.
pub open spec fn phi_pred_pos(f: Function, pid: BlockId) -> int {
    let q = first_block_index(f.blocks@, pid);
    pos_of(f, q, f.blocks@[q].insts@.len() as int)
}

/// `v` is defined, or read by a non-phi instruction, at position `p`.
pub open spec fn touch_inst(f: Function, v: VReg, p: int) -> bool {
    exists|b: int, x: int| 0 <= b < f.blocks@.len() && 0 <= x < f.blocks@[b].insts@.len() && p == pos_of(f, b, x)
        && (spec_def(#[trigger] inst_at(f, b, x)) == v || (!is_phi(inst_at(f, b, x)) && spec_uses(inst_at(f, b, x)).contains(v)))
}

/// `v` is read by the terminator at position `p`, or live out of its block.
pub open spec fn touch_term(f: Function, v: VReg, p: int) -> bool {
    exists|b: int| 0 <= b < f.blocks@.len() && p == #[trigger] pos_of(f, b, f.blocks@[b].insts@.len() as int)
        && (spec_term_uses(f.blocks@[b].term).contains(v) || live_fix(f).1[b].contains(v))
}

/// `v` is live into the block starting at position `p`.
pub open spec fn touch_entry(f: Function, v: VReg, p: int) -> bool {
    exists|b: int| 0 <= b < f.blocks@.len() && p == #[trigger] block_base(f, b) && live_fix(f).0[b].contains(v)
}

/// A phi takes `v` from the predecessor whose terminator is at position `p`.
pub open spec fn touch_phi(f: Function, v: VReg, p: int) -> bool {
    exists|s: int, x: int, y: int| 0 <= s < f.blocks@.len() && 0 <= x < f.blocks@[s].insts@.len()
        && 0 <= y < spec_phi_inputs(inst_at(f, s, x)).len()
        && (#[trigger] spec_phi_inputs(inst_at(f, s, x))[y]).1 == v
        && phi_pred_pos(f, spec_phi_inputs(inst_at(f, s, x))[y].0) == p
}

/// `v` is touched at position `p`: defined or read by an instruction there,
/// read by the terminator there or live out of its block, live into the block
/// starting there, or taken by a phi from the predecessor whose terminator is there.
pub open spec fn touches(f: Function, v: VReg, p: int) -> bool {
    touch_inst(f, v, p) || touch_term(f, v, p) || touch_entry(f, v, p) || touch_phi(f, v, p)
}

/// `v` is touched somewhere.
pub open spec fn touched(f: Function, v: VReg) -> bool {
    exists|p: int| touches(f, v, p)
}

/// The intervals are exactly one per touched value, from its first to its last
/// touch, sorted by start, end and value number.
pub open spec fn intervals_exact(f: Function, ivs: Seq<LiveInterval>) -> bool {
    &&& forall|i: int| 0 <= i < ivs.len() ==> {
        let iv = #[trigger] ivs[i];
        &&& touches(f, iv.v, iv.start.0 as int)
        &&& touches(f, iv.v, iv.end.0 as int)
        &&& forall|p: int| touches(f, iv.v, p) ==> iv.start.0 <= p <= iv.end.0
    }
    &&& forall|v: VReg| touched(f, v) ==> exists|i: int| 0 <= i < ivs.len() && (#[trigger] ivs[i]).v == v
    &&& forall|i: int, j: int| 0 <= i < j < ivs.len() ==> ivs[i].v != ivs[j].v
    &&& forall|i: int, j: int| 0 <= i < j < ivs.len() ==> interval_key_le(ivs[i], ivs[j])
}

/// Two sequences of intervals, each sorted by `interval_key_le` with distinct
/// values, that hold the same intervals are equal.
proof fn lemma_sorted_same_equal(a: Seq<LiveInterval>, b: Seq<LiveInterval>)
    requires
        forall|i: int, j: int| #![trigger a[i], a[j]] 0 <= i < j < a.len() ==> interval_key_le(a[i], a[j]) && a[i].v != a[j].v,
        forall|i: int, j: int| #![trigger b[i], b[j]] 0 <= i < j < b.len() ==> interval_key_le(b[i], b[j]) && b[i].v != b[j].v,
        forall|x: LiveInterval| a.contains(x) <==> b.contains(x),
    ensures
        a == b,
    decreases a.len(),
{
    if a.len() == 0 {
        if b.len() > 0 {
            assert(b.contains(b[0]));
        }
        assert(b =~= a);
    } else {
        assert(a.contains(a[0]));
        assert(b.len() > 0);
        assert(b.contains(b[0]));
        let i = choose|i: int| 0 <= i < a.len() && a[i] == b[0];
        let j = choose|j: int| 0 <= j < b.len() && b[j] == a[0];
        assert(interval_key_le(a[0], b[0])) by { if i > 0 { assert(interval_key_le(a[0], a[i])); } }
        assert(interval_key_le(b[0], a[0])) by { if j > 0 { assert(interval_key_le(b[0], b[j])); } }
        assert(a[0] == b[0]);
        let a1 = a.drop_first();
        let b1 = b.drop_first();
        assert forall|x: LiveInterval| a1.contains(x) <==> b1.contains(x) by {
            if a1.contains(x) {
                let k = choose|k: int| 0 <= k < a1.len() && a1[k] == x;
                assert(a[k + 1] == x);
                assert(x != a[0]) by { assert(a[0].v != a[k + 1].v); }
                assert(a.contains(x));
                assert(b.contains(x));
                let m = choose|m: int| 0 <= m < b.len() && b[m] == x;
                assert(m != 0);
                assert(b1[m - 1] == x);
            }
            if b1.contains(x) {
                let k = choose|k: int| 0 <= k < b1.len() && b1[k] == x;
                assert(b[k + 1] == x);
                assert(x != b[0]) by { assert(b[0].v != b[k + 1].v); }
                assert(b.contains(x));
                assert(a.contains(x));
                let m = choose|m: int| 0 <= m < a.len() && a[m] == x;
                assert(m != 0);
                assert(a1[m - 1] == x);
            }
        }
        assert forall|x: int, y: int| #![trigger a1[x], a1[y]] 0 <= x < y < a1.len() implies interval_key_le(a1[x], a1[y]) && a1[x].v != a1[y].v by {
            assert(a1[x] == a[x + 1] && a1[y] == a[y + 1]);
        }
        assert forall|x: int, y: int| #![trigger b1[x], b1[y]] 0 <= x < y < b1.len() implies interval_key_le(b1[x], b1[y]) && b1[x].v != b1[y].v by {
            assert(b1[x] == b[x + 1] && b1[y] == b[y + 1]);
        }
        lemma_sorted_same_equal(a1, b1);
        assert(a =~= seq![a[0]] + a1);
        assert(b =~= seq![b[0]] + b1);
    }
}

/// The exact live intervals of a function are unique.
pub proof fn lemma_intervals_exact_unique(f: Function, a: Seq<LiveInterval>, b: Seq<LiveInterval>)
    requires
        intervals_exact(f, a),
        intervals_exact(f, b),
    ensures
        a == b,
{
    assert forall|x: LiveInterval, p: Seq<LiveInterval>, q: Seq<LiveInterval>|
        intervals_exact(f, p) && intervals_exact(f, q) && #[trigger] p.contains(x) implies #[trigger] q.contains(x) by {
        let i = choose|i: int| 0 <= i < p.len() && p[i] == x;
        assert(touches(f, x.v, x.start.0 as int));
        assert(touched(f, x.v));
        let j = choose|j: int| 0 <= j < q.len() && (#[trigger] q[j]).v == x.v;
        let y = q[j];
        assert(touches(f, y.v, y.start.0 as int) && touches(f, y.v, y.end.0 as int));
        assert(touches(f, x.v, x.end.0 as int));
        assert(x.start.0 <= y.start.0 && y.start.0 <= x.start.0);
        assert(x.end.0 <= y.end.0 && y.end.0 <= x.end.0);
        assert(x == y);
    }
    assert forall|x: LiveInterval| a.contains(x) <==> b.contains(x) by {
        if a.contains(x) { assert(b.contains(x)); }
        if b.contains(x) { assert(a.contains(x)); }
    }
    lemma_sorted_same_equal(a, b);
}

/// The positions of the first `m` blocks, slot by slot.
pub open spec fn position_list(f: Function, m: int) -> Seq<((BlockId, usize), Pos)>
    decreases m,
{
    if m <= 0 {
        seq![]
    } else {
        position_list(f, m - 1) + Seq::new((f.blocks@[m - 1].insts@.len() + 1) as nat,
            |x: int| ((f.blocks@[m - 1].id, x as usize), Pos((block_base(f, m - 1) + x) as u32)))
    }
}

/// Why live intervals cannot be computed.
#[derive(Debug, Clone, Copy, PartialEq, Eq, Structural)]
pub enum IntervalError {
    /// Liveness failed: a successor names no block.
    Liveness(CfgError),
    /// The function has more instruction positions than a `u32` numbers.
    PositionOverflow,
    /// A phi names a predecessor that is not a block.
    UnknownPhiPredecessor(BlockId),
}

/// What an interval error says, as a fact about the function.
pub open spec fn interval_error_holds(f: Function, err: IntervalError) -> bool {
    match err {
        IntervalError::Liveness(e) => !successors_known(f) && is_last_unknown(f, e),
        IntervalError::PositionOverflow => successors_known(f) && block_base(f, f.blocks@.len() as int) > u32::MAX,
        IntervalError::UnknownPhiPredecessor(p) => successors_known(f)
            && block_base(f, f.blocks@.len() as int) <= u32::MAX && !phi_preds_known(f) && is_first_bad_phi_pred(f, p),
    }
}

/// The conditions under which live intervals are computed.
pub open spec fn intervals_computable(f: Function) -> bool {
    successors_known(f) && block_base(f, f.blocks@.len() as int) <= u32::MAX && phi_preds_known(f)
}

/// Input `y` of instruction `x` of block `s` comes before input `y2` of instruction `x2` of block `s2`.
pub open spec fn input_pos_before(s: int, x: int, y: int, s2: int, x2: int, y2: int) -> bool {
    s < s2 || (s == s2 && (x < x2 || (x == x2 && y < y2)))
}

/// Every phi input names a block.
pub open spec fn phi_preds_known(f: Function) -> bool {
    forall|s: int, x: int, y: int| 0 <= s < f.blocks@.len() && 0 <= x < f.blocks@[s].insts@.len()
        && 0 <= y < spec_phi_inputs(inst_at(f, s, x)).len()
        ==> f.has_block((#[trigger] spec_phi_inputs(inst_at(f, s, x))[y]).0)
}

/// `p` is the predecessor of the first phi input, in layout order, that names no block.
pub open spec fn is_first_bad_phi_pred(f: Function, p: BlockId) -> bool {
    exists|s: int, x: int, y: int| 0 <= s < f.blocks@.len() && 0 <= x < f.blocks@[s].insts@.len()
        && 0 <= y < spec_phi_inputs(inst_at(f, s, x)).len()
        && (#[trigger] spec_phi_inputs(inst_at(f, s, x))[y]).0 == p && !f.has_block(p)
        && forall|s2: int, x2: int, y2: int| 0 <= s2 < f.blocks@.len() && 0 <= x2 < f.blocks@[s2].insts@.len()
            && 0 <= y2 < spec_phi_inputs(inst_at(f, s2, x2)).len() && input_pos_before(s2, x2, y2, s, x, y)
            ==> f.has_block((#[trigger] spec_phi_inputs(inst_at(f, s2, x2))[y2]).0)
}

pub proof fn lemma_block_base_mono(f: Function, a: int, b: int)
    requires
        0 <= a <= b <= f.blocks@.len(),
    ensures
        block_base(f, a) + (if a < b { f.blocks@[a].insts@.len() + 1 } else { 0 }) <= block_base(f, b),
    decreases b - a,
{
    if a < b {
        lemma_block_base_mono(f, a + 1, b);
    }
}

/// The position of every instruction slot, and the first position of each
/// block; `None` when the positions do not fit in a `u32`.
fn number_positions(f: &Function) -> (r: Option<(IndexMap<(BlockId, usize), Pos>, Vec<u32>)>)
    ensures
        r is None <==> block_base(*f, f.blocks@.len() as int) > u32::MAX,
        r matches Some(p) ==> p.1@.len() == f.blocks@.len()
            && (forall|b: int| 0 <= b < f.blocks@.len() ==> p.1@[b] == #[trigger] block_base(*f, b))
            && pos_entries(p.0) == entries_insert_all(position_list(*f, f.blocks@.len() as int))
            && (ids_distinct(*f) ==> pos_entries(p.0) == position_list(*f, f.blocks@.len() as int)),
{
    let n = f.blocks.len();
    let mut positions = pos_map_new();
    let mut bases: Vec<u32> = Vec::new();
    let mut position: u32 = 0;
    let mut b: usize = 0;
    while b < n
        invariant
            n == f.blocks@.len(),
            b <= n,
            position as int == block_base(*f, b as int),
            bases@.len() == b,
            forall|q: int| 0 <= q < b ==> bases@[q] == #[trigger] block_base(*f, q),
            ids_distinct(*f) ==> pos_entries(positions) == position_list(*f, b as int),
            pos_entries(positions) == entries_insert_all(position_list(*f, b as int)),
        decreases n - b,
    {
        bases.push(position);
        let block = &f.blocks[b];
        let len = block.insts.len();
        let ghost start = pos_entries(positions);
        let mut x: usize = 0;
        while x <= len
            invariant
                n == f.blocks@.len(),
                b < n,
                block == f.blocks@[b as int],
                len == block.insts@.len(),
                x <= len + 1,
                position as int == block_base(*f, b as int) + x,
                bases@.len() == b + 1,
                forall|q: int| 0 <= q < b + 1 ==> bases@[q] == #[trigger] block_base(*f, q),
                ids_distinct(*f) ==> start == position_list(*f, b as int),
                pos_entries(positions) == entries_insert_all(position_list(*f, b as int) + Seq::new(x as nat,
                    |y: int| ((f.blocks@[b as int].id, y as usize), Pos((block_base(*f, b as int) + y) as u32)))),
                ids_distinct(*f) ==> pos_entries(positions) == start + Seq::new(x as nat,
                    |y: int| ((f.blocks@[b as int].id, y as usize), Pos((block_base(*f, b as int) + y) as u32))),
            decreases len + 1 - x,
        {
            let ghost e0 = pos_entries(positions);
            let key = (block.id, x);
            pos_map_insert(&mut positions, key, Pos(position));
            proof {
                let done = position_list(*f, b as int) + Seq::new(x as nat,
                    |y: int| ((f.blocks@[b as int].id, y as usize), Pos((block_base(*f, b as int) + y) as u32)));
                let next = position_list(*f, b as int) + Seq::new((x + 1) as nat,
                    |y: int| ((f.blocks@[b as int].id, y as usize), Pos((block_base(*f, b as int) + y) as u32)));
                assert(next.drop_last() =~= done);
                assert(next.last() == (key, Pos(position)));
                if ids_distinct(*f) {
                    let pre = Seq::new(x as nat, |y: int| ((f.blocks@[b as int].id, y as usize), Pos((block_base(*f, b as int) + y) as u32)));
                    crate::collections::lemma_key_index(e0, key);
                    assert forall|j: int| 0 <= j < e0.len() implies e0[j].0 != key by {
                        if j < start.len() {
                            lemma_position_list_keys(*f, b as int, j);
                        } else {
                            assert(e0[j] == pre[j - start.len()]);
                        }
                    }
                    let post = Seq::new((x + 1) as nat, |y: int| ((f.blocks@[b as int].id, y as usize), Pos((block_base(*f, b as int) + y) as u32)));
                    assert(pos_entries(positions) =~= start + post);
                }
            }
            if position == u32::MAX {
                proof {
                    lemma_block_base_mono(*f, b as int, n as int);
                }
                return None;
            }
            position += 1;
            x += 1;
        }
        proof {
            assert(position_list(*f, b as int + 1) =~= position_list(*f, b as int) + Seq::new((len + 1) as nat,
                |y: int| ((f.blocks@[b as int].id, y as usize), Pos((block_base(*f, b as int) + y) as u32))));
            if ids_distinct(*f) {
                assert(position_list(*f, b as int + 1) =~= start + Seq::new((len + 1) as nat,
                    |y: int| ((f.blocks@[b as int].id, y as usize), Pos((block_base(*f, b as int) + y) as u32))));
            }
        }
        b += 1;
    }
    Some((positions, bases))
}

/// The keys listed for the first `m` blocks name those blocks.
proof fn lemma_position_list_keys(f: Function, m: int, j: int)
    requires
        ids_distinct(f),
        0 <= m < f.blocks@.len(),
        0 <= j < position_list(f, m).len(),
    ensures
        position_list(f, m)[j].0.0 != f.blocks@[m].id,
    decreases m,
{
    if m > 0 {
        let prev = position_list(f, m - 1);
        if j < prev.len() {
            lemma_position_list_keys_below(f, m - 1, j, m);
        } else {
            assert(position_list(f, m)[j].0.0 == f.blocks@[m - 1].id);
        }
    }
}

/// The keys listed for the first `m + 1` blocks name one of them.
proof fn lemma_position_list_keys_below(f: Function, m: int, j: int, other: int)
    requires
        ids_distinct(f),
        0 <= m < other < f.blocks@.len(),
        0 <= j < position_list(f, m).len(),
    ensures
        position_list(f, m)[j].0.0 != f.blocks@[other].id,
    decreases m,
{
    if m > 0 {
        let prev = position_list(f, m - 1);
        if j < prev.len() {
            lemma_position_list_keys_below(f, m - 1, j, other);
        } else {
            assert(position_list(f, m)[j].0.0 == f.blocks@[m - 1].id);
        }
    }
}

/// The first phi input, in layout order, whose predecessor names no block.
fn first_bad_phi_pred(f: &Function) -> (r: Option<BlockId>)
    ensures
        r is None <==> phi_preds_known(*f),
        r matches Some(p) ==> is_first_bad_phi_pred(*f, p),
{
    let n = f.blocks.len();
    let mut s: usize = 0;
    while s < n
        invariant
            n == f.blocks@.len(),
            s <= n,
            forall|s2: int, x2: int, y2: int| 0 <= s2 < s && 0 <= x2 < f.blocks@[s2].insts@.len()
                && 0 <= y2 < spec_phi_inputs(inst_at(*f, s2, x2)).len()
                ==> f.has_block((#[trigger] spec_phi_inputs(inst_at(*f, s2, x2))[y2]).0),
        decreases n - s,
    {
        let block = &f.blocks[s];
        let mut x: usize = 0;
        while x < block.insts.len()
            invariant
                n == f.blocks@.len(),
                s < n,
                block == f.blocks@[s as int],
                x <= block.insts@.len(),
                forall|s2: int, x2: int, y2: int| 0 <= s2 < f.blocks@.len() && 0 <= x2 < f.blocks@[s2].insts@.len()
                    && 0 <= y2 < spec_phi_inputs(inst_at(*f, s2, x2)).len() && (s2 < s || (s2 == s && x2 < x))
                    ==> f.has_block((#[trigger] spec_phi_inputs(inst_at(*f, s2, x2))[y2]).0),
            decreases block.insts.len() - x,
        {
            let inst = &block.insts[x];
            assert(*inst == inst_at(*f, s as int, x as int));
            if let Inst::PhiI64 { incoming, .. } = inst {
                let inc = incoming.to_vec();
                assert(inc@ == spec_phi_inputs(inst_at(*f, s as int, x as int)));
                let mut y: usize = 0;
                while y < inc.len()
                    invariant
                        n == f.blocks@.len(),
                        s < n,
                        block == f.blocks@[s as int],
                        x < block.insts@.len(),
                        inc@ == spec_phi_inputs(inst_at(*f, s as int, x as int)),
                        y <= inc@.len(),
                        forall|s2: int, x2: int, y2: int| 0 <= s2 < f.blocks@.len() && 0 <= x2 < f.blocks@[s2].insts@.len()
                            && 0 <= y2 < spec_phi_inputs(inst_at(*f, s2, x2)).len() && input_pos_before(s2, x2, y2, s as int, x as int, y as int)
                            ==> f.has_block((#[trigger] spec_phi_inputs(inst_at(*f, s2, x2))[y2]).0),
                    decreases inc.len() - y,
                {
                    let pid = inc[y].0;
                    proof { lemma_first_block_index(f.blocks@, pid); }
                    if f.find_block(pid).is_none() {
                        proof {
                            assert(spec_phi_inputs(inst_at(*f, s as int, x as int))[y as int].0 == pid);
                            assert(!f.has_block(pid));
                        }
                        return Some(pid);
                    }
                    y += 1;
                }
            }
            x += 1;
        }
        s += 1;
    }
    None
}

/// A touch reads a value of the function.
proof fn lemma_touch_mentioned(f: Function, c: LiveCore, v: VReg, p: int)
    requires
        core_ok(f, c),
        touches(f, v, p),
    ensures
        c.u@.contains(v),
{
    if touch_inst(f, v, p) {
        let (b, x) = choose|b: int, x: int| 0 <= b < f.blocks@.len() && 0 <= x < f.blocks@[b].insts@.len() && p == pos_of(f, b, x)
            && (spec_def(#[trigger] inst_at(f, b, x)) == v || (!is_phi(inst_at(f, b, x)) && spec_uses(inst_at(f, b, x)).contains(v)));
        assert(mentioned(f, v));
    } else if touch_term(f, v, p) {
        let b = choose|b: int| 0 <= b < f.blocks@.len() && p == #[trigger] pos_of(f, b, f.blocks@[b].insts@.len() as int)
            && (spec_term_uses(f.blocks@[b].term).contains(v) || live_fix(f).1[b].contains(v));
        if spec_term_uses(f.blocks@[b].term).contains(v) {
            assert(mentioned(f, v));
        } else {
            assert(set_of(c.u@, mat(c.lout@)[b]).contains(v));
        }
    } else if touch_entry(f, v, p) {
        let b = choose|b: int| 0 <= b < f.blocks@.len() && p == #[trigger] block_base(f, b) && live_fix(f).0[b].contains(v);
        assert(set_of(c.u@, mat(c.lin@)[b]).contains(v));
    } else {
        let (s, x, y) = choose|s: int, x: int, y: int| 0 <= s < f.blocks@.len() && 0 <= x < f.blocks@[s].insts@.len()
            && 0 <= y < spec_phi_inputs(inst_at(f, s, x)).len()
            && (#[trigger] spec_phi_inputs(inst_at(f, s, x))[y]).1 == v
            && phi_pred_pos(f, spec_phi_inputs(inst_at(f, s, x))[y].0) == p;
        lemma_phi_input_used(inst_at(f, s, x), y);
        assert(mentioned(f, v));
    }
}

/// The touches recorded so far are touches.
pub open spec fn events_sound(f: Function, ev: Seq<(u32, VReg)>) -> bool {
    forall|i: int| 0 <= i < ev.len() ==> touches(f, (#[trigger] ev[i]).1, ev[i].0 as int)
}

/// The touch `(p, v)` is recorded.
pub open spec fn recorded(ev: Seq<(u32, VReg)>, v: VReg, p: int) -> bool {
    exists|i: int| 0 <= i < ev.len() && (#[trigger] ev[i]).1 == v && ev[i].0 as int == p
}

pub proof fn lemma_recorded_push(ev: Seq<(u32, VReg)>, e: (u32, VReg))
    ensures
        recorded(ev.push(e), e.1, e.0 as int),
        forall|v: VReg, p: int| recorded(ev, v, p) ==> #[trigger] recorded(ev.push(e), v, p),
{
    assert(ev.push(e)[ev.len() as int] == e);
    assert forall|v: VReg, p: int| recorded(ev, v, p) implies #[trigger] recorded(ev.push(e), v, p) by {
        let i = choose|i: int| 0 <= i < ev.len() && (#[trigger] ev[i]).1 == v && ev[i].0 as int == p;
        assert(ev.push(e)[i] == ev[i]);
    }
}

/// The block starts are the numbered positions, which fit in a `u32`.
pub open spec fn bases_ok(f: Function, bases: Seq<u32>) -> bool {
    &&& bases.len() == f.blocks@.len()
    &&& forall|b: int| 0 <= b < f.blocks@.len() ==> bases[b] == #[trigger] block_base(f, b)
    &&& block_base(f, f.blocks@.len() as int) <= u32::MAX
}

/// Records where instructions define and read values.
fn record_inst_touches(f: &Function, bases: &Vec<u32>, ev: &mut Vec<(u32, VReg)>)
    requires
        bases_ok(*f, bases@),
        events_sound(*f, old(ev)@),
    ensures
        events_sound(*f, final(ev)@),
        forall|v: VReg, p: int| recorded(old(ev)@, v, p) ==> #[trigger] recorded(final(ev)@, v, p),
        forall|v: VReg, p: int| touch_inst(*f, v, p) ==> #[trigger] recorded(final(ev)@, v, p),
{
    let ghost ev0 = ev@;
    let n = f.blocks.len();
    let mut b: usize = 0;
    while b < n
        invariant
            n == f.blocks@.len(),
            b <= n,
            bases_ok(*f, bases@),
            events_sound(*f, ev@),
            forall|v: VReg, p: int| recorded(ev0, v, p) ==> #[trigger] recorded(ev@, v, p),
            forall|b2: int, x2: int, v: VReg| #![trigger recorded(ev@, v, pos_of(*f, b2, x2))] 0 <= b2 < b && 0 <= x2 < f.blocks@[b2].insts@.len()
                && (spec_def(inst_at(*f, b2, x2)) == v || (!is_phi(inst_at(*f, b2, x2)) && spec_uses(inst_at(*f, b2, x2)).contains(v)))
                ==> recorded(ev@, v, pos_of(*f, b2, x2)),
        decreases n - b,
    {
        let block = &f.blocks[b];
        proof { lemma_block_base_mono(*f, b as int, n as int); }
        let mut x: usize = 0;
        while x < block.insts.len()
            invariant
                n == f.blocks@.len(),
                b < n,
                block == f.blocks@[b as int],
                x <= block.insts@.len(),
                bases_ok(*f, bases@),
                block_base(*f, b as int) + block.insts@.len() + 1 <= block_base(*f, n as int),
                events_sound(*f, ev@),
                forall|v: VReg, p: int| recorded(ev0, v, p) ==> #[trigger] recorded(ev@, v, p),
                forall|b2: int, x2: int, v: VReg| #![trigger recorded(ev@, v, pos_of(*f, b2, x2))] 0 <= b2 < n && 0 <= x2 < f.blocks@[b2].insts@.len() && (b2 < b || (b2 == b && x2 < x))
                    && (spec_def(inst_at(*f, b2, x2)) == v || (!is_phi(inst_at(*f, b2, x2)) && spec_uses(inst_at(*f, b2, x2)).contains(v)))
                    ==> recorded(ev@, v, pos_of(*f, b2, x2)),
            decreases block.insts.len() - x,
        {
            let inst = &block.insts[x];
            assert(*inst == inst_at(*f, b as int, x as int));
            let pos = bases[b] + x as u32;
            let d = defs(inst).unwrap();
            let ghost e1 = ev@;
            ev.push((pos, d));
            proof {
                lemma_recorded_push(e1, (pos, d));
                assert(touch_inst(*f, d, pos as int));
                assert forall|i: int| 0 <= i < ev@.len() implies touches(*f, (#[trigger] ev@[i]).1, ev@[i].0 as int) by {
                    if i < e1.len() { assert(ev@[i] == e1[i]); }
                }
            }
            let is_phi_inst = match inst { Inst::PhiI64 { .. } => true, _ => false };
            if !is_phi_inst {
                let us = uses(inst).to_vec();
                let mut y: usize = 0;
                while y < us.len()
                    invariant
                        n == f.blocks@.len(),
                        b < n,
                        x < f.blocks@[b as int].insts@.len(),
                        *inst == inst_at(*f, b as int, x as int),
                        !is_phi(*inst),
                        us@ == spec_uses(*inst),
                        pos as int == pos_of(*f, b as int, x as int),
                        y <= us@.len(),
                        events_sound(*f, ev@),
                        recorded(ev@, d, pos as int),
                        forall|q: int| 0 <= q < y ==> #[trigger] recorded(ev@, us@[q], pos as int),
                        forall|v: VReg, p: int| recorded(ev0, v, p) ==> #[trigger] recorded(ev@, v, p),
                        forall|b2: int, x2: int, v: VReg| #![trigger recorded(ev@, v, pos_of(*f, b2, x2))] 0 <= b2 < n && 0 <= x2 < f.blocks@[b2].insts@.len() && (b2 < b || (b2 == b && x2 < x))
                            && (spec_def(inst_at(*f, b2, x2)) == v || (!is_phi(inst_at(*f, b2, x2)) && spec_uses(inst_at(*f, b2, x2)).contains(v)))
                            ==> recorded(ev@, v, pos_of(*f, b2, x2)),
                    decreases us.len() - y,
                {
                    let ghost e2 = ev@;
                    ev.push((pos, us[y]));
                    proof {
                        lemma_recorded_push(e2, (pos, us@[y as int]));
                        assert(touch_inst(*f, us@[y as int], pos as int));
                        assert forall|i: int| 0 <= i < ev@.len() implies touches(*f, (#[trigger] ev@[i]).1, ev@[i].0 as int) by {
                            if i < e2.len() { assert(ev@[i] == e2[i]); }
                        }
                        assert forall|q: int| 0 <= q < y + 1 implies #[trigger] recorded(ev@, us@[q], pos as int) by {
                            if q < y { assert(recorded(e2, us@[q], pos as int)); }
                        }
                    }
                    y += 1;
                }
                proof {
                    assert forall|v: VReg| spec_uses(*inst).contains(v) implies recorded(ev@, v, pos as int) by {
                        let q = choose|q: int| 0 <= q < us@.len() && us@[q] == v;
                        assert(recorded(ev@, us@[q], pos as int));
                    }
                }
            }
            proof {
                assert forall|b2: int, x2: int, v: VReg| 0 <= b2 < n && 0 <= x2 < f.blocks@[b2].insts@.len() && (b2 < b || (b2 == b && x2 < x + 1))
                    && (spec_def(inst_at(*f, b2, x2)) == v || (!is_phi(inst_at(*f, b2, x2)) && spec_uses(inst_at(*f, b2, x2)).contains(v)))
                    implies recorded(ev@, v, pos_of(*f, b2, x2)) by {
                }
            }
            x += 1;
        }
        b += 1;
    }
}

/// Records where terminators read values, and where values are live into and out of blocks.
fn record_block_touches(f: &Function, c: &LiveCore, bases: &Vec<u32>, ev: &mut Vec<(u32, VReg)>)
    requires
        core_ok(*f, *c),
        bases_ok(*f, bases@),
        events_sound(*f, old(ev)@),
    ensures
        events_sound(*f, final(ev)@),
        forall|v: VReg, p: int| recorded(old(ev)@, v, p) ==> #[trigger] recorded(final(ev)@, v, p),
        forall|v: VReg, p: int| touch_term(*f, v, p) || touch_entry(*f, v, p) ==> #[trigger] recorded(final(ev)@, v, p),
{
    let ghost ev0 = ev@;
    let n = f.blocks.len();
    let m = c.u.len();
    let mut b: usize = 0;
    while b < n
        invariant
            n == f.blocks@.len(),
            m == c.u@.len(),
            b <= n,
            core_ok(*f, *c),
            bases_ok(*f, bases@),
            events_sound(*f, ev@),
            forall|v: VReg, p: int| recorded(ev0, v, p) ==> #[trigger] recorded(ev@, v, p),
            forall|b2: int, v: VReg| 0 <= b2 < b && (spec_term_uses(f.blocks@[b2].term).contains(v) || live_fix(*f).1[b2].contains(v))
                ==> #[trigger] recorded(ev@, v, pos_of(*f, b2, f.blocks@[b2].insts@.len() as int)),
            forall|b2: int, v: VReg| 0 <= b2 < b && live_fix(*f).0[b2].contains(v) ==> #[trigger] recorded(ev@, v, block_base(*f, b2)),
        decreases n - b,
    {
        let block = &f.blocks[b];
        proof { lemma_block_base_mono(*f, b as int, n as int); }
        let start = bases[b];
        let tp = bases[b] + block.insts.len() as u32;
        let tv = term_uses(&block.term).to_vec();
        let mut y: usize = 0;
        while y < tv.len()
            invariant
                n == f.blocks@.len(),
                b < n,
                block == f.blocks@[b as int],
                tv@ == spec_term_uses(block.term),
                tp as int == pos_of(*f, b as int, block.insts@.len() as int),
                y <= tv@.len(),
                events_sound(*f, ev@),
                forall|q: int| 0 <= q < y ==> #[trigger] recorded(ev@, tv@[q], tp as int),
                forall|v: VReg, p: int| recorded(ev0, v, p) ==> #[trigger] recorded(ev@, v, p),
                forall|b2: int, v: VReg| 0 <= b2 < b && (spec_term_uses(f.blocks@[b2].term).contains(v) || live_fix(*f).1[b2].contains(v))
                    ==> #[trigger] recorded(ev@, v, pos_of(*f, b2, f.blocks@[b2].insts@.len() as int)),
                forall|b2: int, v: VReg| 0 <= b2 < b && live_fix(*f).0[b2].contains(v) ==> #[trigger] recorded(ev@, v, block_base(*f, b2)),
            decreases tv.len() - y,
        {
            let ghost e1 = ev@;
            ev.push((tp, tv[y]));
            proof {
                lemma_recorded_push(e1, (tp, tv@[y as int]));
                assert(touch_term(*f, tv@[y as int], tp as int));
                assert forall|i: int| 0 <= i < ev@.len() implies touches(*f, (#[trigger] ev@[i]).1, ev@[i].0 as int) by {
                    if i < e1.len() { assert(ev@[i] == e1[i]); }
                }
                assert forall|q: int| 0 <= q < y + 1 implies #[trigger] recorded(ev@, tv@[q], tp as int) by {
                    if q < y { assert(recorded(e1, tv@[q], tp as int)); }
                }
            }
            y += 1;
        }
        let mut k: usize = 0;
        assert(mat(c.lin@)[b as int] == c.lin@[b as int]@);
        assert(mat(c.lout@)[b as int] == c.lout@[b as int]@);
        while k < m
            invariant
                n == f.blocks@.len(),
                m == c.u@.len(),
                b < n,
                core_ok(*f, *c),
                block == f.blocks@[b as int],
                tv@ == spec_term_uses(block.term),
                tp as int == pos_of(*f, b as int, block.insts@.len() as int),
                start as int == block_base(*f, b as int),
                mat(c.lin@)[b as int] == c.lin@[b as int]@,
                mat(c.lout@)[b as int] == c.lout@[b as int]@,
                k <= m,
                events_sound(*f, ev@),
                forall|q: int| 0 <= q < tv@.len() ==> #[trigger] recorded(ev@, tv@[q], tp as int),
                forall|q: int| 0 <= q < k && c.lout@[b as int]@[q] ==> #[trigger] recorded(ev@, c.u@[q], tp as int),
                forall|q: int| 0 <= q < k && c.lin@[b as int]@[q] ==> #[trigger] recorded(ev@, c.u@[q], start as int),
                forall|v: VReg, p: int| recorded(ev0, v, p) ==> #[trigger] recorded(ev@, v, p),
                forall|b2: int, v: VReg| 0 <= b2 < b && (spec_term_uses(f.blocks@[b2].term).contains(v) || live_fix(*f).1[b2].contains(v))
                    ==> #[trigger] recorded(ev@, v, pos_of(*f, b2, f.blocks@[b2].insts@.len() as int)),
                forall|b2: int, v: VReg| 0 <= b2 < b && live_fix(*f).0[b2].contains(v) ==> #[trigger] recorded(ev@, v, block_base(*f, b2)),
            decreases m - k,
        {
            let v = c.u[k];
            if c.lout[b][k] {
                let ghost e1 = ev@;
                ev.push((tp, v));
                proof {
                    lemma_recorded_push(e1, (tp, v));
                    assert(set_of(c.u@, mat(c.lout@)[b as int]).contains(v));
                    assert(touch_term(*f, v, tp as int));
                    assert forall|i: int| 0 <= i < ev@.len() implies touches(*f, (#[trigger] ev@[i]).1, ev@[i].0 as int) by {
                        if i < e1.len() { assert(ev@[i] == e1[i]); }
                    }
                }
            }
            if c.lin[b][k] {
                let ghost e1 = ev@;
                ev.push((start, v));
                proof {
                    lemma_recorded_push(e1, (start, v));
                    assert(set_of(c.u@, mat(c.lin@)[b as int]).contains(v));
                    assert(touch_entry(*f, v, start as int));
                    assert forall|i: int| 0 <= i < ev@.len() implies touches(*f, (#[trigger] ev@[i]).1, ev@[i].0 as int) by {
                        if i < e1.len() { assert(ev@[i] == e1[i]); }
                    }
                }
            }
            k += 1;
        }
        proof {
            assert forall|b2: int, v: VReg| 0 <= b2 < b + 1 && (spec_term_uses(f.blocks@[b2].term).contains(v) || live_fix(*f).1[b2].contains(v))
                implies #[trigger] recorded(ev@, v, pos_of(*f, b2, f.blocks@[b2].insts@.len() as int)) by {
                if b2 == b {
                    if spec_term_uses(f.blocks@[b2].term).contains(v) {
                        let q = choose|q: int| 0 <= q < tv@.len() && tv@[q] == v;
                        assert(recorded(ev@, tv@[q], tp as int));
                    } else {
                        assert(set_of(c.u@, mat(c.lout@)[b as int]).contains(v));
                        let q = choose|q: int| 0 <= q < c.u@.len() && #[trigger] c.u@[q] == v && mat(c.lout@)[b as int][q];
                        assert(recorded(ev@, c.u@[q], tp as int));
                    }
                }
            }
            assert forall|b2: int, v: VReg| 0 <= b2 < b + 1 && live_fix(*f).0[b2].contains(v) implies #[trigger] recorded(ev@, v, block_base(*f, b2)) by {
                if b2 == b {
                    assert(set_of(c.u@, mat(c.lin@)[b as int]).contains(v));
                    let q = choose|q: int| 0 <= q < c.u@.len() && #[trigger] c.u@[q] == v && mat(c.lin@)[b as int][q];
                    assert(recorded(ev@, c.u@[q], start as int));
                }
            }
        }
        b += 1;
    }
}

/// Records where phis take values from their predecessors.
fn record_phi_touches(f: &Function, bases: &Vec<u32>, ev: &mut Vec<(u32, VReg)>)
    requires
        bases_ok(*f, bases@),
        phi_preds_known(*f),
        events_sound(*f, old(ev)@),
    ensures
        events_sound(*f, final(ev)@),
        forall|v: VReg, p: int| recorded(old(ev)@, v, p) ==> #[trigger] recorded(final(ev)@, v, p),
        forall|v: VReg, p: int| touch_phi(*f, v, p) ==> #[trigger] recorded(final(ev)@, v, p),
{
    let ghost ev0 = ev@;
    let n = f.blocks.len();
    let mut s: usize = 0;
    while s < n
        invariant
            n == f.blocks@.len(),
            s <= n,
            bases_ok(*f, bases@),
            phi_preds_known(*f),
            events_sound(*f, ev@),
            forall|v: VReg, p: int| recorded(ev0, v, p) ==> #[trigger] recorded(ev@, v, p),
            forall|s2: int, x2: int, y2: int| 0 <= s2 < s && 0 <= x2 < f.blocks@[s2].insts@.len()
                && 0 <= y2 < spec_phi_inputs(inst_at(*f, s2, x2)).len()
                ==> recorded(ev@, (#[trigger] spec_phi_inputs(inst_at(*f, s2, x2))[y2]).1, phi_pred_pos(*f, spec_phi_inputs(inst_at(*f, s2, x2))[y2].0)),
        decreases n - s,
    {
        let block = &f.blocks[s];
        let mut x: usize = 0;
        while x < block.insts.len()
            invariant
                n == f.blocks@.len(),
                s < n,
                block == f.blocks@[s as int],
                x <= block.insts@.len(),
                bases_ok(*f, bases@),
                phi_preds_known(*f),
                events_sound(*f, ev@),
                forall|v: VReg, p: int| recorded(ev0, v, p) ==> #[trigger] recorded(ev@, v, p),
                forall|s2: int, x2: int, y2: int| 0 <= s2 < n && 0 <= x2 < f.blocks@[s2].insts@.len()
                    && 0 <= y2 < spec_phi_inputs(inst_at(*f, s2, x2)).len() && (s2 < s || (s2 == s && x2 < x))
                    ==> recorded(ev@, (#[trigger] spec_phi_inputs(inst_at(*f, s2, x2))[y2]).1, phi_pred_pos(*f, spec_phi_inputs(inst_at(*f, s2, x2))[y2].0)),
            decreases block.insts.len() - x,
        {
            let inst = &block.insts[x];
            assert(*inst == inst_at(*f, s as int, x as int));
            if let Inst::PhiI64 { incoming, .. } = inst {
                let inc = incoming.to_vec();
                assert(inc@ == spec_phi_inputs(inst_at(*f, s as int, x as int)));
                let mut y: usize = 0;
                while y < inc.len()
                    invariant
                        n == f.blocks@.len(),
                        s < n,
                        block == f.blocks@[s as int],
                        x < block.insts@.len(),
                        inc@ == spec_phi_inputs(inst_at(*f, s as int, x as int)),
                        y <= inc@.len(),
                        bases_ok(*f, bases@),
                        phi_preds_known(*f),
                        events_sound(*f, ev@),
                        forall|v: VReg, p: int| recorded(ev0, v, p) ==> #[trigger] recorded(ev@, v, p),
                        forall|y2: int| 0 <= y2 < y ==> recorded(ev@, (#[trigger] inc@[y2]).1, phi_pred_pos(*f, inc@[y2].0)),
                        forall|s2: int, x2: int, y2: int| 0 <= s2 < n && 0 <= x2 < f.blocks@[s2].insts@.len()
                            && 0 <= y2 < spec_phi_inputs(inst_at(*f, s2, x2)).len() && (s2 < s || (s2 == s && x2 < x))
                            ==> recorded(ev@, (#[trigger] spec_phi_inputs(inst_at(*f, s2, x2))[y2]).1, phi_pred_pos(*f, spec_phi_inputs(inst_at(*f, s2, x2))[y2].0)),
                    decreases inc.len() - y,
                {
                    let (pid, v) = inc[y];
                    proof {
                        lemma_first_block_index(f.blocks@, pid);
                        assert(f.has_block(spec_phi_inputs(inst_at(*f, s as int, x as int))[y as int].0));
                    }
                    let q = f.find_block(pid).unwrap();
                    proof { lemma_block_base_mono(*f, q as int, n as int); }
                    let tp = bases[q] + f.blocks[q].insts.len() as u32;
                    let ghost e1 = ev@;
                    ev.push((tp, v));
                    proof {
                        lemma_recorded_push(e1, (tp, v));
                        assert(spec_phi_inputs(inst_at(*f, s as int, x as int))[y as int] == (pid, v));
                        assert(touch_phi(*f, v, tp as int));
                        assert forall|i: int| 0 <= i < ev@.len() implies touches(*f, (#[trigger] ev@[i]).1, ev@[i].0 as int) by {
                            if i < e1.len() { assert(ev@[i] == e1[i]); }
                        }
                        assert forall|y2: int| 0 <= y2 < y + 1 implies recorded(ev@, (#[trigger] inc@[y2]).1, phi_pred_pos(*f, inc@[y2].0)) by {
                            if y2 < y { assert(recorded(e1, inc@[y2].1, phi_pred_pos(*f, inc@[y2].0))); }
                        }
                    }
                    y += 1;
                }
            }
            x += 1;
        }
        s += 1;
    }
}

/// The first and last recorded position of `v`, if it is recorded.
fn span_of(ev: &Vec<(u32, VReg)>, v: VReg) -> (r: Option<(u32, u32)>)
    ensures
        r is None <==> forall|i: int| 0 <= i < ev@.len() ==> (#[trigger] ev@[i]).1 != v,
        r matches Some(p) ==> recorded(ev@, v, p.0 as int) && recorded(ev@, v, p.1 as int)
            && forall|i: int| 0 <= i < ev@.len() && (#[trigger] ev@[i]).1 == v ==> p.0 <= ev@[i].0 <= p.1,
{
    let mut r: Option<(u32, u32)> = None;
    let mut i: usize = 0;
    while i < ev.len()
        invariant
            i <= ev@.len(),
            r is None <==> forall|q: int| 0 <= q < i ==> (#[trigger] ev@[q]).1 != v,
            r matches Some(p) ==> recorded(ev@, v, p.0 as int) && recorded(ev@, v, p.1 as int)
                && forall|q: int| 0 <= q < i && (#[trigger] ev@[q]).1 == v ==> p.0 <= ev@[q].0 <= p.1,
        decreases ev.len() - i,
    {
        let (p, w) = ev[i];
        if w == v {
            assert(recorded(ev@, v, p as int)) by { assert(ev@[i as int] == (p, w)); }
            r = match r {
                None => Some((p, p)),
                Some((lo, hi)) => Some((if p < lo { p } else { lo }, if p > hi { p } else { hi })),
            };
        }
        i += 1;
    }
    r
}

/// The live intervals of a function: for every value, the closed range from
/// its first to its last touch (a definition, a read, a phi input at the end of
/// its predecessor, or liveness into or out of a block), sorted by start, end
/// and value number; with the position of every instruction slot, keyed by block id
/// and slot (a block that repeats an earlier id overwrites the positions stored under
/// it, in their places). Fails as
/// liveness does, then when the positions overflow a `u32`, then on the first
/// phi input that names no block.
pub fn compute_live_intervals(f: &Function) -> (r: Result<LiveIntervals, IntervalError>)
    ensures
        !successors_known(*f) ==> (r matches Err(IntervalError::Liveness(e)) && is_last_unknown(*f, e)),
        successors_known(*f) && block_base(*f, f.blocks@.len() as int) > u32::MAX
            ==> r == Err::<LiveIntervals, IntervalError>(IntervalError::PositionOverflow),
        successors_known(*f) && block_base(*f, f.blocks@.len() as int) <= u32::MAX && !phi_preds_known(*f)
            ==> (r matches Err(IntervalError::UnknownPhiPredecessor(p)) && is_first_bad_phi_pred(*f, p)),
        r is Ok <==> successors_known(*f) && block_base(*f, f.blocks@.len() as int) <= u32::MAX && phi_preds_known(*f),
        r is Ok ==> live_least(*f, live_fix(*f).0, live_fix(*f).1),
        r matches Ok(li) ==> intervals_exact(*f, li.intervals@),
        r matches Ok(li) ==> pos_entries(li.positions) == entries_insert_all(position_list(*f, f.blocks@.len() as int)),
        r matches Ok(li) ==> (ids_distinct(*f) ==> pos_entries(li.positions) == position_list(*f, f.blocks@.len() as int)),
{
    if let Err(e) = check_successors_from_end(f) {
        return Err(IntervalError::Liveness(e));
    }
    let (positions, bases) = match number_positions(f) {
        Some(p) => p,
        None => {
            return Err(IntervalError::PositionOverflow);
        },
    };
    if let Some(p) = first_bad_phi_pred(f) {
        return Err(IntervalError::UnknownPhiPredecessor(p));
    }
    let c = liveness_core(f);
    let mut ev: Vec<(u32, VReg)> = Vec::new();
    record_inst_touches(f, &bases, &mut ev);
    record_block_touches(f, &c, &bases, &mut ev);
    record_phi_touches(f, &bases, &mut ev);
    let ghost evs = ev@;
    proof {
        assert forall|v: VReg, p: int| touches(*f, v, p) implies #[trigger] recorded(evs, v, p) by {}
    }
    let mut ivs: Vec<LiveInterval> = Vec::new();
    let mut k: usize = 0;
    while k < c.u.len()
        invariant
            core_ok(*f, c),
            ev@ == evs,
            events_sound(*f, evs),
            forall|v: VReg, p: int| touches(*f, v, p) ==> #[trigger] recorded(evs, v, p),
            k <= c.u@.len(),
            forall|i: int| 0 <= i < ivs@.len() ==> {
                let iv = #[trigger] ivs@[i];
                &&& touches(*f, iv.v, iv.start.0 as int)
                &&& touches(*f, iv.v, iv.end.0 as int)
                &&& forall|p: int| touches(*f, iv.v, p) ==> iv.start.0 <= p <= iv.end.0
            },
            forall|i: int| 0 <= i < ivs@.len() ==> exists|q: int| 0 <= q < k && (#[trigger] ivs@[i]).v == c.u@[q],
            forall|i: int, j: int| 0 <= i < j < ivs@.len() ==> ivs@[i].v != ivs@[j].v,
            forall|q: int| 0 <= q < k && touched(*f, #[trigger] c.u@[q]) ==> exists|i: int| 0 <= i < ivs@.len() && ivs@[i].v == c.u@[q],
        decreases c.u.len() - k,
    {
        let v = c.u[k];
        match span_of(&ev, v) {
            Some((lo, hi)) => {
                let ghost iv0 = ivs@;
                ivs.push(LiveInterval { v, start: Pos(lo), end: Pos(hi) });
                proof {
                    let i1 = choose|i: int| 0 <= i < evs.len() && (#[trigger] evs[i]).1 == v && evs[i].0 as int == lo as int;
                    let i2 = choose|i: int| 0 <= i < evs.len() && (#[trigger] evs[i]).1 == v && evs[i].0 as int == hi as int;
                    assert(touches(*f, evs[i1].1, evs[i1].0 as int));
                    assert(touches(*f, evs[i2].1, evs[i2].0 as int));
                    assert forall|p: int| touches(*f, v, p) implies lo <= p <= hi by {
                        assert(recorded(evs, v, p));
                        let i = choose|i: int| 0 <= i < evs.len() && (#[trigger] evs[i]).1 == v && evs[i].0 as int == p;
                    }
                    assert forall|i: int, j: int| 0 <= i < j < ivs@.len() implies ivs@[i].v != ivs@[j].v by {
                        if j == ivs@.len() - 1 {
                            let q = choose|q: int| 0 <= q < k && (#[trigger] iv0[i]).v == c.u@[q];
                            assert(ivs@[i] == iv0[i]);
                            assert(c.u@.no_duplicates());
                        } else {
                            assert(ivs@[i] == iv0[i] && ivs@[j] == iv0[j]);
                        }
                    }
                    assert forall|i: int| 0 <= i < ivs@.len() implies exists|q: int| 0 <= q < k + 1 && (#[trigger] ivs@[i]).v == c.u@[q] by {
                        if i < iv0.len() {
                            assert(ivs@[i] == iv0[i]);
                            let q = choose|q: int| 0 <= q < k && (#[trigger] iv0[i]).v == c.u@[q];
                        } else {
                            assert(ivs@[i].v == c.u@[k as int]);
                        }
                    }
                    assert forall|q: int| 0 <= q < k + 1 && touched(*f, #[trigger] c.u@[q]) implies exists|i: int| 0 <= i < ivs@.len() && ivs@[i].v == c.u@[q] by {
                        if q < k {
                            let i = choose|i: int| 0 <= i < iv0.len() && iv0[i].v == c.u@[q];
                            assert(ivs@[i] == iv0[i]);
                        } else {
                            assert(ivs@[ivs@.len() - 1].v == c.u@[q]);
                        }
                    }
                }
            },
            None => {
                proof {
                    if touched(*f, v) {
                        let p = choose|p: int| touches(*f, v, p);
                        assert(recorded(evs, v, p));
                        let i = choose|i: int| 0 <= i < evs.len() && (#[trigger] evs[i]).1 == v && evs[i].0 as int == p;
                    }
                    assert forall|i: int| 0 <= i < ivs@.len() implies exists|q: int| 0 <= q < k + 1 && (#[trigger] ivs@[i]).v == c.u@[q] by {
                        let q = choose|q: int| 0 <= q < k && (#[trigger] ivs@[i]).v == c.u@[q];
                    }
                }
            },
        }
        k += 1;
    }
    let ghost unsorted = ivs@;
    sort_intervals(&mut ivs);
    proof {
        let sorted = ivs@;
        assert(unsorted.no_duplicates()) by {
            assert forall|i: int, j: int| 0 <= i < j < unsorted.len() implies unsorted[i] != unsorted[j] by {
                assert(unsorted[i].v != unsorted[j].v);
            }
        }
        lemma_permutation(unsorted, sorted);
        {
            assert forall|i: int| 0 <= i < sorted.len() implies {
                let iv = #[trigger] sorted[i];
                &&& touches(*f, iv.v, iv.start.0 as int)
                &&& touches(*f, iv.v, iv.end.0 as int)
                &&& forall|p: int| touches(*f, iv.v, p) ==> iv.start.0 <= p <= iv.end.0
            } by {
                assert(sorted.contains(sorted[i]));
                let j = choose|j: int| 0 <= j < unsorted.len() && unsorted[j] == sorted[i];
                assert(unsorted[j] == sorted[i]);
            }
            assert forall|v: VReg| touched(*f, v) implies exists|i: int| 0 <= i < sorted.len() && (#[trigger] sorted[i]).v == v by {
                let p = choose|p: int| touches(*f, v, p);
                lemma_touch_mentioned(*f, c, v, p);
                let q = choose|q: int| 0 <= q < c.u@.len() && c.u@[q] == v;
                assert(touched(*f, c.u@[q]));
                let j = choose|j: int| 0 <= j < unsorted.len() && unsorted[j].v == c.u@[q];
                assert(unsorted.contains(unsorted[j]));
                assert(sorted.contains(unsorted[j]));
                let i = choose|i: int| 0 <= i < sorted.len() && sorted[i] == unsorted[j];
                assert(sorted[i].v == v);
            }
            assert forall|i: int, j: int| 0 <= i < j < sorted.len() implies sorted[i].v != sorted[j].v by {
                assert(sorted.contains(sorted[i]));
                assert(sorted.contains(sorted[j]));
                let a = choose|a: int| 0 <= a < unsorted.len() && unsorted[a] == sorted[i];
                let b = choose|b: int| 0 <= b < unsorted.len() && unsorted[b] == sorted[j];
                assert(sorted[i] != sorted[j]);
                if a != b {
                    if a < b { assert(unsorted[a].v != unsorted[b].v); } else { assert(unsorted[b].v != unsorted[a].v); }
                }
            }
        }
    }
    Ok(LiveIntervals { intervals: ivs, positions })
}

/// The first interval of `v`, if any.
pub fn interval_of(intervals: &Vec<LiveInterval>, v: VReg) -> (r: Option<LiveInterval>)
    ensures
        match r {
            Some(iv) => exists|i: int| 0 <= i < intervals@.len() && intervals@[i] == iv && iv.v == v
                && forall|j: int| 0 <= j < i ==> (#[trigger] intervals@[j]).v != v,
            None => forall|i: int| 0 <= i < intervals@.len() ==> (#[trigger] intervals@[i]).v != v,
        },
{
    let mut i: usize = 0;
    while i < intervals.len()
        invariant
            i <= intervals@.len(),
            forall|j: int| 0 <= j < i ==> (#[trigger] intervals@[j]).v != v,
        decreases intervals.len() - i,
    {
        if intervals[i].v == v {
            return Some(intervals[i]);
        }
        i += 1;
    }
    None
}

} // verus!
