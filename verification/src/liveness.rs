//! Block-level liveness: the least solution of the liveness equations, with
//! phi inputs live only on their own edges and phi results defined at block entry.
use vstd::prelude::*;
use crate::ir::{Function, Inst, BlockId, VReg, spec_def, spec_uses, spec_term_uses, spec_phi_inputs, is_phi, uses, term_uses, defs};
use crate::regalloc::contains_vreg;
use crate::collections::set_insert;
use crate::cfg::{
    edge, has_edge_at, row_count, mat_count, mat, lemma_row_count_le, lemma_row_count_bound, lemma_mat_update,
    CfgError, successors_known, is_last_unknown, check_successors_from_end, keyed_by_blocks, ids_distinct,
};
use crate::collections::{
    vreg_set_items, vreg_set_new, vreg_set_insert, liveness_entries, liveness_map_new, liveness_map_insert,
    block_vregs_entries, block_vregs_new, block_vregs_insert, edge_vregs_entries, edge_vregs_new, edge_vregs_insert,
    has_key, value_at, keys_distinct, lemma_entries_insert, lemma_key_index, key_index,
};
use crate::validation::inst_at;
use indexmap::{IndexMap, IndexSet};

verus! {

/// The liveness sets of one block.
#[derive(Debug)]
pub struct BlockLiveness {
    pub live_in: IndexSet<VReg>,
    pub live_out: IndexSet<VReg>,
    pub use_set: IndexSet<VReg>,
    pub def_set: IndexSet<VReg>,
}

/// The liveness of every block, with the values phis define and take on each edge.
#[derive(Debug)]
pub struct Liveness {
    pub per_block: IndexMap<BlockId, BlockLiveness>,
    /// The values defined by the phis of each block that has phis.
    pub phi_defs: IndexMap<BlockId, IndexSet<VReg>>,
    /// For each `(predecessor, block)`, the values that the phis of `block` take from `predecessor`.
    pub phi_uses: IndexMap<(BlockId, BlockId), IndexSet<VReg>>,
}

// ---------------------------------------------------------------------------
// The liveness equations over sets of values.

/// The values defined in block `b`.
pub open spec fn def_set(f: Function, b: int) -> Set<VReg> {
    Set::new(|v: VReg| exists|x: int| 0 <= x < f.blocks@[b].insts@.len() && #[trigger] spec_def(inst_at(f, b, x)) == v)
}

/// Some instruction before `x` in block `b` defines `v`.
pub open spec fn def_before(f: Function, b: int, x: int, v: VReg) -> bool {
    exists|x2: int| 0 <= x2 < x && #[trigger] spec_def(inst_at(f, b, x2)) == v
}

/// The values block `b` reads before defining them: operands of non-phi
/// instructions and of the terminator.
pub open spec fn use_set(f: Function, b: int) -> Set<VReg> {
    Set::new(|v: VReg|
        (exists|x: int| 0 <= x < f.blocks@[b].insts@.len() && !is_phi(inst_at(f, b, x))
            && #[trigger] spec_uses(inst_at(f, b, x)).contains(v) && !def_before(f, b, x, v))
        || (spec_term_uses(f.blocks@[b].term).contains(v) && !def_set(f, b).contains(v)))
}

/// The values defined by the phis of block `s`.
pub open spec fn phi_def_set(f: Function, s: int) -> Set<VReg> {
    Set::new(|v: VReg| exists|x: int| 0 <= x < f.blocks@[s].insts@.len() && is_phi(inst_at(f, s, x))
        && #[trigger] spec_def(inst_at(f, s, x)) == v)
}

/// The values that the phis of block `s` take on the edge from block `b`.
pub open spec fn phi_use_set(f: Function, b: int, s: int) -> Set<VReg> {
    Set::new(|v: VReg| exists|x: int, y: int| 0 <= x < f.blocks@[s].insts@.len()
        && 0 <= y < spec_phi_inputs(inst_at(f, s, x)).len()
        && #[trigger] spec_phi_inputs(inst_at(f, s, x))[y] == (f.blocks@[b].id, v))
}

/// Live out of `b`: what each successor needs on entry, except its phi
/// results, and the values its phis take on the edge from `b`.
pub open spec fn out_step(f: Function, lin: Seq<Set<VReg>>, b: int) -> Set<VReg> {
    Set::new(|v: VReg| exists|s: int| 0 <= s < f.blocks@.len() && #[trigger] edge(f, b, s)
        && ((lin[s].contains(v) && !phi_def_set(f, s).contains(v)) || phi_use_set(f, b, s).contains(v)))
}

/// Live in of `b`: what it reads before defining, and what is live out and not defined in it.
pub open spec fn in_step(f: Function, lout: Seq<Set<VReg>>, b: int) -> Set<VReg> {
    use_set(f, b).union(lout[b].difference(def_set(f, b)))
}

/// `(lin, lout)` solves the liveness equations.
pub open spec fn live_solution(f: Function, lin: Seq<Set<VReg>>, lout: Seq<Set<VReg>>) -> bool {
    &&& lin.len() == f.blocks@.len()
    &&& lout.len() == f.blocks@.len()
    &&& forall|b: int| 0 <= b < f.blocks@.len() ==> #[trigger] lin[b] == in_step(f, lout, b)
    &&& forall|b: int| 0 <= b < f.blocks@.len() ==> #[trigger] lout[b] == out_step(f, lin, b)
}

/// `(lin, lout)` contains what the equations give for it.
pub open spec fn live_pre(f: Function, lin: Seq<Set<VReg>>, lout: Seq<Set<VReg>>) -> bool {
    &&& lin.len() == f.blocks@.len()
    &&& lout.len() == f.blocks@.len()
    &&& forall|b: int| 0 <= b < f.blocks@.len() ==> in_step(f, lout, b).subset_of(#[trigger] lin[b])
    &&& forall|b: int| 0 <= b < f.blocks@.len() ==> out_step(f, lin, b).subset_of(#[trigger] lout[b])
}

/// The least solution: it solves the equations and lies inside every pair that
/// contains what the equations give for it.
pub open spec fn live_least(f: Function, lin: Seq<Set<VReg>>, lout: Seq<Set<VReg>>) -> bool {
    &&& live_solution(f, lin, lout)
    &&& forall|a: Seq<Set<VReg>>, c: Seq<Set<VReg>>| #[trigger] live_pre(f, a, c) ==>
        forall|b: int| 0 <= b < f.blocks@.len() ==> (#[trigger] lin[b]).subset_of(a[b]) && lout[b].subset_of(c[b])
}

/// The liveness of a function: the least solution of its equations.
pub open spec fn live_fix(f: Function) -> (Seq<Set<VReg>>, Seq<Set<VReg>>) {
    choose|p: (Seq<Set<VReg>>, Seq<Set<VReg>>)| live_least(f, p.0, p.1)
}

pub proof fn lemma_live_fix_unique(f: Function, lin: Seq<Set<VReg>>, lout: Seq<Set<VReg>>)
    requires
        live_least(f, lin, lout),
    ensures
        live_fix(f) == (lin, lout),
{
    let w = (lin, lout);
    assert(live_least(f, w.0, w.1));
    let p = live_fix(f);
    assert(live_least(f, p.0, p.1));
    let n = f.blocks@.len() as int;
    assert(live_pre(f, lin, lout)) by {
        assert forall|b: int| 0 <= b < n implies in_step(f, lout, b).subset_of(#[trigger] lin[b]) by {}
        assert forall|b: int| 0 <= b < n implies out_step(f, lin, b).subset_of(#[trigger] lout[b]) by {}
    }
    assert(live_pre(f, p.0, p.1)) by {
        assert forall|b: int| 0 <= b < n implies in_step(f, p.1, b).subset_of(#[trigger] p.0[b]) by {}
        assert forall|b: int| 0 <= b < n implies out_step(f, p.0, b).subset_of(#[trigger] p.1[b]) by {}
    }
    assert forall|b: int| 0 <= b < n implies #[trigger] p.0[b] == lin[b] && p.1[b] == lout[b] by {
        assert(p.0[b].subset_of(lin[b]) && lin[b].subset_of(p.0[b]));
        assert(p.1[b].subset_of(lout[b]) && lout[b].subset_of(p.1[b]));
        assert(p.0[b] =~= lin[b]);
        assert(p.1[b] =~= lout[b]);
    }
    assert(p.0 =~= lin);
    assert(p.1 =~= lout);
}

// ---------------------------------------------------------------------------
// The equations over bit rows indexed by a list of values.

/// The values marked in `row`, out of `u`.
pub open spec fn set_of(u: Seq<VReg>, row: Seq<bool>) -> Set<VReg> {
    Set::new(|v: VReg| exists|k: int| 0 <= k < u.len() && #[trigger] u[k] == v && row[k])
}

/// Every value that the use sets and phi-edge sets can hold is listed in `u`.
pub open spec fn covers(f: Function, u: Seq<VReg>) -> bool {
    &&& forall|b: int, v: VReg| 0 <= b < f.blocks@.len() && #[trigger] use_set(f, b).contains(v) ==> u.contains(v)
    &&& forall|b: int, s: int, v: VReg| 0 <= b < f.blocks@.len() && 0 <= s < f.blocks@.len()
        && #[trigger] phi_use_set(f, b, s).contains(v) ==> u.contains(v)
}

/// A matrix of `n` rows of length `m`.
pub open spec fn rect(n: int, m: int, d: Seq<Seq<bool>>) -> bool {
    d.len() == n && forall|i: int| 0 <= i < n ==> (#[trigger] d[i]).len() == m
}

/// The live-in equation at block `b`, value `u[k]`.
pub open spec fn bin_step(f: Function, u: Seq<VReg>, lout: Seq<Seq<bool>>, b: int, k: int) -> bool {
    use_set(f, b).contains(u[k]) || (lout[b][k] && !def_set(f, b).contains(u[k]))
}

/// The live-out equation at block `b`, value `u[k]`.
pub open spec fn bout_step(f: Function, u: Seq<VReg>, lin: Seq<Seq<bool>>, b: int, k: int) -> bool {
    exists|s: int| 0 <= s < f.blocks@.len() && #[trigger] edge(f, b, s)
        && ((lin[s][k] && !phi_def_set(f, s).contains(u[k])) || phi_use_set(f, b, s).contains(u[k]))
}

/// The marks are justified by the equations, and lie inside every pair of sets
/// that contains what the equations give for it.
pub open spec fn live_inv(f: Function, u: Seq<VReg>, lin: Seq<Seq<bool>>, lout: Seq<Seq<bool>>) -> bool {
    let n = f.blocks@.len() as int;
    let m = u.len() as int;
    &&& rect(n, m, lin)
    &&& rect(n, m, lout)
    &&& forall|b: int, k: int| 0 <= b < n && 0 <= k < m && #[trigger] lin[b][k] ==> bin_step(f, u, lout, b, k)
    &&& forall|b: int, k: int| 0 <= b < n && 0 <= k < m && #[trigger] lout[b][k] ==> bout_step(f, u, lin, b, k)
    &&& forall|a: Seq<Set<VReg>>, c: Seq<Set<VReg>>| #[trigger] live_pre(f, a, c) ==>
        forall|b: int, k: int| 0 <= b < n && 0 <= k < m ==>
            (#[trigger] lin[b][k] ==> a[b].contains(u[k])) && (lout[b][k] ==> c[b].contains(u[k]))
}

pub proof fn lemma_mat_count_bound(d: Seq<Seq<bool>>, m: int)
    requires
        m >= 0,
        forall|i: int| 0 <= i < d.len() ==> (#[trigger] d[i]).len() == m,
    ensures
        mat_count(d) <= d.len() * m,
    decreases d.len(),
{
    if d.len() > 0 {
        let p = d.drop_last();
        assert forall|i: int| 0 <= i < p.len() implies (#[trigger] p[i]).len() == m by {
            assert(p[i] == d[i]);
        }
        lemma_mat_count_bound(p, m);
        lemma_row_count_bound(d.last());
        assert(d[d.len() - 1].len() == m);
        assert((d.len() - 1) * m + m == d.len() * m) by (nonlinear_arith);
    }
}

/// A row of `m` copies of `x`.
fn filled(m: usize, x: bool) -> (r: Vec<bool>)
    ensures
        r@.len() == m,
        forall|k: int| 0 <= k < m ==> r@[k] == x,
{
    let mut r: Vec<bool> = Vec::new();
    let mut k: usize = 0;
    while k < m
        invariant
            k <= m,
            r@.len() == k,
            forall|q: int| 0 <= q < k ==> r@[q] == x,
        decreases m - k,
    {
        r.push(x);
        k += 1;
    }
    r
}

/// The live-out row of block `b`.
fn out_row(
    f: &Function,
    u: &Vec<VReg>,
    lin: &Vec<Vec<bool>>,
    pdef: &Vec<Vec<bool>>,
    puse: &Vec<Vec<Vec<bool>>>,
    b: usize,
) -> (r: Vec<bool>)
    requires
        b < f.blocks@.len(),
        rect(f.blocks@.len() as int, u@.len() as int, mat(lin@)),
        rect(f.blocks@.len() as int, u@.len() as int, mat(pdef@)),
        forall|s: int, k: int| 0 <= s < f.blocks@.len() && 0 <= k < u@.len()
            ==> #[trigger] pdef@[s]@[k] == phi_def_set(*f, s).contains(u@[k]),
        puse@.len() == f.blocks@.len(),
        forall|s: int| 0 <= s < f.blocks@.len() ==> rect(f.blocks@.len() as int, u@.len() as int, mat(#[trigger] puse@[s]@)),
        forall|s: int, bb: int, k: int| 0 <= s < f.blocks@.len() && 0 <= bb < f.blocks@.len() && 0 <= k < u@.len()
            ==> #[trigger] puse@[s]@[bb]@[k] == phi_use_set(*f, bb, s).contains(u@[k]),
    ensures
        r@.len() == u@.len(),
        forall|k: int| 0 <= k < u@.len() ==> r@[k] == bout_step(*f, u@, mat(lin@), b as int, k),
{
    let n = f.blocks.len();
    let m = u.len();
    let ghost li = mat(lin@);
    let mut row = filled(m, false);
    let mut s: usize = 0;
    while s < n
        invariant
            n == f.blocks@.len(),
            m == u@.len(),
            b < n,
            s <= n,
            li == mat(lin@),
            rect(n as int, m as int, li),
            rect(n as int, m as int, mat(pdef@)),
            forall|s: int, k: int| 0 <= s < n && 0 <= k < m ==> #[trigger] pdef@[s]@[k] == phi_def_set(*f, s).contains(u@[k]),
            puse@.len() == n,
            forall|s: int| 0 <= s < n ==> rect(n as int, m as int, mat(#[trigger] puse@[s]@)),
            forall|s: int, bb: int, k: int| 0 <= s < n && 0 <= bb < n && 0 <= k < m
                ==> #[trigger] puse@[s]@[bb]@[k] == phi_use_set(*f, bb, s).contains(u@[k]),
            row@.len() == m,
            forall|k: int| 0 <= k < m ==> row@[k] == exists|q: int| 0 <= q < s && #[trigger] edge(*f, b as int, q)
                && ((li[q][k] && !phi_def_set(*f, q).contains(u@[k])) || phi_use_set(*f, b as int, q).contains(u@[k])),
        decreases n - s,
    {
        if has_edge_at(f, b, s) {
            let ls = &lin[s];
            let ps = &pdef[s];
            let pu = &puse[s][b];
            assert(ls@ == li[s as int]);
            assert(mat(puse@[s as int]@)[b as int] == pu@);
            assert(mat(pdef@)[s as int] == ps@);
            let mut k: usize = 0;
            while k < m
                invariant
                    n == f.blocks@.len(),
                    m == u@.len(),
                    b < n,
                    s < n,
                    k <= m,
                    edge(*f, b as int, s as int),
                    ls@ == li[s as int],
                    ls@.len() == m,
                    ps@.len() == m,
                    pu@.len() == m,
                    forall|k: int| 0 <= k < m ==> ps@[k] == phi_def_set(*f, s as int).contains(u@[k]),
                    forall|k: int| 0 <= k < m ==> pu@[k] == phi_use_set(*f, b as int, s as int).contains(u@[k]),
                    row@.len() == m,
                    forall|q: int| 0 <= q < k ==> row@[q] == exists|p: int| 0 <= p <= s && #[trigger] edge(*f, b as int, p)
                        && ((li[p][q] && !phi_def_set(*f, p).contains(u@[q])) || phi_use_set(*f, b as int, p).contains(u@[q])),
                    forall|q: int| k <= q < m ==> row@[q] == exists|p: int| 0 <= p < s && #[trigger] edge(*f, b as int, p)
                        && ((li[p][q] && !phi_def_set(*f, p).contains(u@[q])) || phi_use_set(*f, b as int, p).contains(u@[q])),
                decreases m - k,
            {
                let x = row[k] || (ls[k] && !ps[k]) || pu[k];
                row.set(k, x);
                proof {
                    let kk = k as int;
                    let c = (li[s as int][kk] && !phi_def_set(*f, s as int).contains(u@[kk])) || phi_use_set(*f, b as int, s as int).contains(u@[kk]);
                    assert(ps@[kk] == phi_def_set(*f, s as int).contains(u@[kk]));
                    assert(pu@[kk] == phi_use_set(*f, b as int, s as int).contains(u@[kk]));
                    if x {
                        if !c {
                            let p = choose|p: int| 0 <= p < s && #[trigger] edge(*f, b as int, p)
                                && ((li[p][kk] && !phi_def_set(*f, p).contains(u@[kk])) || phi_use_set(*f, b as int, p).contains(u@[kk]));
                            assert(0 <= p <= s);
                        }
                    } else {
                        assert forall|p: int| 0 <= p <= s && #[trigger] edge(*f, b as int, p) implies
                            !((li[p][kk] && !phi_def_set(*f, p).contains(u@[kk])) || phi_use_set(*f, b as int, p).contains(u@[kk])) by {
                            if p < s {} else {}
                        }
                    }
                }
                k += 1;
            }
        } else {
            proof {
                assert forall|k: int| 0 <= k < m implies row@[k] == exists|q: int| 0 <= q < s + 1 && #[trigger] edge(*f, b as int, q)
                    && ((li[q][k] && !phi_def_set(*f, q).contains(u@[k])) || phi_use_set(*f, b as int, q).contains(u@[k])) by {
                    if row@[k] {
                        let q = choose|q: int| 0 <= q < s && #[trigger] edge(*f, b as int, q)
                            && ((li[q][k] && !phi_def_set(*f, q).contains(u@[k])) || phi_use_set(*f, b as int, q).contains(u@[k]));
                        assert(0 <= q < s + 1);
                    } else {
                        assert forall|q: int| 0 <= q < s + 1 && #[trigger] edge(*f, b as int, q) implies
                            !((li[q][k] && !phi_def_set(*f, q).contains(u@[k])) || phi_use_set(*f, b as int, q).contains(u@[k])) by {
                            if q < s {} else {}
                        }
                    }
                }
            }
        }
        s += 1;
    }
    row
}

/// The live-in row of block `b`, from its live-out row.
fn in_row(f: &Function, u: &Vec<VReg>, usebits: &Vec<bool>, defbits: &Vec<bool>, out: &Vec<bool>, b: usize) -> (r: Vec<bool>)
    requires
        b < f.blocks@.len(),
        usebits@.len() == u@.len(),
        defbits@.len() == u@.len(),
        out@.len() == u@.len(),
        forall|k: int| 0 <= k < u@.len() ==> usebits@[k] == use_set(*f, b as int).contains(u@[k]),
        forall|k: int| 0 <= k < u@.len() ==> defbits@[k] == def_set(*f, b as int).contains(u@[k]),
    ensures
        r@.len() == u@.len(),
        forall|k: int| 0 <= k < u@.len() ==> r@[k] == (use_set(*f, b as int).contains(u@[k])
            || (out@[k] && !def_set(*f, b as int).contains(u@[k]))),
{
    let mut r: Vec<bool> = Vec::new();
    let mut k: usize = 0;
    while k < u.len()
        invariant
            k <= u@.len(),
            usebits@.len() == u@.len(),
            defbits@.len() == u@.len(),
            out@.len() == u@.len(),
            forall|k: int| 0 <= k < u@.len() ==> usebits@[k] == use_set(*f, b as int).contains(u@[k]),
            forall|k: int| 0 <= k < u@.len() ==> defbits@[k] == def_set(*f, b as int).contains(u@[k]),
            r@.len() == k,
            forall|q: int| 0 <= q < k ==> r@[q] == (use_set(*f, b as int).contains(u@[q])
                || (out@[q] && !def_set(*f, b as int).contains(u@[q]))),
        decreases u.len() - k,
    {
        r.push(usebits[k] || (out[k] && !defbits[k]));
        k += 1;
    }
    r
}

/// Whether two rows are equal.
fn same_row(a: &Vec<bool>, b: &Vec<bool>) -> (r: bool)
    ensures
        r == (a@ == b@),
{
    if a.len() != b.len() {
        return false;
    }
    let mut k: usize = 0;
    while k < a.len()
        invariant
            a.len() == b.len(),
            k <= a.len(),
            forall|q: int| 0 <= q < k ==> a@[q] == b@[q],
        decreases a.len() - k,
    {
        if a[k] != b[k] {
            return false;
        }
        k += 1;
    }
    assert(a@ =~= b@);
    true
}

pub proof fn lemma_bout_mono(f: Function, u: Seq<VReg>, a: Seq<Seq<bool>>, c: Seq<Seq<bool>>, b: int, k: int)
    requires
        rect(f.blocks@.len() as int, u.len() as int, a),
        rect(f.blocks@.len() as int, u.len() as int, c),
        forall|s: int, q: int| 0 <= s < f.blocks@.len() && 0 <= q < u.len() && #[trigger] a[s][q] ==> c[s][q],
        0 <= k < u.len(),
        bout_step(f, u, a, b, k),
    ensures
        bout_step(f, u, c, b, k),
{
    let s = choose|s: int| 0 <= s < f.blocks@.len() && #[trigger] edge(f, b, s)
        && ((a[s][k] && !phi_def_set(f, s).contains(u[k])) || phi_use_set(f, b, s).contains(u[k]));
    if a[s][k] {
        assert(c[s][k]);
    }
}

/// The bit rows of the least solution of the liveness equations, computed by
/// sweeping the blocks in reverse layout order until nothing changes.
fn live_bits(
    f: &Function,
    u: &Vec<VReg>,
    usebits: &Vec<Vec<bool>>,
    defbits: &Vec<Vec<bool>>,
    pdef: &Vec<Vec<bool>>,
    puse: &Vec<Vec<Vec<bool>>>,
) -> (res: (Vec<Vec<bool>>, Vec<Vec<bool>>))
    requires
        rect(f.blocks@.len() as int, u@.len() as int, mat(usebits@)),
        rect(f.blocks@.len() as int, u@.len() as int, mat(defbits@)),
        forall|b: int, k: int| 0 <= b < f.blocks@.len() && 0 <= k < u@.len()
            ==> #[trigger] usebits@[b]@[k] == use_set(*f, b).contains(u@[k]),
        forall|b: int, k: int| 0 <= b < f.blocks@.len() && 0 <= k < u@.len()
            ==> #[trigger] defbits@[b]@[k] == def_set(*f, b).contains(u@[k]),
        rect(f.blocks@.len() as int, u@.len() as int, mat(pdef@)),
        forall|s: int, k: int| 0 <= s < f.blocks@.len() && 0 <= k < u@.len()
            ==> #[trigger] pdef@[s]@[k] == phi_def_set(*f, s).contains(u@[k]),
        puse@.len() == f.blocks@.len(),
        forall|s: int| 0 <= s < f.blocks@.len() ==> rect(f.blocks@.len() as int, u@.len() as int, mat(#[trigger] puse@[s]@)),
        forall|s: int, bb: int, k: int| 0 <= s < f.blocks@.len() && 0 <= bb < f.blocks@.len() && 0 <= k < u@.len()
            ==> #[trigger] puse@[s]@[bb]@[k] == phi_use_set(*f, bb, s).contains(u@[k]),
    ensures
        live_inv(*f, u@, mat(res.0@), mat(res.1@)),
        forall|b: int, k: int| 0 <= b < f.blocks@.len() && 0 <= k < u@.len()
            ==> #[trigger] mat(res.0@)[b][k] == bin_step(*f, u@, mat(res.1@), b, k),
        forall|b: int, k: int| 0 <= b < f.blocks@.len() && 0 <= k < u@.len()
            ==> #[trigger] mat(res.1@)[b][k] == bout_step(*f, u@, mat(res.0@), b, k),
{
    let n = f.blocks.len();
    let m = u.len();
    let ghost nn = n as int;
    let ghost mm = m as int;
    let mut lin: Vec<Vec<bool>> = Vec::new();
    let mut lout: Vec<Vec<bool>> = Vec::new();
    let mut i: usize = 0;
    while i < n
        invariant
            i <= n,
            lin@.len() == i,
            lout@.len() == i,
            forall|q: int| 0 <= q < i ==> (#[trigger] lin@[q])@.len() == m && forall|k: int| 0 <= k < m ==> !lin@[q]@[k],
            forall|q: int| 0 <= q < i ==> (#[trigger] lout@[q])@.len() == m && forall|k: int| 0 <= k < m ==> !lout@[q]@[k],
        decreases n - i,
    {
        lin.push(filled(m, false));
        lout.push(filled(m, false));
        i += 1;
    }
    proof {
        let a = mat(lin@);
        let c = mat(lout@);
        assert(rect(nn, mm, a));
        assert(rect(nn, mm, c));
        assert forall|b: int, k: int| 0 <= b < nn && 0 <= k < mm implies !a[b][k] && !c[b][k] by {
            assert(!lin@[b]@[k]);
            assert(!lout@[b]@[k]);
        }
        lemma_mat_count_bound(a, mm);
        lemma_mat_count_bound(c, mm);
    }
    let mut changed = true;
    while changed
        invariant
            n == f.blocks@.len(),
            m == u@.len(),
            nn == n as int,
            mm == m as int,
            rect(nn, mm, mat(usebits@)),
            rect(nn, mm, mat(defbits@)),
            forall|b: int, k: int| 0 <= b < nn && 0 <= k < mm ==> #[trigger] usebits@[b]@[k] == use_set(*f, b).contains(u@[k]),
            forall|b: int, k: int| 0 <= b < nn && 0 <= k < mm ==> #[trigger] defbits@[b]@[k] == def_set(*f, b).contains(u@[k]),
            rect(nn, mm, mat(pdef@)),
            forall|s: int, k: int| 0 <= s < nn && 0 <= k < mm ==> #[trigger] pdef@[s]@[k] == phi_def_set(*f, s).contains(u@[k]),
            puse@.len() == nn,
            forall|s: int| 0 <= s < nn ==> rect(nn, mm, mat(#[trigger] puse@[s]@)),
            forall|s: int, bb: int, k: int| 0 <= s < nn && 0 <= bb < nn && 0 <= k < mm
                ==> #[trigger] puse@[s]@[bb]@[k] == phi_use_set(*f, bb, s).contains(u@[k]),
            live_inv(*f, u@, mat(lin@), mat(lout@)),
            mat_count(mat(lin@)) + mat_count(mat(lout@)) <= 2 * (nn * mm),
            !changed ==> forall|b: int, k: int| 0 <= b < nn && 0 <= k < mm
                ==> #[trigger] mat(lin@)[b][k] == bin_step(*f, u@, mat(lout@), b, k),
            !changed ==> forall|b: int, k: int| 0 <= b < nn && 0 <= k < mm
                ==> #[trigger] mat(lout@)[b][k] == bout_step(*f, u@, mat(lin@), b, k),
        decreases 2 * (nn * mm) - (mat_count(mat(lin@)) + mat_count(mat(lout@))) + if changed { 1int } else { 0int },
    {
        changed = false;
        let ghost start_in = mat(lin@);
        let ghost start_out = mat(lout@);
        let ghost start_total = mat_count(start_in) + mat_count(start_out);
        let mut t: usize = 0;
        while t < n
            invariant
                n == f.blocks@.len(),
                m == u@.len(),
                nn == n as int,
                mm == m as int,
                t <= n,
                rect(nn, mm, mat(usebits@)),
                rect(nn, mm, mat(defbits@)),
                forall|b: int, k: int| 0 <= b < nn && 0 <= k < mm ==> #[trigger] usebits@[b]@[k] == use_set(*f, b).contains(u@[k]),
                forall|b: int, k: int| 0 <= b < nn && 0 <= k < mm ==> #[trigger] defbits@[b]@[k] == def_set(*f, b).contains(u@[k]),
                rect(nn, mm, mat(pdef@)),
                forall|s: int, k: int| 0 <= s < nn && 0 <= k < mm ==> #[trigger] pdef@[s]@[k] == phi_def_set(*f, s).contains(u@[k]),
                puse@.len() == nn,
                forall|s: int| 0 <= s < nn ==> rect(nn, mm, mat(#[trigger] puse@[s]@)),
                forall|s: int, bb: int, k: int| 0 <= s < nn && 0 <= bb < nn && 0 <= k < mm
                    ==> #[trigger] puse@[s]@[bb]@[k] == phi_use_set(*f, bb, s).contains(u@[k]),
                live_inv(*f, u@, mat(lin@), mat(lout@)),
                mat_count(mat(lin@)) + mat_count(mat(lout@)) <= 2 * (nn * mm),
                mat_count(mat(lin@)) + mat_count(mat(lout@)) >= start_total,
                changed ==> mat_count(mat(lin@)) + mat_count(mat(lout@)) > start_total,
                !changed ==> mat(lin@) == start_in && mat(lout@) == start_out,
                !changed ==> forall|b: int, k: int| nn - t <= b < nn && 0 <= k < mm
                    ==> #[trigger] mat(lin@)[b][k] == bin_step(*f, u@, mat(lout@), b, k),
                !changed ==> forall|b: int, k: int| nn - t <= b < nn && 0 <= k < mm
                    ==> #[trigger] mat(lout@)[b][k] == bout_step(*f, u@, mat(lin@), b, k),
            decreases n - t,
        {
            let b = n - 1 - t;
            let o = out_row(f, u, &lin, pdef, puse, b);
            assert(mat(usebits@)[b as int] == usebits@[b as int]@);
            assert(mat(defbits@)[b as int] == defbits@[b as int]@);
            let inr = in_row(f, u, &usebits[b], &defbits[b], &o, b);
            let same_out = same_row(&o, &lout[b]);
            let same_in = same_row(&inr, &lin[b]);
            let ghost old_in = mat(lin@);
            let ghost old_out = mat(lout@);
            let ghost bi = b as int;
            proof {
                assert(old_in[bi] == lin@[bi]@);
                assert(old_out[bi] == lout@[bi]@);
                // the new rows contain the old ones
                assert forall|k: int| 0 <= k < mm && old_out[bi][k] implies o@[k] by {}
                assert forall|k: int| 0 <= k < mm && old_in[bi][k] implies #[trigger] inr@[k] by {
                    assert(bin_step(*f, u@, old_out, bi, k));
                }
            }
            if !same_out || !same_in {
                lout.set(b, o);
                lin.set(b, inr);
                changed = true;
                proof {
                    let ni = mat(lin@);
                    let no = mat(lout@);
                    assert(ni =~= old_in.update(bi, inr@));
                    assert(no =~= old_out.update(bi, o@));
                    assert(rect(nn, mm, ni));
                    assert(rect(nn, mm, no));
                    assert forall|s: int, q: int| 0 <= s < nn && 0 <= q < mm && #[trigger] old_in[s][q] implies ni[s][q] by {
                        if s == bi {} else {}
                    }
                    assert forall|b2: int, k: int| 0 <= b2 < nn && 0 <= k < mm && #[trigger] ni[b2][k] implies bin_step(*f, u@, no, b2, k) by {
                        if b2 != bi {
                            assert(old_in[b2][k]);
                            assert(bin_step(*f, u@, old_out, b2, k));
                            assert(no[b2] == old_out[b2]);
                        }
                    }
                    assert forall|b2: int, k: int| 0 <= b2 < nn && 0 <= k < mm && #[trigger] no[b2][k] implies bout_step(*f, u@, ni, b2, k) by {
                        if b2 != bi {
                            assert(old_out[b2][k]);
                        }
                        assert(bout_step(*f, u@, old_in, b2, k));
                        lemma_bout_mono(*f, u@, old_in, ni, b2, k);
                    }
                    assert forall|a: Seq<Set<VReg>>, c: Seq<Set<VReg>>| #[trigger] live_pre(*f, a, c) implies
                        forall|b2: int, k: int| 0 <= b2 < nn && 0 <= k < mm ==>
                            (#[trigger] ni[b2][k] ==> a[b2].contains(u@[k])) && (no[b2][k] ==> c[b2].contains(u@[k])) by {
                        assert forall|k: int| 0 <= k < mm && o@[k] implies c[bi].contains(u@[k]) by {
                            let s = choose|s: int| 0 <= s < nn && #[trigger] edge(*f, bi, s)
                                && ((old_in[s][k] && !phi_def_set(*f, s).contains(u@[k])) || phi_use_set(*f, bi, s).contains(u@[k]));
                            if old_in[s][k] {
                                assert(a[s].contains(u@[k]));
                            }
                            assert(out_step(*f, a, bi).contains(u@[k]));
                            assert(out_step(*f, a, bi).subset_of(c[bi]));
                        }
                        assert forall|k: int| 0 <= k < mm && inr@[k] implies a[bi].contains(u@[k]) by {
                            assert(in_step(*f, c, bi).contains(u@[k]));
                            assert(in_step(*f, c, bi).subset_of(a[bi]));
                        }
                        assert forall|b2: int, k: int| 0 <= b2 < nn && 0 <= k < mm implies
                            (#[trigger] ni[b2][k] ==> a[b2].contains(u@[k])) && (no[b2][k] ==> c[b2].contains(u@[k])) by {
                            if b2 != bi {
                                if ni[b2][k] { assert(old_in[b2][k]); }
                                if no[b2][k] { assert(old_out[b2][k]); }
                            }
                        }
                    }
                    assert(live_inv(*f, u@, ni, no));
                    lemma_mat_update(old_in, bi, inr@);
                    lemma_mat_update(old_out, bi, o@);
                    lemma_row_count_le(old_in[bi], inr@);
                    lemma_row_count_le(old_out[bi], o@);
                    if !same_out {
                        assert(exists|k: int| 0 <= k < mm && o@[k] && !old_out[bi][k]) by {
                            if !exists|k: int| 0 <= k < mm && o@[k] && !old_out[bi][k] {
                                assert(o@ =~= old_out[bi]);
                            }
                        }
                    } else {
                        assert(exists|k: int| 0 <= k < mm && inr@[k] && !old_in[bi][k]) by {
                            if !exists|k: int| 0 <= k < mm && inr@[k] && !old_in[bi][k] {
                                assert(inr@ =~= old_in[bi]);
                            }
                        }
                    }
                    lemma_mat_count_bound(ni, mm);
                    lemma_mat_count_bound(no, mm);
                }
            } else {
                proof {
                    assert forall|k: int| 0 <= k < mm implies #[trigger] old_in[bi][k] == bin_step(*f, u@, old_out, bi, k) by {
                        assert(inr@[k] == old_in[bi][k]);
                    }
                    assert forall|k: int| 0 <= k < mm implies #[trigger] old_out[bi][k] == bout_step(*f, u@, old_in, bi, k) by {
                        assert(o@[k] == old_out[bi][k]);
                    }
                }
            }
            t += 1;
        }
    }
    (lin, lout)
}

// ---------------------------------------------------------------------------
// The values of a function, and the bit rows of its sets.

/// `v` is defined or read somewhere in the function.
pub open spec fn mentioned(f: Function, v: VReg) -> bool {
    (exists|b: int, x: int| 0 <= b < f.blocks@.len() && 0 <= x < f.blocks@[b].insts@.len()
        && (spec_def(#[trigger] inst_at(f, b, x)) == v || spec_uses(inst_at(f, b, x)).contains(v)))
    || (exists|b: int| 0 <= b < f.blocks@.len() && (#[trigger] spec_term_uses(f.blocks@[b].term)).contains(v))
}

/// Adds `v` at the end unless it is already listed.
fn push_new(u: &mut Vec<VReg>, v: VReg)
    ensures
        final(u)@ == set_insert(old(u)@, v),
{
    if !contains_vreg(u, v) {
        u.push(v);
    }
}

pub proof fn lemma_set_insert<T>(s: Seq<T>, x: T)
    ensures
        set_insert(s, x).contains(x),
        forall|y: T| s.contains(y) ==> #[trigger] set_insert(s, x).contains(y),
        s.no_duplicates() ==> set_insert(s, x).no_duplicates(),
{
    if !s.contains(x) {
        assert(s.push(x)[s.len() as int] == x);
        assert forall|y: T| s.contains(y) implies s.push(x).contains(y) by {
            let k = choose|k: int| 0 <= k < s.len() && s[k] == y;
            assert(s.push(x)[k] == y);
        }
    }
}

/// The values of a function, each once, in order of first mention.
fn value_universe(f: &Function) -> (u: Vec<VReg>)
    ensures
        u@.no_duplicates(),
        forall|v: VReg| mentioned(*f, v) ==> u@.contains(v),
{
    let mut u: Vec<VReg> = Vec::new();
    let n = f.blocks.len();
    let mut b: usize = 0;
    while b < n
        invariant
            n == f.blocks@.len(),
            b <= n,
            u@.no_duplicates(),
            forall|b2: int, x2: int| 0 <= b2 < b && 0 <= x2 < f.blocks@[b2].insts@.len()
                ==> u@.contains(spec_def(#[trigger] inst_at(*f, b2, x2))),
            forall|b2: int, x2: int, w: VReg| 0 <= b2 < b && 0 <= x2 < f.blocks@[b2].insts@.len()
                && #[trigger] spec_uses(inst_at(*f, b2, x2)).contains(w) ==> u@.contains(w),
            forall|b2: int, w: VReg| 0 <= b2 < b && #[trigger] spec_term_uses(f.blocks@[b2].term).contains(w) ==> u@.contains(w),
        decreases n - b,
    {
        let block = &f.blocks[b];
        let mut x: usize = 0;
        while x < block.insts.len()
            invariant
                n == f.blocks@.len(),
                b < n,
                block == f.blocks@[b as int],
                x <= block.insts@.len(),
                u@.no_duplicates(),
                forall|b2: int, x2: int| 0 <= b2 < n && 0 <= x2 < f.blocks@[b2].insts@.len() && (b2 < b || (b2 == b && x2 < x))
                    ==> u@.contains(spec_def(#[trigger] inst_at(*f, b2, x2))),
                forall|b2: int, x2: int, w: VReg| 0 <= b2 < n && 0 <= x2 < f.blocks@[b2].insts@.len() && (b2 < b || (b2 == b && x2 < x))
                    && #[trigger] spec_uses(inst_at(*f, b2, x2)).contains(w) ==> u@.contains(w),
                forall|b2: int, w: VReg| 0 <= b2 < b && #[trigger] spec_term_uses(f.blocks@[b2].term).contains(w) ==> u@.contains(w),
            decreases block.insts.len() - x,
        {
            let inst = &block.insts[x];
            assert(*inst == inst_at(*f, b as int, x as int));
            let ghost u0 = u@;
            push_new(&mut u, defs(inst).unwrap());
            proof { lemma_set_insert(u0, spec_def(*inst)); }
            let vs = uses(inst).to_vec();
            let mut y: usize = 0;
            while y < vs.len()
                invariant
                    n == f.blocks@.len(),
                    b < n,
                    block == f.blocks@[b as int],
                    x < block.insts@.len(),
                    *inst == inst_at(*f, b as int, x as int),
                    vs@ == spec_uses(*inst),
                    y <= vs@.len(),
                    u@.no_duplicates(),
                    u@.contains(spec_def(*inst)),
                    forall|q: int| 0 <= q < y ==> u@.contains(#[trigger] vs@[q]),
                    forall|b2: int, x2: int| 0 <= b2 < n && 0 <= x2 < f.blocks@[b2].insts@.len() && (b2 < b || (b2 == b && x2 < x))
                        ==> u@.contains(spec_def(#[trigger] inst_at(*f, b2, x2))),
                    forall|b2: int, x2: int, w: VReg| 0 <= b2 < n && 0 <= x2 < f.blocks@[b2].insts@.len() && (b2 < b || (b2 == b && x2 < x))
                        && #[trigger] spec_uses(inst_at(*f, b2, x2)).contains(w) ==> u@.contains(w),
                    forall|b2: int, w: VReg| 0 <= b2 < b && #[trigger] spec_term_uses(f.blocks@[b2].term).contains(w) ==> u@.contains(w),
                decreases vs.len() - y,
            {
                let ghost u1 = u@;
                push_new(&mut u, vs[y]);
                proof { lemma_set_insert(u1, vs@[y as int]); }
                y += 1;
            }
            proof {
                assert forall|w: VReg| spec_uses(*inst).contains(w) implies u@.contains(w) by {
                    let q = choose|q: int| 0 <= q < vs@.len() && vs@[q] == w;
                    assert(u@.contains(vs@[q]));
                }
                assert forall|b2: int, x2: int, w: VReg| 0 <= b2 < n && 0 <= x2 < f.blocks@[b2].insts@.len() && (b2 < b || (b2 == b && x2 < x + 1))
                    && #[trigger] spec_uses(inst_at(*f, b2, x2)).contains(w) implies u@.contains(w) by {
                    if b2 == b && x2 == x {
                        assert(spec_uses(*inst).contains(w));
                    }
                }
            }
            x += 1;
        }
        let tv = term_uses(&block.term).to_vec();
        let mut y: usize = 0;
        while y < tv.len()
            invariant
                n == f.blocks@.len(),
                b < n,
                block == f.blocks@[b as int],
                tv@ == spec_term_uses(block.term),
                y <= tv@.len(),
                u@.no_duplicates(),
                forall|q: int| 0 <= q < y ==> u@.contains(#[trigger] tv@[q]),
                forall|b2: int, x2: int| 0 <= b2 < n && 0 <= x2 < f.blocks@[b2].insts@.len() && b2 <= b
                    ==> u@.contains(spec_def(#[trigger] inst_at(*f, b2, x2))),
                forall|b2: int, x2: int, w: VReg| 0 <= b2 < n && 0 <= x2 < f.blocks@[b2].insts@.len() && b2 <= b
                    && #[trigger] spec_uses(inst_at(*f, b2, x2)).contains(w) ==> u@.contains(w),
                forall|b2: int, w: VReg| 0 <= b2 < b && #[trigger] spec_term_uses(f.blocks@[b2].term).contains(w) ==> u@.contains(w),
            decreases tv.len() - y,
        {
            let ghost u1 = u@;
            push_new(&mut u, tv[y]);
            proof { lemma_set_insert(u1, tv@[y as int]); }
            y += 1;
        }
        proof {
            assert forall|b2: int, w: VReg| 0 <= b2 < b + 1 && #[trigger] spec_term_uses(f.blocks@[b2].term).contains(w) implies u@.contains(w) by {
                if b2 == b {
                    let q = choose|q: int| 0 <= q < tv@.len() && tv@[q] == w;
                    assert(u@.contains(tv@[q]));
                }
            }
        }
        b += 1;
    }
    proof {
        assert forall|v: VReg| mentioned(*f, v) implies u@.contains(v) by {
            if exists|b: int, x: int| 0 <= b < f.blocks@.len() && 0 <= x < f.blocks@[b].insts@.len()
                && (spec_def(#[trigger] inst_at(*f, b, x)) == v || spec_uses(inst_at(*f, b, x)).contains(v)) {
                let (b, x) = choose|b: int, x: int| 0 <= b < f.blocks@.len() && 0 <= x < f.blocks@[b].insts@.len()
                    && (spec_def(#[trigger] inst_at(*f, b, x)) == v || spec_uses(inst_at(*f, b, x)).contains(v));
                assert(u@.contains(spec_def(inst_at(*f, b, x))));
            }
        }
    }
    u
}

/// A phi input's value is among the values the phi reads.
pub proof fn lemma_phi_input_used(inst: Inst, y: int)
    requires
        0 <= y < spec_phi_inputs(inst).len(),
    ensures
        spec_uses(inst).contains(spec_phi_inputs(inst)[y].1),
{
    match inst {
        Inst::PhiI64 { incoming, .. } => {
            let us = spec_uses(inst);
            assert(us[y] == spec_phi_inputs(inst)[y].1);
        },
        _ => {},
    }
}

pub proof fn lemma_mentioned_covers(f: Function, u: Seq<VReg>)
    requires
        forall|v: VReg| mentioned(f, v) ==> u.contains(v),
    ensures
        covers(f, u),
{
    assert forall|b: int, v: VReg| 0 <= b < f.blocks@.len() && #[trigger] use_set(f, b).contains(v) implies u.contains(v) by {
        if exists|x: int| 0 <= x < f.blocks@[b].insts@.len() && !is_phi(inst_at(f, b, x))
            && #[trigger] spec_uses(inst_at(f, b, x)).contains(v) && !def_before(f, b, x, v) {
            let x = choose|x: int| 0 <= x < f.blocks@[b].insts@.len() && !is_phi(inst_at(f, b, x))
                && #[trigger] spec_uses(inst_at(f, b, x)).contains(v) && !def_before(f, b, x, v);
            assert(mentioned(f, v));
        } else {
            assert(spec_term_uses(f.blocks@[b].term).contains(v));
            assert(mentioned(f, v));
        }
    }
    assert forall|b: int, s: int, v: VReg| 0 <= b < f.blocks@.len() && 0 <= s < f.blocks@.len()
        && #[trigger] phi_use_set(f, b, s).contains(v) implies u.contains(v) by {
        let (x, y) = choose|x: int, y: int| 0 <= x < f.blocks@[s].insts@.len()
            && 0 <= y < spec_phi_inputs(inst_at(f, s, x)).len()
            && #[trigger] spec_phi_inputs(inst_at(f, s, x))[y] == (f.blocks@[b].id, v);
        lemma_phi_input_used(inst_at(f, s, x), y);
        assert(mentioned(f, v));
    }
}

/// Whether block `b` reads `v` before defining it.
fn use_bit(f: &Function, b: usize, v: VReg) -> (r: bool)
    requires
        b < f.blocks@.len(),
    ensures
        r == use_set(*f, b as int).contains(v),
{
    let block = &f.blocks[b];
    let mut defined = false;
    let mut found = false;
    let mut x: usize = 0;
    while x < block.insts.len()
        invariant
            b < f.blocks@.len(),
            block == f.blocks@[b as int],
            x <= block.insts@.len(),
            defined == def_before(*f, b as int, x as int, v),
            found == exists|x2: int| 0 <= x2 < x && !is_phi(inst_at(*f, b as int, x2))
                && #[trigger] spec_uses(inst_at(*f, b as int, x2)).contains(v) && !def_before(*f, b as int, x2, v),
        decreases block.insts.len() - x,
    {
        let inst = &block.insts[x];
        assert(*inst == inst_at(*f, b as int, x as int));
        let mut hit = false;
        if !is_phi_here(inst) && !defined {
            let us = uses(inst).to_vec();
            hit = contains_vreg(&us, v);
        }
        proof {
            let xi = x as int;
            assert(hit == (!is_phi(inst_at(*f, b as int, xi)) && spec_uses(inst_at(*f, b as int, xi)).contains(v) && !def_before(*f, b as int, xi, v)));
        }
        found = found || hit;
        if defs(inst).unwrap() == v {
            defined = true;
        }
        proof {
            let xi = x as int;
            if spec_def(inst_at(*f, b as int, xi)) == v {
                assert(def_before(*f, b as int, xi + 1, v));
            } else if def_before(*f, b as int, xi + 1, v) {
                let x2 = choose|x2: int| 0 <= x2 < xi + 1 && #[trigger] spec_def(inst_at(*f, b as int, x2)) == v;
                assert(x2 < xi);
            }
        }
        x += 1;
    }
    proof {
        assert(defined == def_set(*f, b as int).contains(v));
    }
    if !found && !defined {
        let tv = term_uses(&block.term).to_vec();
        found = contains_vreg(&tv, v);
    }
    found
}

/// Whether an instruction is a phi.
fn is_phi_here(inst: &Inst) -> (r: bool)
    ensures
        r == is_phi(*inst),
{
    match inst {
        Inst::PhiI64 { .. } => true,
        _ => false,
    }
}

/// Whether block `b` defines `v` (with `phis_only`, by a phi).
fn def_bit(f: &Function, b: usize, v: VReg, phis_only: bool) -> (r: bool)
    requires
        b < f.blocks@.len(),
    ensures
        r == if phis_only { phi_def_set(*f, b as int).contains(v) } else { def_set(*f, b as int).contains(v) },
{
    let block = &f.blocks[b];
    let mut x: usize = 0;
    while x < block.insts.len()
        invariant
            b < f.blocks@.len(),
            block == f.blocks@[b as int],
            x <= block.insts@.len(),
            forall|x2: int| 0 <= x2 < x ==> !(#[trigger] spec_def(inst_at(*f, b as int, x2)) == v
                && (phis_only ==> is_phi(inst_at(*f, b as int, x2)))),
        decreases block.insts.len() - x,
    {
        let inst = &block.insts[x];
        assert(*inst == inst_at(*f, b as int, x as int));
        if defs(inst).unwrap() == v && (!phis_only || is_phi_here(inst)) {
            return true;
        }
        x += 1;
    }
    false
}

/// Whether a phi of block `s` takes `v` on the edge from block `b`.
fn phi_use_bit(f: &Function, b: usize, s: usize, v: VReg) -> (r: bool)
    requires
        b < f.blocks@.len(),
        s < f.blocks@.len(),
    ensures
        r == phi_use_set(*f, b as int, s as int).contains(v),
{
    let block = &f.blocks[s];
    let pred = f.blocks[b].id;
    let mut x: usize = 0;
    while x < block.insts.len()
        invariant
            b < f.blocks@.len(),
            s < f.blocks@.len(),
            block == f.blocks@[s as int],
            pred == f.blocks@[b as int].id,
            x <= block.insts@.len(),
            forall|x2: int, y: int| 0 <= x2 < x && 0 <= y < spec_phi_inputs(inst_at(*f, s as int, x2)).len()
                ==> #[trigger] spec_phi_inputs(inst_at(*f, s as int, x2))[y] != (pred, v),
        decreases block.insts.len() - x,
    {
        let inst = &block.insts[x];
        assert(*inst == inst_at(*f, s as int, x as int));
        if let Inst::PhiI64 { incoming, .. } = inst {
            let inc = incoming.to_vec();
            let mut y: usize = 0;
            while y < inc.len()
                invariant
                    b < f.blocks@.len(),
                    s < f.blocks@.len(),
                    block == f.blocks@[s as int],
                    pred == f.blocks@[b as int].id,
                    x < block.insts@.len(),
                    inc@ == spec_phi_inputs(inst_at(*f, s as int, x as int)),
                    y <= inc@.len(),
                    forall|y2: int| 0 <= y2 < y ==> inc@[y2] != (pred, v),
                decreases inc.len() - y,
            {
                if inc[y].0 == pred && inc[y].1 == v {
                    assert(inc@[y as int] == (pred, v));
                    assert(spec_phi_inputs(inst_at(*f, s as int, x as int))[y as int] == (f.blocks@[b as int].id, v));
                    return true;
                }
                y += 1;
            }
        }
        x += 1;
    }
    false
}

/// The least solution of the liveness equations, as bit rows over `u`.
pub struct LiveCore {
    pub u: Vec<VReg>,
    pub lin: Vec<Vec<bool>>,
    pub lout: Vec<Vec<bool>>,
}

/// The rows of `c` give the liveness of `f` over the values `c.u`, which list
/// every value of `f` once.
pub open spec fn core_ok(f: Function, c: LiveCore) -> bool {
    let n = f.blocks@.len() as int;
    &&& c.u@.no_duplicates()
    &&& forall|v: VReg| mentioned(f, v) ==> c.u@.contains(v)
    &&& rect(n, c.u@.len() as int, mat(c.lin@))
    &&& rect(n, c.u@.len() as int, mat(c.lout@))
    &&& forall|b: int| 0 <= b < n ==> set_of(c.u@, #[trigger] mat(c.lin@)[b]) == live_fix(f).0[b]
    &&& forall|b: int| 0 <= b < n ==> set_of(c.u@, #[trigger] mat(c.lout@)[b]) == live_fix(f).1[b]
}

/// Rows solving the equations over a covering list of values give the least solution.
proof fn lemma_bits_least(f: Function, u: Seq<VReg>, lin: Seq<Seq<bool>>, lout: Seq<Seq<bool>>)
    requires
        covers(f, u),
        live_inv(f, u, lin, lout),
        forall|b: int, k: int| 0 <= b < f.blocks@.len() && 0 <= k < u.len() ==> #[trigger] lin[b][k] == bin_step(f, u, lout, b, k),
        forall|b: int, k: int| 0 <= b < f.blocks@.len() && 0 <= k < u.len() ==> #[trigger] lout[b][k] == bout_step(f, u, lin, b, k),
    ensures
        live_least(f, Seq::new(f.blocks@.len(), |b: int| set_of(u, lin[b])), Seq::new(f.blocks@.len(), |b: int| set_of(u, lout[b]))),
{
    let n = f.blocks@.len() as int;
    let si = Seq::new(f.blocks@.len(), |b: int| set_of(u, lin[b]));
    let so = Seq::new(f.blocks@.len(), |b: int| set_of(u, lout[b]));
    assert forall|b: int| 0 <= b < n implies #[trigger] si[b] == in_step(f, so, b) by {
        assert forall|v: VReg| #[trigger] si[b].contains(v) == in_step(f, so, b).contains(v) by {
            if si[b].contains(v) {
                let k = choose|k: int| 0 <= k < u.len() && #[trigger] u[k] == v && lin[b][k];
                assert(bin_step(f, u, lout, b, k));
                if lout[b][k] { assert(so[b].contains(v)); }
            }
            if in_step(f, so, b).contains(v) {
                if use_set(f, b).contains(v) {
                    assert(u.contains(v));
                    let k = choose|k: int| 0 <= k < u.len() && u[k] == v;
                    assert(bin_step(f, u, lout, b, k));
                    assert(lin[b][k]);
                } else {
                    assert(so[b].contains(v));
                    let k = choose|k: int| 0 <= k < u.len() && #[trigger] u[k] == v && lout[b][k];
                    assert(bin_step(f, u, lout, b, k));
                    assert(lin[b][k]);
                }
            }
        }
        assert(si[b] =~= in_step(f, so, b));
    }
    assert forall|b: int| 0 <= b < n implies #[trigger] so[b] == out_step(f, si, b) by {
        assert forall|v: VReg| #[trigger] so[b].contains(v) == out_step(f, si, b).contains(v) by {
            if so[b].contains(v) {
                let k = choose|k: int| 0 <= k < u.len() && #[trigger] u[k] == v && lout[b][k];
                assert(bout_step(f, u, lin, b, k));
                let s = choose|s: int| 0 <= s < f.blocks@.len() && #[trigger] edge(f, b, s)
                    && ((lin[s][k] && !phi_def_set(f, s).contains(u[k])) || phi_use_set(f, b, s).contains(u[k]));
                if lin[s][k] { assert(si[s].contains(v)); }
            }
            if out_step(f, si, b).contains(v) {
                let s = choose|s: int| 0 <= s < f.blocks@.len() && #[trigger] edge(f, b, s)
                    && ((si[s].contains(v) && !phi_def_set(f, s).contains(v)) || phi_use_set(f, b, s).contains(v));
                if si[s].contains(v) && !phi_def_set(f, s).contains(v) {
                    let k = choose|k: int| 0 <= k < u.len() && #[trigger] u[k] == v && lin[s][k];
                    assert(bout_step(f, u, lin, b, k));
                    assert(lout[b][k]);
                } else {
                    assert(u.contains(v));
                    let k = choose|k: int| 0 <= k < u.len() && u[k] == v;
                    assert(bout_step(f, u, lin, b, k));
                    assert(lout[b][k]);
                }
            }
        }
        assert(so[b] =~= out_step(f, si, b));
    }
    assert forall|a: Seq<Set<VReg>>, c: Seq<Set<VReg>>| #[trigger] live_pre(f, a, c) implies
        forall|b: int| 0 <= b < n ==> (#[trigger] si[b]).subset_of(a[b]) && so[b].subset_of(c[b]) by {
        assert forall|b: int| 0 <= b < n implies (#[trigger] si[b]).subset_of(a[b]) && so[b].subset_of(c[b]) by {
            assert forall|v: VReg| si[b].contains(v) implies a[b].contains(v) by {
                let k = choose|k: int| 0 <= k < u.len() && #[trigger] u[k] == v && lin[b][k];
            }
            assert forall|v: VReg| so[b].contains(v) implies c[b].contains(v) by {
                let k = choose|k: int| 0 <= k < u.len() && #[trigger] u[k] == v && lout[b][k];
            }
        }
    }
}

/// The liveness of every block, as bit rows over the values of the function.
/// Every function has a least solution of its liveness equations: this one.
pub fn liveness_core(f: &Function) -> (c: LiveCore)
    ensures
        core_ok(*f, c),
        live_least(*f, live_fix(*f).0, live_fix(*f).1),
{
    let n = f.blocks.len();
    let u = value_universe(f);
    let m = u.len();
    proof { lemma_mentioned_covers(*f, u@); }
    let mut usebits: Vec<Vec<bool>> = Vec::new();
    let mut defbits: Vec<Vec<bool>> = Vec::new();
    let mut pdef: Vec<Vec<bool>> = Vec::new();
    let mut puse: Vec<Vec<Vec<bool>>> = Vec::new();
    let mut b: usize = 0;
    while b < n
        invariant
            n == f.blocks@.len(),
            m == u@.len(),
            b <= n,
            usebits@.len() == b,
            defbits@.len() == b,
            pdef@.len() == b,
            puse@.len() == b,
            forall|q: int| 0 <= q < b ==> (#[trigger] usebits@[q])@.len() == m,
            forall|q: int| 0 <= q < b ==> (#[trigger] defbits@[q])@.len() == m,
            forall|q: int| 0 <= q < b ==> (#[trigger] pdef@[q])@.len() == m,
            forall|q: int| 0 <= q < b ==> rect(n as int, m as int, mat(#[trigger] puse@[q]@)),
            forall|q: int, k: int| 0 <= q < b && 0 <= k < m ==> #[trigger] usebits@[q]@[k] == use_set(*f, q).contains(u@[k]),
            forall|q: int, k: int| 0 <= q < b && 0 <= k < m ==> #[trigger] defbits@[q]@[k] == def_set(*f, q).contains(u@[k]),
            forall|q: int, k: int| 0 <= q < b && 0 <= k < m ==> #[trigger] pdef@[q]@[k] == phi_def_set(*f, q).contains(u@[k]),
            forall|q: int, bb: int, k: int| 0 <= q < b && 0 <= bb < n && 0 <= k < m
                ==> #[trigger] puse@[q]@[bb]@[k] == phi_use_set(*f, bb, q).contains(u@[k]),
        decreases n - b,
    {
        let mut ur: Vec<bool> = Vec::new();
        let mut dr: Vec<bool> = Vec::new();
        let mut pr: Vec<bool> = Vec::new();
        let mut k: usize = 0;
        while k < m
            invariant
                n == f.blocks@.len(),
                m == u@.len(),
                b < n,
                k <= m,
                ur@.len() == k,
                dr@.len() == k,
                pr@.len() == k,
                forall|q: int| 0 <= q < k ==> ur@[q] == use_set(*f, b as int).contains(u@[q]),
                forall|q: int| 0 <= q < k ==> dr@[q] == def_set(*f, b as int).contains(u@[q]),
                forall|q: int| 0 <= q < k ==> pr@[q] == phi_def_set(*f, b as int).contains(u@[q]),
            decreases m - k,
        {
            ur.push(use_bit(f, b, u[k]));
            dr.push(def_bit(f, b, u[k], false));
            pr.push(def_bit(f, b, u[k], true));
            k += 1;
        }
        let mut pu: Vec<Vec<bool>> = Vec::new();
        let mut bb: usize = 0;
        while bb < n
            invariant
                n == f.blocks@.len(),
                m == u@.len(),
                b < n,
                bb <= n,
                pu@.len() == bb,
                forall|q: int| 0 <= q < bb ==> (#[trigger] pu@[q])@.len() == m,
                forall|q: int, k: int| 0 <= q < bb && 0 <= k < m ==> #[trigger] pu@[q]@[k] == phi_use_set(*f, q, b as int).contains(u@[k]),
            decreases n - bb,
        {
            let mut row: Vec<bool> = Vec::new();
            let mut k: usize = 0;
            while k < m
                invariant
                    n == f.blocks@.len(),
                    m == u@.len(),
                    b < n,
                    bb < n,
                    k <= m,
                    row@.len() == k,
                    forall|q: int| 0 <= q < k ==> row@[q] == phi_use_set(*f, bb as int, b as int).contains(u@[q]),
                decreases m - k,
            {
                row.push(phi_use_bit(f, bb, b, u[k]));
                k += 1;
            }
            pu.push(row);
            bb += 1;
        }
        usebits.push(ur);
        defbits.push(dr);
        pdef.push(pr);
        puse.push(pu);
        proof {
            assert(rect(n as int, m as int, mat(puse@[b as int]@)));
        }
        b += 1;
    }
    proof {
        assert(rect(n as int, m as int, mat(usebits@)));
        assert(rect(n as int, m as int, mat(defbits@)));
        assert(rect(n as int, m as int, mat(pdef@)));
    }
    let (lin, lout) = live_bits(f, &u, &usebits, &defbits, &pdef, &puse);
    proof {
        lemma_bits_least(*f, u@, mat(lin@), mat(lout@));
        let si = Seq::new(f.blocks@.len(), |b: int| set_of(u@, mat(lin@)[b]));
        let so = Seq::new(f.blocks@.len(), |b: int| set_of(u@, mat(lout@)[b]));
        lemma_live_fix_unique(*f, si, so);
    }
    LiveCore { u, lin, lout }
}

// ---------------------------------------------------------------------------
// The liveness of a function, keyed by block id.

/// The items of a set are exactly the members of `s`, each once.
pub open spec fn holds_exactly(items: Seq<VReg>, s: Set<VReg>) -> bool {
    items.no_duplicates() && forall|v: VReg| #[trigger] items.contains(v) == s.contains(v)
}

/// Block `s` has a phi.
pub open spec fn has_phi(f: Function, s: int) -> bool {
    exists|x: int| 0 <= x < f.blocks@[s].insts@.len() && #[trigger] is_phi(inst_at(f, s, x))
}

/// Some phi of block `s` has an input from predecessor `p`.
pub open spec fn phi_from(f: Function, p: BlockId, s: int) -> bool {
    exists|x: int, y: int| 0 <= x < f.blocks@[s].insts@.len() && 0 <= y < spec_phi_inputs(inst_at(f, s, x)).len()
        && (#[trigger] spec_phi_inputs(inst_at(f, s, x))[y]).0 == p
}

/// The values the phis of block `s` take from predecessor `p`.
pub open spec fn phi_edge_set(f: Function, p: BlockId, s: int) -> Set<VReg> {
    Set::new(|v: VReg| exists|x: int, y: int| 0 <= x < f.blocks@[s].insts@.len()
        && 0 <= y < spec_phi_inputs(inst_at(f, s, x)).len()
        && #[trigger] spec_phi_inputs(inst_at(f, s, x))[y] == (p, v))
}

/// The set of the values marked in `row`.
pub(crate) fn set_from_row(u: &Vec<VReg>, row: &Vec<bool>) -> (s: IndexSet<VReg>)
    requires
        u@.no_duplicates(),
        row@.len() == u@.len(),
    ensures
        holds_exactly(vreg_set_items(s), set_of(u@, row@)),
{
    let mut s = vreg_set_new();
    let mut k: usize = 0;
    while k < u.len()
        invariant
            row@.len() == u@.len(),
            k <= u@.len(),
            vreg_set_items(s).no_duplicates(),
            forall|v: VReg| #[trigger] vreg_set_items(s).contains(v) == exists|q: int| 0 <= q < k && u@[q] == v && row@[q],
        decreases u.len() - k,
    {
        if row[k] {
            let ghost before = vreg_set_items(s);
            vreg_set_insert(&mut s, u[k]);
            proof {
                lemma_set_insert(before, u@[k as int]);
                assert forall|v: VReg| #[trigger] vreg_set_items(s).contains(v) == exists|q: int| 0 <= q < k + 1 && u@[q] == v && row@[q] by {
                    if vreg_set_items(s).contains(v) && v != u@[k as int] {
                        if !before.contains(v) {
                            let w = choose|w: int| 0 <= w < vreg_set_items(s).len() && vreg_set_items(s)[w] == v;
                            assert(vreg_set_items(s) == before.push(u@[k as int]));
                        }
                    }
                    if exists|q: int| 0 <= q < k + 1 && u@[q] == v && row@[q] {
                        let q = choose|q: int| 0 <= q < k + 1 && u@[q] == v && row@[q];
                        if q < k { assert(before.contains(v)); }
                    }
                }
            }
        } else {
            proof {
                assert forall|v: VReg| #[trigger] vreg_set_items(s).contains(v) == exists|q: int| 0 <= q < k + 1 && u@[q] == v && row@[q] by {
                    if exists|q: int| 0 <= q < k + 1 && u@[q] == v && row@[q] {
                        let q = choose|q: int| 0 <= q < k + 1 && u@[q] == v && row@[q];
                        assert(q < k);
                    }
                }
            }
        }
        k += 1;
    }
    proof {
        assert forall|v: VReg| #[trigger] vreg_set_items(s).contains(v) == set_of(u@, row@).contains(v) by {
            if set_of(u@, row@).contains(v) {
                let q = choose|q: int| 0 <= q < u@.len() && #[trigger] u@[q] == v && row@[q];
            }
        }
    }
    s
}

/// The bits of the use set and of the definition set of block `b`.
fn block_sets(f: &Function, u: &Vec<VReg>, b: usize) -> (r: (Vec<bool>, Vec<bool>))
    requires
        b < f.blocks@.len(),
    ensures
        r.0@.len() == u@.len(),
        r.1@.len() == u@.len(),
        forall|k: int| 0 <= k < u@.len() ==> r.0@[k] == use_set(*f, b as int).contains(u@[k]),
        forall|k: int| 0 <= k < u@.len() ==> r.1@[k] == def_set(*f, b as int).contains(u@[k]),
{
    let mut ur: Vec<bool> = Vec::new();
    let mut dr: Vec<bool> = Vec::new();
    let mut k: usize = 0;
    while k < u.len()
        invariant
            b < f.blocks@.len(),
            k <= u@.len(),
            ur@.len() == k,
            dr@.len() == k,
            forall|q: int| 0 <= q < k ==> ur@[q] == use_set(*f, b as int).contains(u@[q]),
            forall|q: int| 0 <= q < k ==> dr@[q] == def_set(*f, b as int).contains(u@[q]),
        decreases u.len() - k,
    {
        ur.push(use_bit(f, b, u[k]));
        dr.push(def_bit(f, b, u[k], false));
        k += 1;
    }
    (ur, dr)
}

/// The definition set of a block holds mentioned values only.
proof fn lemma_defs_mentioned(f: Function, b: int, v: VReg)
    requires
        0 <= b < f.blocks@.len(),
        def_set(f, b).contains(v) || use_set(f, b).contains(v) || phi_def_set(f, b).contains(v),
    ensures
        mentioned(f, v),
{
    if def_set(f, b).contains(v) {
        let x = choose|x: int| 0 <= x < f.blocks@[b].insts@.len() && #[trigger] spec_def(inst_at(f, b, x)) == v;
        assert(spec_def(inst_at(f, b, x)) == v);
    } else if phi_def_set(f, b).contains(v) {
        let x = choose|x: int| 0 <= x < f.blocks@[b].insts@.len() && is_phi(inst_at(f, b, x))
            && #[trigger] spec_def(inst_at(f, b, x)) == v;
        assert(spec_def(inst_at(f, b, x)) == v);
    } else {
        if exists|x: int| 0 <= x < f.blocks@[b].insts@.len() && !is_phi(inst_at(f, b, x))
            && #[trigger] spec_uses(inst_at(f, b, x)).contains(v) && !def_before(f, b, x, v) {
            let x = choose|x: int| 0 <= x < f.blocks@[b].insts@.len() && !is_phi(inst_at(f, b, x))
                && #[trigger] spec_uses(inst_at(f, b, x)).contains(v) && !def_before(f, b, x, v);
            assert(spec_uses(inst_at(f, b, x)).contains(v));
        } else {
            assert(spec_term_uses(f.blocks@[b].term).contains(v));
        }
    }
}

/// Turns a set of mentioned values given by bits over `u` into the set itself.
proof fn lemma_row_exact(f: Function, u: Seq<VReg>, row: Seq<bool>, s: Set<VReg>)
    requires
        forall|v: VReg| mentioned(f, v) ==> u.contains(v),
        row.len() == u.len(),
        forall|k: int| 0 <= k < u.len() ==> row[k] == s.contains(u[k]),
        forall|v: VReg| s.contains(v) ==> mentioned(f, v),
    ensures
        set_of(u, row) == s,
{
    assert forall|v: VReg| set_of(u, row).contains(v) == s.contains(v) by {
        if s.contains(v) {
            assert(u.contains(v));
            let k = choose|k: int| 0 <= k < u.len() && u[k] == v;
            assert(row[k]);
        }
        if set_of(u, row).contains(v) {
            let k = choose|k: int| 0 <= k < u.len() && #[trigger] u[k] == v && row[k];
        }
    }
    assert(set_of(u, row) =~= s);
}

/// The liveness of one block.
fn block_liveness(f: &Function, c: &LiveCore, b: usize) -> (bl: BlockLiveness)
    requires
        core_ok(*f, *c),
        b < f.blocks@.len(),
    ensures
        holds_exactly(vreg_set_items(bl.live_in), live_fix(*f).0[b as int]),
        holds_exactly(vreg_set_items(bl.live_out), live_fix(*f).1[b as int]),
        holds_exactly(vreg_set_items(bl.use_set), use_set(*f, b as int)),
        holds_exactly(vreg_set_items(bl.def_set), def_set(*f, b as int)),
{
    assert(mat(c.lin@)[b as int] == c.lin@[b as int]@);
    assert(mat(c.lout@)[b as int] == c.lout@[b as int]@);
    let live_in = set_from_row(&c.u, &c.lin[b]);
    let live_out = set_from_row(&c.u, &c.lout[b]);
    let (ur, dr) = block_sets(f, &c.u, b);
    let use_s = set_from_row(&c.u, &ur);
    let def_s = set_from_row(&c.u, &dr);
    proof {
        assert forall|v: VReg| use_set(*f, b as int).contains(v) implies mentioned(*f, v) by {
            lemma_defs_mentioned(*f, b as int, v);
        }
        assert forall|v: VReg| def_set(*f, b as int).contains(v) implies mentioned(*f, v) by {
            lemma_defs_mentioned(*f, b as int, v);
        }
        lemma_row_exact(*f, c.u@, ur@, use_set(*f, b as int));
        lemma_row_exact(*f, c.u@, dr@, def_set(*f, b as int));
    }
    BlockLiveness { live_in, live_out, use_set: use_s, def_set: def_s }
}

/// The phi maps: for each block with phis, its phi results; for each
/// `(predecessor, block)` with phi inputs, the values taken on that edge.
pub open spec fn phi_data_ok(f: Function, pdm: IndexMap<BlockId, IndexSet<VReg>>, pum: IndexMap<(BlockId, BlockId), IndexSet<VReg>>) -> bool {
    let pd = block_vregs_entries(pdm);
    let pu = edge_vregs_entries(pum);
    let n = f.blocks@.len() as int;
    &&& keys_distinct(pd)
    &&& keys_distinct(pu)
    &&& forall|k: int| #![trigger pd[k]] 0 <= k < pd.len() ==> exists|q: int| 0 <= q < n && #[trigger] f.blocks@[q].id == pd[k].0 && has_phi(f, q)
    &&& forall|k: int| #![trigger pu[k]] 0 <= k < pu.len() ==> exists|q: int| 0 <= q < n && #[trigger] f.blocks@[q].id == pu[k].0.1 && phi_from(f, pu[k].0.0, q)
    &&& ids_distinct(f) ==> forall|s: int| 0 <= s < n ==> {
        &&& (has_key(pd, #[trigger] f.blocks@[s].id) <==> has_phi(f, s))
        &&& (has_phi(f, s) ==> holds_exactly(vreg_set_items(value_at(pd, f.blocks@[s].id)), phi_def_set(f, s)))
    }
    &&& ids_distinct(f) ==> forall|s: int, p: BlockId| 0 <= s < n ==> {
        &&& (#[trigger] has_key(pu, (p, f.blocks@[s].id)) <==> phi_from(f, p, s))
        &&& (phi_from(f, p, s) ==> holds_exactly(vreg_set_items(value_at(pu, (p, f.blocks@[s].id))), phi_edge_set(f, p, s)))
    }
}

/// The phi results of block `s`, and whether it has a phi.
fn phi_results(f: &Function, s: usize) -> (r: (IndexSet<VReg>, bool))
    requires
        s < f.blocks@.len(),
    ensures
        r.1 == has_phi(*f, s as int),
        holds_exactly(vreg_set_items(r.0), phi_def_set(*f, s as int)),
{
    let block = &f.blocks[s];
    let mut set = vreg_set_new();
    let mut any = false;
    let mut x: usize = 0;
    while x < block.insts.len()
        invariant
            s < f.blocks@.len(),
            block == f.blocks@[s as int],
            x <= block.insts@.len(),
            any == exists|x2: int| 0 <= x2 < x && #[trigger] is_phi(inst_at(*f, s as int, x2)),
            vreg_set_items(set).no_duplicates(),
            forall|v: VReg| #[trigger] vreg_set_items(set).contains(v) == exists|x2: int| 0 <= x2 < x
                && is_phi(inst_at(*f, s as int, x2)) && #[trigger] spec_def(inst_at(*f, s as int, x2)) == v,
        decreases block.insts.len() - x,
    {
        let inst = &block.insts[x];
        assert(*inst == inst_at(*f, s as int, x as int));
        if is_phi_here(inst) {
            let v = defs(inst).unwrap();
            let ghost before = vreg_set_items(set);
            vreg_set_insert(&mut set, v);
            any = true;
            proof {
                lemma_set_insert(before, v);
                assert forall|w: VReg| #[trigger] vreg_set_items(set).contains(w) == exists|x2: int| 0 <= x2 < x + 1
                    && is_phi(inst_at(*f, s as int, x2)) && #[trigger] spec_def(inst_at(*f, s as int, x2)) == w by {
                    if vreg_set_items(set).contains(w) && w != v {
                        assert(vreg_set_items(set) == before || vreg_set_items(set) == before.push(v));
                        if !before.contains(w) {
                            let k = choose|k: int| 0 <= k < vreg_set_items(set).len() && vreg_set_items(set)[k] == w;
                            assert(vreg_set_items(set) == before.push(v));
                        }
                    }
                    if exists|x2: int| 0 <= x2 < x + 1 && is_phi(inst_at(*f, s as int, x2)) && #[trigger] spec_def(inst_at(*f, s as int, x2)) == w {
                        let x2 = choose|x2: int| 0 <= x2 < x + 1 && is_phi(inst_at(*f, s as int, x2)) && #[trigger] spec_def(inst_at(*f, s as int, x2)) == w;
                        if x2 < x {
                            assert(before.contains(w));
                        }
                    }
                }
            }
        } else {
            proof {
                assert forall|w: VReg| #[trigger] vreg_set_items(set).contains(w) == exists|x2: int| 0 <= x2 < x + 1
                    && is_phi(inst_at(*f, s as int, x2)) && #[trigger] spec_def(inst_at(*f, s as int, x2)) == w by {
                    if exists|x2: int| 0 <= x2 < x + 1 && is_phi(inst_at(*f, s as int, x2)) && #[trigger] spec_def(inst_at(*f, s as int, x2)) == w {
                        let x2 = choose|x2: int| 0 <= x2 < x + 1 && is_phi(inst_at(*f, s as int, x2)) && #[trigger] spec_def(inst_at(*f, s as int, x2)) == w;
                        assert(x2 < x);
                    }
                }
            }
        }
        x += 1;
    }
    proof {
        assert forall|v: VReg| #[trigger] vreg_set_items(set).contains(v) == phi_def_set(*f, s as int).contains(v) by {}
    }
    (set, any)
}

/// An input of a phi of block `s` at or before instruction `x`, input `y`
/// (all inputs of earlier instructions, the first `y` of instruction `x`) satisfies `pred`.
pub open spec fn input_before(f: Function, s: int, x: int, y: int, p: BlockId, v: VReg, by_value: bool) -> bool {
    exists|x2: int, y2: int| 0 <= x2 <= x && 0 <= y2 < spec_phi_inputs(inst_at(f, s, x2)).len()
        && (x2 < x || y2 < y)
        && (#[trigger] spec_phi_inputs(inst_at(f, s, x2))[y2]).0 == p
        && (by_value ==> spec_phi_inputs(inst_at(f, s, x2))[y2].1 == v)
}

/// The predecessors named by the phis of block `s`, each once, in order of first appearance.
fn phi_preds(f: &Function, s: usize) -> (r: Vec<BlockId>)
    requires
        s < f.blocks@.len(),
    ensures
        r@.no_duplicates(),
        forall|p: BlockId| #[trigger] r@.contains(p) == phi_from(*f, p, s as int),
{
    phi_scan(f, s, BlockId(0), false).0
}

/// The values the phis of block `s` take from predecessor `p`.
fn phi_edge_values(f: &Function, s: usize, p: BlockId) -> (r: IndexSet<VReg>)
    requires
        s < f.blocks@.len(),
    ensures
        holds_exactly(vreg_set_items(r), phi_edge_set(*f, p, s as int)),
{
    phi_scan(f, s, p, true).1
}

/// Scans the phi inputs of block `s`: the distinct predecessors named, and the
/// values taken from predecessor `p` (when `by_value`).
fn phi_scan(f: &Function, s: usize, p: BlockId, by_value: bool) -> (r: (Vec<BlockId>, IndexSet<VReg>))
    requires
        s < f.blocks@.len(),
    ensures
        !by_value ==> r.0@.no_duplicates(),
        !by_value ==> forall|q: BlockId| #[trigger] r.0@.contains(q) == phi_from(*f, q, s as int),
        by_value ==> holds_exactly(vreg_set_items(r.1), phi_edge_set(*f, p, s as int)),
{
    let block = &f.blocks[s];
    let mut preds: Vec<BlockId> = Vec::new();
    let mut vals = vreg_set_new();
    let mut x: usize = 0;
    while x < block.insts.len()
        invariant
            s < f.blocks@.len(),
            block == f.blocks@[s as int],
            x <= block.insts@.len(),
            preds@.no_duplicates(),
            vreg_set_items(vals).no_duplicates(),
            forall|q: BlockId| #[trigger] preds@.contains(q) == input_before(*f, s as int, x as int, 0, q, VReg(0), false),
            forall|v: VReg| #[trigger] vreg_set_items(vals).contains(v) == (by_value && input_before(*f, s as int, x as int, 0, p, v, true)),
        decreases block.insts.len() - x,
    {
        let inst = &block.insts[x];
        assert(*inst == inst_at(*f, s as int, x as int));
        let inc: Vec<(BlockId, VReg)> = match inst {
            Inst::PhiI64 { incoming, .. } => incoming.to_vec(),
            _ => Vec::new(),
        };
        assert(inc@ == spec_phi_inputs(inst_at(*f, s as int, x as int)));
        let mut y: usize = 0;
        while y < inc.len()
            invariant
                s < f.blocks@.len(),
                block == f.blocks@[s as int],
                x < block.insts@.len(),
                inc@ == spec_phi_inputs(inst_at(*f, s as int, x as int)),
                y <= inc@.len(),
                preds@.no_duplicates(),
                vreg_set_items(vals).no_duplicates(),
                forall|q: BlockId| #[trigger] preds@.contains(q) == input_before(*f, s as int, x as int, y as int, q, VReg(0), false),
                forall|v: VReg| #[trigger] vreg_set_items(vals).contains(v) == (by_value && input_before(*f, s as int, x as int, y as int, p, v, true)),
            decreases inc.len() - y,
        {
            let (q, v) = inc[y];
            let ghost p0 = preds@;
            let ghost v0 = vreg_set_items(vals);
            push_new_block(&mut preds, q);
            if by_value && q == p {
                vreg_set_insert(&mut vals, v);
            }
            proof {
                let xi = x as int;
                let yi = y as int;
                lemma_set_insert(p0, q);
                lemma_set_insert(v0, v);
                assert(inc@[yi] == (q, v));
                assert forall|q2: BlockId| #[trigger] preds@.contains(q2) == input_before(*f, s as int, xi, yi + 1, q2, VReg(0), false) by {
                    if input_before(*f, s as int, xi, yi + 1, q2, VReg(0), false) {
                        let (x2, y2) = choose|x2: int, y2: int| 0 <= x2 <= xi && 0 <= y2 < spec_phi_inputs(inst_at(*f, s as int, x2)).len()
                            && (x2 < xi || y2 < yi + 1)
                            && (#[trigger] spec_phi_inputs(inst_at(*f, s as int, x2))[y2]).0 == q2
                            && (false ==> spec_phi_inputs(inst_at(*f, s as int, x2))[y2].1 == VReg(0));
                        if x2 < xi || y2 < yi {
                            assert(input_before(*f, s as int, xi, yi, q2, VReg(0), false));
                        }
                    }
                    if preds@.contains(q2) && q2 != q {
                        if !p0.contains(q2) {
                            let w = choose|w: int| 0 <= w < preds@.len() && preds@[w] == q2;
                            assert(preds@ == p0.push(q));
                        }
                        assert(input_before(*f, s as int, xi, yi, q2, VReg(0), false));
                        let (x2, y2) = choose|x2: int, y2: int| 0 <= x2 <= xi && 0 <= y2 < spec_phi_inputs(inst_at(*f, s as int, x2)).len()
                            && (x2 < xi || y2 < yi)
                            && (#[trigger] spec_phi_inputs(inst_at(*f, s as int, x2))[y2]).0 == q2
                            && (false ==> spec_phi_inputs(inst_at(*f, s as int, x2))[y2].1 == VReg(0));
                        assert(x2 < xi || y2 < yi + 1);
                    }
                    if q2 == q {
                        assert(spec_phi_inputs(inst_at(*f, s as int, xi))[yi].0 == q2);
                    }
                }
                assert forall|w: VReg| #[trigger] vreg_set_items(vals).contains(w) == (by_value && input_before(*f, s as int, xi, yi + 1, p, w, true)) by {
                    if by_value && input_before(*f, s as int, xi, yi + 1, p, w, true) {
                        let (x2, y2) = choose|x2: int, y2: int| 0 <= x2 <= xi && 0 <= y2 < spec_phi_inputs(inst_at(*f, s as int, x2)).len()
                            && (x2 < xi || y2 < yi + 1)
                            && (#[trigger] spec_phi_inputs(inst_at(*f, s as int, x2))[y2]).0 == p
                            && (true ==> spec_phi_inputs(inst_at(*f, s as int, x2))[y2].1 == w);
                        if x2 < xi || y2 < yi {
                            assert(input_before(*f, s as int, xi, yi, p, w, true));
                        }
                    }
                    if vreg_set_items(vals).contains(w) {
                        if by_value && q == p && w == v {
                            assert(spec_phi_inputs(inst_at(*f, s as int, xi))[yi] == (p, w));
                        } else {
                            if !v0.contains(w) {
                                let k = choose|k: int| 0 <= k < vreg_set_items(vals).len() && vreg_set_items(vals)[k] == w;
                                assert(vreg_set_items(vals) == v0.push(v));
                            }
                            assert(input_before(*f, s as int, xi, yi, p, w, true));
                            let (x2, y2) = choose|x2: int, y2: int| 0 <= x2 <= xi && 0 <= y2 < spec_phi_inputs(inst_at(*f, s as int, x2)).len()
                                && (x2 < xi || y2 < yi)
                                && (#[trigger] spec_phi_inputs(inst_at(*f, s as int, x2))[y2]).0 == p
                                && (true ==> spec_phi_inputs(inst_at(*f, s as int, x2))[y2].1 == w);
                            assert(x2 < xi || y2 < yi + 1);
                        }
                    }
                }
            }
            y += 1;
        }
        proof {
            let xi = x as int;
            assert forall|q2: BlockId| #[trigger] preds@.contains(q2) == input_before(*f, s as int, xi + 1, 0, q2, VReg(0), false) by {
                if input_before(*f, s as int, xi + 1, 0, q2, VReg(0), false) {
                    let (x2, y2) = choose|x2: int, y2: int| 0 <= x2 <= xi + 1 && 0 <= y2 < spec_phi_inputs(inst_at(*f, s as int, x2)).len()
                        && (x2 < xi + 1 || y2 < 0)
                        && (#[trigger] spec_phi_inputs(inst_at(*f, s as int, x2))[y2]).0 == q2
                        && (false ==> spec_phi_inputs(inst_at(*f, s as int, x2))[y2].1 == VReg(0));
                    assert(input_before(*f, s as int, xi, inc@.len() as int, q2, VReg(0), false));
                }
                if input_before(*f, s as int, xi, inc@.len() as int, q2, VReg(0), false) {
                    let (x2, y2) = choose|x2: int, y2: int| 0 <= x2 <= xi && 0 <= y2 < spec_phi_inputs(inst_at(*f, s as int, x2)).len()
                        && (x2 < xi || y2 < inc@.len())
                        && (#[trigger] spec_phi_inputs(inst_at(*f, s as int, x2))[y2]).0 == q2
                        && (false ==> spec_phi_inputs(inst_at(*f, s as int, x2))[y2].1 == VReg(0));
                    assert(input_before(*f, s as int, xi + 1, 0, q2, VReg(0), false));
                }
            }
            assert forall|w: VReg| #[trigger] vreg_set_items(vals).contains(w) == (by_value && input_before(*f, s as int, xi + 1, 0, p, w, true)) by {
                if input_before(*f, s as int, xi + 1, 0, p, w, true) {
                    let (x2, y2) = choose|x2: int, y2: int| 0 <= x2 <= xi + 1 && 0 <= y2 < spec_phi_inputs(inst_at(*f, s as int, x2)).len()
                        && (x2 < xi + 1 || y2 < 0)
                        && (#[trigger] spec_phi_inputs(inst_at(*f, s as int, x2))[y2]).0 == p
                        && (true ==> spec_phi_inputs(inst_at(*f, s as int, x2))[y2].1 == w);
                    assert(input_before(*f, s as int, xi, inc@.len() as int, p, w, true));
                }
                if input_before(*f, s as int, xi, inc@.len() as int, p, w, true) {
                    let (x2, y2) = choose|x2: int, y2: int| 0 <= x2 <= xi && 0 <= y2 < spec_phi_inputs(inst_at(*f, s as int, x2)).len()
                        && (x2 < xi || y2 < inc@.len())
                        && (#[trigger] spec_phi_inputs(inst_at(*f, s as int, x2))[y2]).0 == p
                        && (true ==> spec_phi_inputs(inst_at(*f, s as int, x2))[y2].1 == w);
                    assert(input_before(*f, s as int, xi + 1, 0, p, w, true));
                }
            }
        }
        x += 1;
    }
    proof {
        let len = block.insts@.len() as int;
        assert forall|q2: BlockId| #[trigger] preds@.contains(q2) == (!by_value ==> phi_from(*f, q2, s as int)) || by_value by {
            if !by_value {
                if phi_from(*f, q2, s as int) {
                    let (x2, y2) = choose|x2: int, y2: int| 0 <= x2 < f.blocks@[s as int].insts@.len() && 0 <= y2 < spec_phi_inputs(inst_at(*f, s as int, x2)).len()
                        && (#[trigger] spec_phi_inputs(inst_at(*f, s as int, x2))[y2]).0 == q2;
                    assert(input_before(*f, s as int, len, 0, q2, VReg(0), false));
                }
                if input_before(*f, s as int, len, 0, q2, VReg(0), false) {
                    let (x2, y2) = choose|x2: int, y2: int| 0 <= x2 <= len && 0 <= y2 < spec_phi_inputs(inst_at(*f, s as int, x2)).len()
                        && (x2 < len || y2 < 0)
                        && (#[trigger] spec_phi_inputs(inst_at(*f, s as int, x2))[y2]).0 == q2
                        && (false ==> spec_phi_inputs(inst_at(*f, s as int, x2))[y2].1 == VReg(0));
                    assert(phi_from(*f, q2, s as int));
                }
            }
        }
        if by_value {
            assert forall|w: VReg| #[trigger] vreg_set_items(vals).contains(w) == phi_edge_set(*f, p, s as int).contains(w) by {
                if phi_edge_set(*f, p, s as int).contains(w) {
                    let (x2, y2) = choose|x2: int, y2: int| 0 <= x2 < f.blocks@[s as int].insts@.len()
                        && 0 <= y2 < spec_phi_inputs(inst_at(*f, s as int, x2)).len()
                        && #[trigger] spec_phi_inputs(inst_at(*f, s as int, x2))[y2] == (p, w);
                    assert(input_before(*f, s as int, len, 0, p, w, true));
                }
                if input_before(*f, s as int, len, 0, p, w, true) {
                    let (x2, y2) = choose|x2: int, y2: int| 0 <= x2 <= len && 0 <= y2 < spec_phi_inputs(inst_at(*f, s as int, x2)).len()
                        && (x2 < len || y2 < 0)
                        && (#[trigger] spec_phi_inputs(inst_at(*f, s as int, x2))[y2]).0 == p
                        && (true ==> spec_phi_inputs(inst_at(*f, s as int, x2))[y2].1 == w);
                    assert(spec_phi_inputs(inst_at(*f, s as int, x2))[y2] == (p, w));
                }
            }
        }
    }
    (preds, vals)
}

/// Adds `b` at the end unless it is already listed.
fn push_new_block(v: &mut Vec<BlockId>, b: BlockId)
    ensures
        final(v)@ == set_insert(old(v)@, b),
{
    let mut k: usize = 0;
    while k < v.len()
        invariant
            k <= v@.len(),
            forall|q: int| 0 <= q < k ==> v@[q] != b,
        decreases v.len() - k,
    {
        if v[k] == b {
            assert(v@.contains(b));
            return;
        }
        k += 1;
    }
    v.push(b);
}

/// For the first `s` blocks, the edge map holds exactly the edges whose phis
/// take values, each with the values taken.
spec fn edges_recorded(f: Function, pu: Seq<((BlockId, BlockId), IndexSet<VReg>)>, s: int) -> bool {
    ids_distinct(f) ==> forall|q: int, p: BlockId| 0 <= q < s ==> {
        &&& (#[trigger] has_key(pu, (p, f.blocks@[q].id)) <==> phi_from(f, p, q))
        &&& (phi_from(f, p, q) ==> holds_exactly(vreg_set_items(value_at(pu, (p, f.blocks@[q].id))), phi_edge_set(f, p, q)))
    }
}

/// Every entry of the def map comes from one of the first `s` blocks, one with phis.
spec fn defs_from_blocks(f: Function, pd: Seq<(BlockId, IndexSet<VReg>)>, s: int) -> bool {
    forall|k: int| #![trigger pd[k]] 0 <= k < pd.len() ==> exists|q: int| 0 <= q < s
        && #[trigger] f.blocks@[q].id == pd[k].0 && has_phi(f, q)
}

/// Every entry of the edge map comes from one of the first `s` blocks, on an edge with phi inputs.
spec fn edges_from_blocks(f: Function, pu: Seq<((BlockId, BlockId), IndexSet<VReg>)>, s: int) -> bool {
    forall|k: int| #![trigger pu[k]] 0 <= k < pu.len() ==> exists|q: int| 0 <= q < s
        && #[trigger] f.blocks@[q].id == pu[k].0.1 && phi_from(f, pu[k].0.0, q)
}

/// For the first `s` blocks, the def map holds exactly those with phis, each with its phi results.
spec fn defs_recorded(f: Function, pd: Seq<(BlockId, IndexSet<VReg>)>, s: int) -> bool {
    ids_distinct(f) ==> forall|q: int| 0 <= q < s ==> {
        &&& (has_key(pd, #[trigger] f.blocks@[q].id) <==> has_phi(f, q))
        &&& (has_phi(f, q) ==> holds_exactly(vreg_set_items(value_at(pd, f.blocks@[q].id)), phi_def_set(f, q)))
    }
}

/// Records the phi results of block `s`.
fn record_block_defs(f: &Function, s: usize, pdm: &mut IndexMap<BlockId, IndexSet<VReg>>)
    requires
        s < f.blocks@.len(),
        keys_distinct(block_vregs_entries(*old(pdm))),
        defs_from_blocks(*f, block_vregs_entries(*old(pdm)), s as int),
        defs_recorded(*f, block_vregs_entries(*old(pdm)), s as int),
    ensures
        keys_distinct(block_vregs_entries(*final(pdm))),
        defs_from_blocks(*f, block_vregs_entries(*final(pdm)), s + 1),
        defs_recorded(*f, block_vregs_entries(*final(pdm)), s + 1),
{
    let id = f.blocks[s].id;
    let (set, any) = phi_results(f, s);
    let ghost pd0 = block_vregs_entries(*pdm);
    if any {
        let ghost setv = set;
        block_vregs_insert(pdm, id, set);
        proof {
            let pd1 = block_vregs_entries(*pdm);
            lemma_entries_insert(pd0, id, setv);
            lemma_key_index(pd0, id);
            assert forall|k: int| #![trigger pd1[k]] 0 <= k < pd1.len() implies exists|q: int| 0 <= q < s + 1
                && #[trigger] f.blocks@[q].id == pd1[k].0 && has_phi(*f, q) by {
                if k < pd0.len() && !(has_key(pd0, id) && k == key_index(pd0, id)) {
                    assert(pd1[k] == pd0[k]);
                } else {
                    assert(pd1[k].0 == id);
                    assert(f.blocks@[s as int].id == pd1[k].0);
                }
            }
            if ids_distinct(*f) {
                assert(!has_key(pd0, id)) by {
                    if has_key(pd0, id) {
                        let k = key_index(pd0, id);
                        let q = choose|q: int| 0 <= q < s && #[trigger] f.blocks@[q].id == pd0[k].0 && has_phi(*f, q);
                    }
                }
                assert forall|q: int| 0 <= q < s + 1 implies {
                    &&& (has_key(pd1, #[trigger] f.blocks@[q].id) <==> has_phi(*f, q))
                    &&& (has_phi(*f, q) ==> holds_exactly(vreg_set_items(value_at(pd1, f.blocks@[q].id)), phi_def_set(*f, q)))
                } by {
                    if q < s { assert(f.blocks@[q].id != id); }
                }
            }
        }
    } else {
        proof {
            assert forall|k: int| #![trigger pd0[k]] 0 <= k < pd0.len() implies exists|q: int| 0 <= q < s + 1
                && #[trigger] f.blocks@[q].id == pd0[k].0 && has_phi(*f, q) by {
                let q = choose|q: int| 0 <= q < s && #[trigger] f.blocks@[q].id == pd0[k].0 && has_phi(*f, q);
                assert(0 <= q < s + 1);
            }
            if ids_distinct(*f) {
                assert(!has_key(pd0, id)) by {
                    if has_key(pd0, id) {
                        lemma_key_index(pd0, id);
                        let k = key_index(pd0, id);
                        let q = choose|q: int| 0 <= q < s && #[trigger] f.blocks@[q].id == pd0[k].0 && has_phi(*f, q);
                    }
                }
            }
        }
    }
}

/// Records the values the phis of block `s` take on each of its incoming edges.
#[verifier::rlimit(40)]
fn record_block_edges(f: &Function, s: usize, pum: &mut IndexMap<(BlockId, BlockId), IndexSet<VReg>>)
    requires
        s < f.blocks@.len(),
        keys_distinct(edge_vregs_entries(*old(pum))),
        edges_from_blocks(*f, edge_vregs_entries(*old(pum)), s as int),
        edges_recorded(*f, edge_vregs_entries(*old(pum)), s as int),
    ensures
        keys_distinct(edge_vregs_entries(*final(pum))),
        edges_from_blocks(*f, edge_vregs_entries(*final(pum)), s + 1),
        edges_recorded(*f, edge_vregs_entries(*final(pum)), s + 1),
{
    let n = f.blocks.len();
    let id = f.blocks[s].id;
    let preds = phi_preds(f, s);
    proof {
        let pu = edge_vregs_entries(*pum);
        assert forall|k: int| #![trigger pu[k]] 0 <= k < pu.len() implies exists|q: int| 0 <= q < s + 1
            && #[trigger] f.blocks@[q].id == pu[k].0.1 && phi_from(*f, pu[k].0.0, q) by {
            let q = choose|q: int| 0 <= q < s && #[trigger] f.blocks@[q].id == pu[k].0.1 && phi_from(*f, pu[k].0.0, q);
            assert(0 <= q < s + 1);
        }
        if ids_distinct(*f) {
            assert forall|p: BlockId| !(#[trigger] has_key(pu, (p, id))) by {
                if has_key(pu, (p, id)) {
                    lemma_key_index(pu, (p, id));
                    let k = key_index(pu, (p, id));
                    assert(pu[k].0 == (p, id));
                    let q = choose|q: int| 0 <= q < s && #[trigger] f.blocks@[q].id == pu[k].0.1 && phi_from(*f, pu[k].0.0, q);
                    assert(f.blocks@[q].id != f.blocks@[s as int].id);
                }
            }
        }
    }
    let mut t: usize = 0;
    while t < preds.len()
        invariant
            n == f.blocks@.len(),
            s < n,
            id == f.blocks@[s as int].id,
            t <= preds@.len(),
            preds@.no_duplicates(),
            forall|p: BlockId| #[trigger] preds@.contains(p) == phi_from(*f, p, s as int),
            keys_distinct(edge_vregs_entries(*pum)),
            forall|k: int| #![trigger edge_vregs_entries(*pum)[k]] 0 <= k < edge_vregs_entries(*pum).len() ==> exists|q: int| 0 <= q < s + 1
                && #[trigger] f.blocks@[q].id == edge_vregs_entries(*pum)[k].0.1 && phi_from(*f, edge_vregs_entries(*pum)[k].0.0, q),
            ids_distinct(*f) ==> forall|q: int, p: BlockId| 0 <= q < s ==> {
                &&& (#[trigger] has_key(edge_vregs_entries(*pum), (p, f.blocks@[q].id)) <==> phi_from(*f, p, q))
                &&& (phi_from(*f, p, q) ==> holds_exactly(vreg_set_items(value_at(edge_vregs_entries(*pum), (p, f.blocks@[q].id))), phi_edge_set(*f, p, q)))
            },
            ids_distinct(*f) ==> forall|p: BlockId| {
                &&& (#[trigger] has_key(edge_vregs_entries(*pum), (p, id)) <==> exists|t2: int| 0 <= t2 < t && #[trigger] preds@[t2] == p)
                &&& ((exists|t2: int| 0 <= t2 < t && #[trigger] preds@[t2] == p) ==>
                    holds_exactly(vreg_set_items(value_at(edge_vregs_entries(*pum), (p, id))), phi_edge_set(*f, p, s as int)))
            },
        decreases preds.len() - t,
    {
        let ghost pu0 = edge_vregs_entries(*pum);
        let key = (preds[t], id);
        let set = phi_edge_values(f, s, preds[t]);
        edge_vregs_insert(pum, key, set);
        proof {
            let pu1 = edge_vregs_entries(*pum);
            lemma_entries_insert(pu0, key, set);
            lemma_key_index(pu0, key);
            assert(preds@.contains(preds@[t as int]));
            assert forall|k: int| #![trigger pu1[k]] 0 <= k < pu1.len() implies exists|q: int| 0 <= q < s + 1
                && #[trigger] f.blocks@[q].id == pu1[k].0.1 && phi_from(*f, pu1[k].0.0, q) by {
                if k < pu0.len() && !(has_key(pu0, key) && k == key_index(pu0, key)) {
                    assert(pu1[k] == pu0[k]);
                } else {
                    assert(pu1[k].0 == key);
                    assert(f.blocks@[s as int].id == pu1[k].0.1);
                }
            }
            if ids_distinct(*f) {
                assert(!has_key(pu0, key)) by {
                    if has_key(pu0, key) {
                        let t2 = choose|t2: int| 0 <= t2 < t && #[trigger] preds@[t2] == preds@[t as int];
                    }
                }
                assert forall|q: int, p: BlockId| 0 <= q < s implies {
                    &&& (#[trigger] has_key(pu1, (p, f.blocks@[q].id)) <==> phi_from(*f, p, q))
                    &&& (phi_from(*f, p, q) ==> holds_exactly(vreg_set_items(value_at(pu1, (p, f.blocks@[q].id))), phi_edge_set(*f, p, q)))
                } by {
                    assert(0 <= q < s);
                    assert(s < f.blocks@.len());
                    assert(ids_distinct(*f));
                    assert(f.blocks@[q].id != f.blocks@[s as int].id);
                    assert((p, f.blocks@[q].id) != key);
                    assert(has_key(pu1, (p, f.blocks@[q].id)) == has_key(pu0, (p, f.blocks@[q].id)));
                    assert(has_key(pu0, (p, f.blocks@[q].id)) <==> phi_from(*f, p, q));
                    if phi_from(*f, p, q) {
                        assert(value_at(pu1, (p, f.blocks@[q].id)) == value_at(pu0, (p, f.blocks@[q].id)));
                    }
                }
                assert forall|p: BlockId| {
                    &&& (#[trigger] has_key(pu1, (p, id)) <==> exists|t2: int| 0 <= t2 < t + 1 && #[trigger] preds@[t2] == p)
                    &&& ((exists|t2: int| 0 <= t2 < t + 1 && #[trigger] preds@[t2] == p) ==>
                        holds_exactly(vreg_set_items(value_at(pu1, (p, id))), phi_edge_set(*f, p, s as int)))
                } by {
                    if p == preds@[t as int] {
                        assert(has_key(pu1, (p, id)));
                        assert(value_at(pu1, (p, id)) == set);
                        assert(exists|t2: int| 0 <= t2 < t + 1 && #[trigger] preds@[t2] == p) by {
                            assert(preds@[t as int] == p);
                        }
                    } else {
                        assert((p, id) != key);
                        assert(has_key(pu1, (p, id)) == has_key(pu0, (p, id)));
                        assert(has_key(pu0, (p, id)) <==> exists|t2: int| 0 <= t2 < t && #[trigger] preds@[t2] == p);
                        if exists|t2: int| 0 <= t2 < t + 1 && #[trigger] preds@[t2] == p {
                            let t2 = choose|t2: int| 0 <= t2 < t + 1 && #[trigger] preds@[t2] == p;
                            assert(t2 < t);
                            assert(value_at(pu1, (p, id)) == value_at(pu0, (p, id)));
                        }
                        if exists|t2: int| 0 <= t2 < t && #[trigger] preds@[t2] == p {
                            let t2 = choose|t2: int| 0 <= t2 < t && #[trigger] preds@[t2] == p;
                            assert(0 <= t2 < t + 1 && preds@[t2] == p);
                        }
                    }
                }
            }
        }
        t += 1;
    }
    proof {
        if ids_distinct(*f) {
            assert forall|q: int, p: BlockId| 0 <= q < s + 1 implies {
                &&& (#[trigger] has_key(edge_vregs_entries(*pum), (p, f.blocks@[q].id)) <==> phi_from(*f, p, q))
                &&& (phi_from(*f, p, q) ==> holds_exactly(vreg_set_items(value_at(edge_vregs_entries(*pum), (p, f.blocks@[q].id))), phi_edge_set(*f, p, q)))
            } by {
                if q < s {
                    assert(has_key(edge_vregs_entries(*pum), (p, f.blocks@[q].id)) <==> phi_from(*f, p, q));
                } else {
                    assert(f.blocks@[q].id == id);
                    if phi_from(*f, p, q) {
                        assert(preds@.contains(p));
                        let t2 = choose|t2: int| 0 <= t2 < preds@.len() && preds@[t2] == p;
                        assert(exists|t3: int| 0 <= t3 < preds@.len() && #[trigger] preds@[t3] == p);
                    }
                    if exists|t2: int| 0 <= t2 < preds@.len() && #[trigger] preds@[t2] == p {
                        let t2 = choose|t2: int| 0 <= t2 < preds@.len() && #[trigger] preds@[t2] == p;
                        assert(preds@.contains(p));
                    }
                }
            }
        }
    }
    assert(edges_recorded(*f, edge_vregs_entries(*pum), s + 1));
}

/// The phi results of every block with phis, and the values phis take on each edge.
fn collect_phi_data(f: &Function) -> (r: (IndexMap<BlockId, IndexSet<VReg>>, IndexMap<(BlockId, BlockId), IndexSet<VReg>>))
    ensures
        phi_data_ok(*f, r.0, r.1),
{
    let n = f.blocks.len();
    let mut pdm = block_vregs_new();
    let mut pum = edge_vregs_new();
    let mut s: usize = 0;
    while s < n
        invariant
            n == f.blocks@.len(),
            s <= n,
            keys_distinct(block_vregs_entries(pdm)),
            keys_distinct(edge_vregs_entries(pum)),
            defs_from_blocks(*f, block_vregs_entries(pdm), s as int),
            edges_from_blocks(*f, edge_vregs_entries(pum), s as int),
            defs_recorded(*f, block_vregs_entries(pdm), s as int),
            edges_recorded(*f, edge_vregs_entries(pum), s as int),
        decreases n - s,
    {
        record_block_defs(f, s, &mut pdm);
        record_block_edges(f, s, &mut pum);
        s += 1;
    }
    (pdm, pum)
}

/// No later block has the id of block `b`: its entry in a map keyed by block
/// id is its own.
pub open spec fn last_with_id(f: Function, b: int) -> bool {
    forall|q: int| b < q < f.blocks@.len() ==> f.blocks@[q].id != f.blocks@[b].id
}

/// The liveness of every block: the least solution of the liveness equations,
/// where a phi's inputs are live out of their own predecessor only and its
/// result is defined on entry to its block; when two blocks share an id, the
/// entry for that id is the later block's. Fails on the last block, in layout
/// order, with a successor that names no block.
pub fn compute_liveness(f: &Function) -> (r: Result<Liveness, CfgError>)
    ensures
        r is Ok <==> successors_known(*f),
        r matches Err(e) ==> is_last_unknown(*f, e),
        r matches Ok(l) ==> keyed_by_blocks(*f, liveness_entries(l.per_block))
            && (forall|b: int| 0 <= b < f.blocks@.len() && last_with_id(*f, b) ==> {
                let bl = #[trigger] value_at(liveness_entries(l.per_block), f.blocks@[b].id);
                &&& holds_exactly(vreg_set_items(bl.live_in), live_fix(*f).0[b])
                &&& holds_exactly(vreg_set_items(bl.live_out), live_fix(*f).1[b])
                &&& holds_exactly(vreg_set_items(bl.use_set), use_set(*f, b))
                &&& holds_exactly(vreg_set_items(bl.def_set), def_set(*f, b))
            }),
        r matches Ok(l) ==> phi_data_ok(*f, l.phi_defs, l.phi_uses),
        r is Ok ==> live_least(*f, live_fix(*f).0, live_fix(*f).1),
{
    let (phi_defs, phi_uses) = collect_phi_data(f);
    check_successors_from_end(f)?;
    let c = liveness_core(f);
    let n = f.blocks.len();
    let mut m = liveness_map_new();
    let mut b: usize = 0;
    while b < n
        invariant
            n == f.blocks@.len(),
            b <= n,
            core_ok(*f, c),
            live_least(*f, live_fix(*f).0, live_fix(*f).1),
            keys_distinct(liveness_entries(m)),
            forall|q: int| 0 <= q < b ==> has_key(liveness_entries(m), #[trigger] f.blocks@[q].id),
            forall|q: int| 0 <= q < liveness_entries(m).len() ==> f.has_block(#[trigger] liveness_entries(m)[q].0),
            ids_distinct(*f) ==> liveness_entries(m).len() == b
                && (forall|q: int| 0 <= q < b ==> #[trigger] liveness_entries(m)[q].0 == f.blocks@[q].id),
            forall|q: int| 0 <= q < b && (forall|q2: int| q < q2 < b ==> f.blocks@[q2].id != f.blocks@[q].id) ==> {
                    let bl = #[trigger] value_at(liveness_entries(m), f.blocks@[q].id);
                    &&& holds_exactly(vreg_set_items(bl.live_in), live_fix(*f).0[q])
                    &&& holds_exactly(vreg_set_items(bl.live_out), live_fix(*f).1[q])
                    &&& holds_exactly(vreg_set_items(bl.use_set), use_set(*f, q))
                    &&& holds_exactly(vreg_set_items(bl.def_set), def_set(*f, q))
                },
        decreases n - b,
    {
        let bl = block_liveness(f, &c, b);
        let ghost before = liveness_entries(m);
        let ghost blv = bl;
        let id = f.blocks[b].id;
        liveness_map_insert(&mut m, id, bl);
        proof {
            let after = liveness_entries(m);
            lemma_entries_insert(before, id, blv);
            assert(f.has_block(id));
            assert forall|q: int| 0 <= q < after.len() implies f.has_block(#[trigger] after[q].0) by {
                lemma_key_index(before, id);
                if q < before.len() && !(has_key(before, id) && q == key_index(before, id)) {
                    assert(after[q] == before[q]);
                }
            }
            if ids_distinct(*f) {
                assert(!has_key(before, id)) by {
                    lemma_key_index(before, id);
                    if has_key(before, id) {
                        let w = key_index(before, id);
                        assert(before[w].0 == f.blocks@[w].id);
                    }
                }
                assert forall|q: int| 0 <= q <= b implies #[trigger] after[q].0 == f.blocks@[q].id by {
                    if q < b { assert(after[q] == before[q]); }
                }
            }
            assert forall|q: int| 0 <= q <= b && (forall|q2: int| q < q2 < b + 1 ==> f.blocks@[q2].id != f.blocks@[q].id) implies {
                let bl = #[trigger] value_at(after, f.blocks@[q].id);
                &&& holds_exactly(vreg_set_items(bl.live_in), live_fix(*f).0[q])
                &&& holds_exactly(vreg_set_items(bl.live_out), live_fix(*f).1[q])
                &&& holds_exactly(vreg_set_items(bl.use_set), use_set(*f, q))
                &&& holds_exactly(vreg_set_items(bl.def_set), def_set(*f, q))
            } by {
                if q < b {
                    assert(f.blocks@[b as int].id != f.blocks@[q].id);
                    assert(forall|q2: int| q < q2 < b ==> f.blocks@[q2].id != f.blocks@[q].id);
                    assert(value_at(after, f.blocks@[q].id) == value_at(before, f.blocks@[q].id));
                }
            }
        }
        b += 1;
    }
    Ok(Liveness { per_block: m, phi_defs, phi_uses })
}

} // verus!
