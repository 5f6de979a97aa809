//! Control-flow facts of a function, over block positions: edges, paths,
//! reachability and dominators (the greatest solution of the dominator equations).
use vstd::prelude::*;
use indexmap::{IndexMap, IndexSet};
use crate::ir::{Function, Block, Terminator, BlockId, spec_successors, first_block_index, lemma_first_block_index};
use crate::collections::{
    block_set_items, block_set_new, block_set_insert, block_set_contains, block_sets_entries,
    block_sets_new, block_sets_insert, block_sets_get, set_insert, entries_insert, has_key, value_at,
    keys_distinct, lemma_entries_insert, lemma_key_index,
};

verus! {

/// Block `j` jumps to block `i` (some successor of `j` names the id of `i`).
pub open spec fn edge(f: Function, j: int, i: int) -> bool {
    spec_successors(f.blocks@[j].term).contains(f.blocks@[i].id)
}

/// The position of the entry block (the first block with the entry id), or -1.
pub open spec fn entry_index(f: Function) -> int {
    first_block_index(f.blocks@, f.entry)
}

/// Block ids are pairwise distinct.
pub open spec fn ids_distinct(f: Function) -> bool {
    forall|i: int, j: int| 0 <= i < j < f.blocks@.len() ==> f.blocks@[i].id != f.blocks@[j].id
}

/// Whether a terminator names `id` among its successors.
pub fn targets(term: &Terminator, id: BlockId) -> (r: bool)
    ensures
        r == spec_successors(*term).contains(id),
{
    match *term {
        Terminator::Ret { .. } => false,
        Terminator::Jmp { target } => {
            proof { assert(seq![target][0] == target); }
            target == id
        },
        Terminator::Br { then_bb, else_bb, .. } => {
            proof {
                let s = seq![then_bb, else_bb];
                assert(s[0] == then_bb && s[1] == else_bb);
                assert(s.contains(id) ==> (s[0] == id || s[1] == id));
            }
            then_bb == id || else_bb == id
        },
    }
}

/// Whether block `j` jumps to block `i`.
pub fn has_edge_at(f: &Function, j: usize, i: usize) -> (r: bool)
    requires
        j < f.blocks@.len(),
        i < f.blocks@.len(),
    ensures
        r == edge(*f, j as int, i as int),
{
    targets(&f.blocks[j].term, f.blocks[i].id)
}

// ---------------------------------------------------------------------------
// Boolean matrices: row `i` of a dominator matrix marks the blocks dominating `i`.

/// The number of `true` entries of a row.
pub open spec fn row_count(r: Seq<bool>) -> nat
    decreases r.len(),
{
    if r.len() == 0 {
        0
    } else {
        row_count(r.drop_last()) + if r.last() { 1nat } else { 0nat }
    }
}

/// The number of `true` entries of a matrix.
pub open spec fn mat_count(d: Seq<Seq<bool>>) -> nat
    decreases d.len(),
{
    if d.len() == 0 {
        0
    } else {
        mat_count(d.drop_last()) + row_count(d.last())
    }
}

/// The rows of a matrix held as vectors.
pub open spec fn mat(d: Seq<Vec<bool>>) -> Seq<Seq<bool>> {
    d.map_values(|r: Vec<bool>| r@)
}

/// A square matrix over `n` blocks.
pub open spec fn square(n: int, d: Seq<Seq<bool>>) -> bool {
    d.len() == n && forall|i: int| 0 <= i < n ==> (#[trigger] d[i]).len() == n
}

/// Pointwise inclusion of matrices.
pub open spec fn mat_le(n: int, a: Seq<Seq<bool>>, b: Seq<Seq<bool>>) -> bool {
    forall|i: int, k: int| 0 <= i < n && 0 <= k < n && #[trigger] a[i][k] ==> b[i][k]
}

pub proof fn lemma_row_count_le(a: Seq<bool>, b: Seq<bool>)
    requires
        a.len() == b.len(),
        forall|k: int| 0 <= k < a.len() && a[k] ==> b[k],
    ensures
        row_count(a) <= row_count(b),
        (exists|k: int| 0 <= k < a.len() && b[k] && !a[k]) ==> row_count(a) < row_count(b),
    decreases a.len(),
{
    if a.len() > 0 {
        let a1 = a.drop_last();
        let b1 = b.drop_last();
        lemma_row_count_le(a1, b1);
        if exists|k: int| 0 <= k < a.len() && b[k] && !a[k] {
            let k = choose|k: int| 0 <= k < a.len() && b[k] && !a[k];
            if k < a.len() - 1 {
                assert(b1[k] && !a1[k]);
            }
        }
    }
}

pub proof fn lemma_row_count_bound(a: Seq<bool>)
    ensures
        row_count(a) <= a.len(),
    decreases a.len(),
{
    if a.len() > 0 {
        lemma_row_count_bound(a.drop_last());
    }
}

pub proof fn lemma_mat_update(d: Seq<Seq<bool>>, i: int, r: Seq<bool>)
    requires
        0 <= i < d.len(),
    ensures
        mat_count(d.update(i, r)) + row_count(d[i]) == mat_count(d) + row_count(r),
    decreases d.len(),
{
    if i == d.len() - 1 {
        assert(d.update(i, r).drop_last() =~= d.drop_last());
    } else {
        lemma_mat_update(d.drop_last(), i, r);
        assert(d.update(i, r).drop_last() =~= d.drop_last().update(i, r));
    }
}

// ---------------------------------------------------------------------------
// Dominator equations.

/// One step of the dominator equations at row `i`, column `k`: the entry is
/// dominated by itself alone; another block by itself and by every block that
/// dominates all of its predecessors (by nothing else when it has none).
pub open spec fn dom_step(f: Function, d: Seq<Seq<bool>>, i: int, k: int) -> bool {
    let n = f.blocks@.len() as int;
    if i == entry_index(f) {
        k == i
    } else {
        k == i || ((exists|j: int| 0 <= j < n && #[trigger] edge(f, j, i))
            && (forall|j: int| 0 <= j < n && #[trigger] edge(f, j, i) ==> d[j][k]))
    }
}

/// `d` solves the dominator equations.
pub open spec fn dom_solution(f: Function, d: Seq<Seq<bool>>) -> bool {
    let n = f.blocks@.len() as int;
    &&& square(n, d)
    &&& forall|i: int, k: int| 0 <= i < n && 0 <= k < n ==> #[trigger] d[i][k] == dom_step(f, d, i, k)
}

/// Every mark of `d` is justified by the equations applied to `d`.
pub open spec fn dom_post(f: Function, d: Seq<Seq<bool>>) -> bool {
    let n = f.blocks@.len() as int;
    &&& square(n, d)
    &&& forall|i: int, k: int| 0 <= i < n && 0 <= k < n && #[trigger] d[i][k] ==> dom_step(f, d, i, k)
}

/// The equations applied to `d` mark nothing that `d` does not mark.
pub open spec fn dom_pre(f: Function, d: Seq<Seq<bool>>) -> bool {
    let n = f.blocks@.len() as int;
    &&& square(n, d)
    &&& forall|i: int, k: int| 0 <= i < n && 0 <= k < n && dom_step(f, d, i, k) ==> #[trigger] d[i][k]
}

/// `d` is the greatest solution: it solves the equations and contains every
/// matrix whose marks the equations justify.
pub open spec fn dom_greatest(f: Function, d: Seq<Seq<bool>>) -> bool {
    &&& dom_solution(f, d)
    &&& forall|s: Seq<Seq<bool>>| #[trigger] dom_post(f, s) ==> mat_le(f.blocks@.len() as int, s, d)
}

/// The dominator matrix of a function whose entry block exists.
pub open spec fn dom_fix(f: Function) -> Seq<Seq<bool>> {
    choose|d: Seq<Seq<bool>>| dom_greatest(f, d)
}

/// Block `k` dominates block `i` (by position).
pub open spec fn dominates_at(f: Function, k: int, i: int) -> bool {
    dom_fix(f)[i][k]
}

pub proof fn lemma_dom_step_mono(f: Function, a: Seq<Seq<bool>>, b: Seq<Seq<bool>>, i: int, k: int)
    requires
        square(f.blocks@.len() as int, a),
        square(f.blocks@.len() as int, b),
        mat_le(f.blocks@.len() as int, a, b),
        0 <= k < f.blocks@.len(),
        dom_step(f, a, i, k),
    ensures
        dom_step(f, b, i, k),
{
    let n = f.blocks@.len() as int;
    if i != entry_index(f) && k != i {
        assert forall|j: int| 0 <= j < n && #[trigger] edge(f, j, i) implies b[j][k] by {
            assert(a[j][k]);
        }
    }
}

/// The greatest solution is unique.
pub proof fn lemma_dom_fix_unique(f: Function, d: Seq<Seq<bool>>)
    requires
        dom_greatest(f, d),
    ensures
        dom_fix(f) == d,
{
    let n = f.blocks@.len() as int;
    let g = dom_fix(f);
    assert(dom_greatest(f, g));
    assert(dom_post(f, d));
    assert(dom_post(f, g));
    assert(mat_le(n, d, g));
    assert(mat_le(n, g, d));
    assert forall|i: int| 0 <= i < n implies g[i] =~= d[i] by {
        assert forall|k: int| 0 <= k < n implies g[i][k] == d[i][k] by {
            if g[i][k] { assert(d[i][k]); }
            if d[i][k] { assert(g[i][k]); }
        }
    }
    assert(g =~= d);
}

/// Whether two rows are equal.
fn rows_equal(a: &Vec<bool>, b: &Vec<bool>) -> (r: bool)
    ensures
        r == (a@ == b@),
{
    if a.len() != b.len() {
        return false;
    }
    let mut k: usize = 0;
    while k < a.len()
        invariant
            a.len() == b.len(),
            k <= a.len(),
            forall|q: int| 0 <= q < k ==> a@[q] == b@[q],
        decreases a.len() - k,
    {
        if a[k] != b[k] {
            return false;
        }
        k += 1;
    }
    assert(a@ =~= b@);
    true
}

/// A row of `n` copies of `x`.
fn filled_row(n: usize, x: bool) -> (r: Vec<bool>)
    ensures
        r@.len() == n,
        forall|k: int| 0 <= k < n ==> r@[k] == x,
{
    let mut r: Vec<bool> = Vec::new();
    let mut k: usize = 0;
    while k < n
        invariant
            k <= n,
            r@.len() == k,
            forall|q: int| 0 <= q < k ==> r@[q] == x,
        decreases n - k,
    {
        r.push(x);
        k += 1;
    }
    r
}

/// The row of the equations at a non-entry block `i`.
fn dom_row(f: &Function, d: &Vec<Vec<bool>>, i: usize) -> (row: Vec<bool>)
    requires
        square(f.blocks@.len() as int, mat(d@)),
        i < f.blocks@.len(),
        i as int != entry_index(*f),
    ensures
        row@.len() == f.blocks@.len(),
        forall|k: int| 0 <= k < f.blocks@.len() ==> row@[k] == dom_step(*f, mat(d@), i as int, k),
{
    let n = f.blocks.len();
    let ghost m = mat(d@);
    let mut row = filled_row(n, true);
    let mut has_pred = false;
    let mut j: usize = 0;
    while j < n
        invariant
            n == f.blocks@.len(),
            square(n as int, m),
            m == mat(d@),
            i < n,
            j <= n,
            row@.len() == n,
            has_pred == exists|q: int| 0 <= q < j && #[trigger] edge(*f, q, i as int),
            forall|k: int| 0 <= k < n ==> row@[k] == (forall|q: int| 0 <= q < j && #[trigger] edge(*f, q, i as int) ==> m[q][k]),
        decreases n - j,
    {
        if has_edge_at(f, j, i) {
            has_pred = true;
            let dj = &d[j];
            assert(dj@ == m[j as int]);
            let mut k: usize = 0;
            while k < n
                invariant
                    n == f.blocks@.len(),
                    square(n as int, m),
                    m == mat(d@),
                    dj@ == m[j as int],
                    j < n,
                    k <= n,
                    row@.len() == n,
                    edge(*f, j as int, i as int),
                    forall|q: int| 0 <= q < k ==> row@[q] == (forall|p: int| 0 <= p <= j && #[trigger] edge(*f, p, i as int) ==> m[p][q]),
                    forall|q: int| k <= q < n ==> row@[q] == (forall|p: int| 0 <= p < j && #[trigger] edge(*f, p, i as int) ==> m[p][q]),
                decreases n - k,
            {
                let x = row[k] && dj[k];
                row.set(k, x);
                proof {
                    let kk = k as int;
                    if !m[j as int][kk] {
                        assert(!(forall|p: int| 0 <= p <= j && #[trigger] edge(*f, p, i as int) ==> m[p][kk]));
                    }
                    if row@[kk] {
                        assert forall|p: int| 0 <= p <= j && #[trigger] edge(*f, p, i as int) implies m[p][kk] by {
                            if p < j {} else {}
                        }
                    }
                }
                k += 1;
            }
        }
        j += 1;
    }
    if !has_pred {
        row = filled_row(n, false);
    }
    row.set(i, true);
    proof {
        let ghost nn = n as int;
        assert forall|k: int| 0 <= k < n implies row@[k] == dom_step(*f, m, i as int, k) by {
            if k != i && has_pred {
                assert(row@[k] == (forall|q: int| 0 <= q < nn && #[trigger] edge(*f, q, i as int) ==> m[q][k]));
            }
        }
    }
    row
}

/// The greatest solution of the dominator equations, computed by iterating them
/// from the full matrix (the entry row marking the entry alone) until nothing changes.
pub fn dominator_matrix(f: &Function, e: usize) -> (d: Vec<Vec<bool>>)
    requires
        e < f.blocks@.len(),
        e as int == entry_index(*f),
    ensures
        dom_greatest(*f, mat(d@)),
        mat(d@) == dom_fix(*f),
{
    let n = f.blocks.len();
    let ghost nn = n as int;
    let mut d: Vec<Vec<bool>> = Vec::new();
    let mut i: usize = 0;
    while i < n
        invariant
            n == f.blocks@.len(),
            e < n,
            i <= n,
            d@.len() == i,
            forall|q: int| 0 <= q < i ==> (#[trigger] d@[q])@.len() == n,
            forall|q: int, k: int| 0 <= q < i && 0 <= k < n ==> (#[trigger] d@[q]@[k]) == (q != e || k == e),
        decreases n - i,
    {
        if i == e {
            let mut row = filled_row(n, false);
            row.set(e, true);
            d.push(row);
        } else {
            d.push(filled_row(n, true));
        }
        i += 1;
    }
    proof {
        let m = mat(d@);
        assert(square(nn, m));
        assert forall|s: Seq<Seq<bool>>| #[trigger] dom_post(*f, s) implies mat_le(nn, s, m) by {
            assert forall|q: int, k: int| 0 <= q < nn && 0 <= k < nn && #[trigger] s[q][k] implies m[q][k] by {
                assert(dom_step(*f, s, q, k));
            }
        }
        assert forall|q: int, k: int| 0 <= q < nn && 0 <= k < nn && dom_step(*f, m, q, k) implies #[trigger] m[q][k] by {}
        assert(dom_pre(*f, m));
    }
    let mut changed = true;
    while changed
        invariant
            n == f.blocks@.len(),
            e < n,
            e as int == entry_index(*f),
            square(nn, mat(d@)),
            dom_pre(*f, mat(d@)),
            forall|k: int| 0 <= k < n ==> #[trigger] mat(d@)[e as int][k] == (k == e),
            forall|s: Seq<Seq<bool>>| #[trigger] dom_post(*f, s) ==> mat_le(nn, s, mat(d@)),
            !changed ==> dom_solution(*f, mat(d@)),
        decreases mat_count(mat(d@)) + if changed { 1nat } else { 0nat },
    {
        changed = false;
        let ghost start = mat(d@);
        let mut i: usize = 0;
        while i < n
            invariant
                n == f.blocks@.len(),
                e < n,
                e as int == entry_index(*f),
                i <= n,
                square(nn, mat(d@)),
                dom_pre(*f, mat(d@)),
                forall|k: int| 0 <= k < n ==> #[trigger] mat(d@)[e as int][k] == (k == e),
                forall|s: Seq<Seq<bool>>| #[trigger] dom_post(*f, s) ==> mat_le(nn, s, mat(d@)),
                mat_count(mat(d@)) <= mat_count(start),
                changed ==> mat_count(mat(d@)) < mat_count(start),
                !changed ==> mat(d@) == start,
                !changed ==> forall|q: int, k: int| 0 <= q < i && 0 <= k < n
                    ==> #[trigger] mat(d@)[q][k] == dom_step(*f, mat(d@), q, k),
            decreases n - i,
        {
            if i == e {
                proof {
                    let m = mat(d@);
                    assert forall|k: int| 0 <= k < n implies #[trigger] m[e as int][k] == dom_step(*f, m, e as int, k) by {
                        assert(m[e as int][k] == (k == e));
                    }
                }
            } else {
                let row = dom_row(f, &d, i);
                let same = rows_equal(&row, &d[i]);
                if !same {
                    let ghost old_m = mat(d@);
                    d.set(i, row);
                    proof {
                        let m = mat(d@);
                        let ii = i as int;
                        assert(m =~= old_m.update(ii, row@));
                        assert forall|k: int| 0 <= k < n implies #[trigger] m[e as int][k] == (k == e) by {
                            assert(m[e as int] == old_m[e as int]);
                        }
                        assert forall|k: int| 0 <= k < nn && row@[k] implies old_m[ii][k] by {
                            assert(dom_step(*f, old_m, ii, k));
                            assert(old_m[ii][k]);
                        }
                        assert(mat_le(nn, m, old_m)) by {
                            assert forall|q: int, k: int| 0 <= q < nn && 0 <= k < nn && #[trigger] m[q][k] implies old_m[q][k] by {
                                if q == ii {} else {}
                            }
                        }
                        assert(square(nn, m));
                        assert forall|q: int, k: int| 0 <= q < nn && 0 <= k < nn && dom_step(*f, m, q, k) implies #[trigger] m[q][k] by {
                            lemma_dom_step_mono(*f, m, old_m, q, k);
                            if q == ii {
                            } else {
                                assert(old_m[q][k]);
                            }
                        }
                        assert forall|s: Seq<Seq<bool>>| #[trigger] dom_post(*f, s) implies mat_le(nn, s, m) by {
                            assert(mat_le(nn, s, old_m));
                            assert forall|q: int, k: int| 0 <= q < nn && 0 <= k < nn && #[trigger] s[q][k] implies m[q][k] by {
                                if q == ii {
                                    assert(dom_step(*f, s, q, k));
                                    lemma_dom_step_mono(*f, s, old_m, q, k);
                                }
                            }
                        }
                        assert(row@ != old_m[ii]);
                        assert(exists|k: int| 0 <= k < nn && old_m[ii][k] && !row@[k]) by {
                            if forall|k: int| 0 <= k < nn ==> !(old_m[ii][k] && !row@[k]) {
                                assert(row@ =~= old_m[ii]);
                            }
                        }
                        lemma_row_count_le(row@, old_m[ii]);
                        lemma_mat_update(old_m, ii, row@);
                    }
                    changed = true;
                } else {
                    proof {
                        let m = mat(d@);
                        assert forall|k: int| 0 <= k < n implies #[trigger] m[i as int][k] == dom_step(*f, m, i as int, k) by {
                            assert(row@[k] == m[i as int][k]);
                        }
                    }
                }
            }
            i += 1;
        }
    }
    proof {
        lemma_dom_fix_unique(*f, mat(d@));
    }
    d
}

// ---------------------------------------------------------------------------
// Paths, reachability, and what the dominator matrix means.

/// One step of a block path: position `k` jumps to position `k + 1`.
pub open spec fn path_step(f: Function, p: Seq<int>, k: int) -> bool {
    edge(f, p[k], p[k + 1])
}

/// A path of block positions from the entry block along edges.
pub open spec fn is_path(f: Function, p: Seq<int>) -> bool {
    &&& p.len() >= 1
    &&& p[0] == entry_index(f)
    &&& forall|k: int| 0 <= k < p.len() ==> 0 <= #[trigger] p[k] < f.blocks@.len()
    &&& forall|k: int| 0 <= k < p.len() - 1 ==> #[trigger] path_step(f, p, k)
}

/// Some path from the entry reaches block `i`.
pub open spec fn reachable(f: Function, i: int) -> bool {
    exists|p: Seq<int>| #[trigger] is_path(f, p) && p.last() == i
}

/// Every path from the entry to block `i` passes through block `k`.
pub open spec fn path_dominates(f: Function, k: int, i: int) -> bool {
    forall|p: Seq<int>| #[trigger] is_path(f, p) && p.last() == i ==> p.contains(k)
}

/// Every block is reachable from the entry.
pub open spec fn all_reachable(f: Function) -> bool {
    forall|i: int| 0 <= i < f.blocks@.len() ==> #[trigger] reachable(f, i)
}

/// The matrix of path dominance.
pub open spec fn path_matrix(f: Function) -> Seq<Seq<bool>> {
    let n = f.blocks@.len();
    Seq::new(n, |i: int| Seq::new(n, |k: int| path_dominates(f, k, i)))
}

pub proof fn lemma_path_extend(f: Function, p: Seq<int>, i: int)
    requires
        is_path(f, p),
        0 <= i < f.blocks@.len(),
        edge(f, p.last(), i),
    ensures
        is_path(f, p.push(i)),
        p.push(i).last() == i,
{
    let q = p.push(i);
    assert forall|k: int| 0 <= k < q.len() - 1 implies #[trigger] path_step(f, q, k) by {
        if k < p.len() - 1 {
            assert(path_step(f, p, k));
        }
    }
    assert forall|k: int| 0 <= k < q.len() implies 0 <= #[trigger] q[k] < f.blocks@.len() by {
        if k < p.len() { assert(q[k] == p[k]); }
    }
}

pub proof fn lemma_path_prefix(f: Function, p: Seq<int>)
    requires
        is_path(f, p),
        p.len() >= 2,
    ensures
        is_path(f, p.drop_last()),
        edge(f, p.drop_last().last(), p.last()),
{
    let q = p.drop_last();
    assert(path_step(f, p, p.len() - 2));
    assert forall|k: int| 0 <= k < q.len() - 1 implies #[trigger] path_step(f, q, k) by {
        assert(path_step(f, p, k));
    }
    assert forall|k: int| 0 <= k < q.len() implies 0 <= #[trigger] q[k] < f.blocks@.len() by {
        assert(q[k] == p[k]);
    }
}

/// A mark justified by the equations lies on every path to its block.
proof fn lemma_post_on_paths(f: Function, s: Seq<Seq<bool>>, p: Seq<int>, kk: int)
    requires
        dom_post(f, s),
        is_path(f, p),
        0 <= kk < f.blocks@.len(),
        s[p.last()][kk],
    ensures
        p.contains(kk),
    decreases p.len(),
{
    let n = f.blocks@.len() as int;
    let i = p.last();
    assert(0 <= p[p.len() - 1] < n);
    assert(dom_step(f, s, i, kk));
    if i == entry_index(f) {
        assert(p[0] == kk);
    } else if kk == i {
        assert(p[p.len() - 1] == kk);
    } else {
        assert(p.len() >= 2);
        lemma_path_prefix(f, p);
        let q = p.drop_last();
        let j = q.last();
        assert(0 <= q[q.len() - 1] < n);
        assert(s[j][kk]);
        lemma_post_on_paths(f, s, q, kk);
        let w = choose|x: int| 0 <= x < q.len() && q[x] == kk;
        assert(p[w] == kk);
    }
}

/// When every block is reachable, path dominance solves the equations and
/// contains every matrix they justify.
proof fn lemma_path_matrix_greatest(f: Function)
    requires
        0 <= entry_index(f),
        all_reachable(f),
    ensures
        dom_greatest(f, path_matrix(f)),
{
    let n = f.blocks@.len() as int;
    let m = path_matrix(f);
    let e = entry_index(f);
    lemma_first_block_index(f.blocks@, f.entry);
    assert(square(n, m));
    assert forall|i: int, k: int| 0 <= i < n && 0 <= k < n implies #[trigger] m[i][k] == dom_step(f, m, i, k) by {
        assert(m[i][k] == path_dominates(f, k, i));
        assert(reachable(f, i));
        let p0 = choose|p: Seq<int>| #[trigger] is_path(f, p) && p.last() == i;
        if i == e {
            let single = seq![e];
            assert(is_path(f, single)) by {
                assert forall|q: int| 0 <= q < single.len() implies 0 <= #[trigger] single[q] < n by {}
            }
            if m[i][k] {
                assert(single.contains(k));
                assert(single[0] == k);
            }
            if k == i {
                assert forall|p: Seq<int>| #[trigger] is_path(f, p) && p.last() == i implies p.contains(k) by {
                    assert(p[0] == k);
                }
            }
        } else {
            if m[i][k] && k != i {
                assert(p0.len() >= 2);
                lemma_path_prefix(f, p0);
                let j0 = p0.drop_last().last();
                assert(0 <= p0[p0.len() - 2] < n);
                assert(edge(f, j0, i));
                assert forall|j: int| 0 <= j < n && #[trigger] edge(f, j, i) implies m[j][k] by {
                    assert forall|q: Seq<int>| #[trigger] is_path(f, q) && q.last() == j implies q.contains(k) by {
                        lemma_path_extend(f, q, i);
                        let r = q.push(i);
                        assert(r.contains(k));
                        let w = choose|x: int| 0 <= x < r.len() && r[x] == k;
                        assert(w < q.len());
                        assert(q[w] == k);
                    }
                }
            }
            if dom_step(f, m, i, k) {
                assert forall|p: Seq<int>| #[trigger] is_path(f, p) && p.last() == i implies p.contains(k) by {
                    if k == i {
                        assert(p[p.len() - 1] == k);
                    } else {
                        assert(p.len() >= 2);
                        lemma_path_prefix(f, p);
                        let q = p.drop_last();
                        let j = q.last();
                        assert(0 <= q[q.len() - 1] < n);
                        assert(edge(f, j, i));
                        assert(m[j][k]);
                        assert(path_dominates(f, k, j));
                        assert(q.contains(k));
                        let w = choose|x: int| 0 <= x < q.len() && q[x] == k;
                        assert(p[w] == k);
                    }
                }
            }
        }
    }
    assert forall|s: Seq<Seq<bool>>| #[trigger] dom_post(f, s) implies mat_le(n, s, m) by {
        assert forall|i: int, k: int| 0 <= i < n && 0 <= k < n && #[trigger] s[i][k] implies m[i][k] by {
            assert forall|p: Seq<int>| #[trigger] is_path(f, p) && p.last() == i implies p.contains(k) by {
                lemma_post_on_paths(f, s, p, k);
            }
        }
    }
}

/// Dominators are path dominators: when every block of a function is reachable
/// from its entry block, block `k` dominates block `i` exactly when every path
/// from the entry to `i` passes through `k`.
pub proof fn lemma_dominators_are_path_dominators(f: Function)
    requires
        0 <= entry_index(f),
        all_reachable(f),
    ensures
        dom_greatest(f, dom_fix(f)),
        forall|k: int, i: int| 0 <= k < f.blocks@.len() && 0 <= i < f.blocks@.len()
            ==> (#[trigger] dominates_at(f, k, i) <==> path_dominates(f, k, i)),
{
    lemma_path_matrix_greatest(f);
    lemma_dom_fix_unique(f, path_matrix(f));
}

/// When every block is reachable from the entry block, the entry dominates every
/// block, every block dominates itself, and only the entry dominates the entry.
pub proof fn lemma_dominator_basics(f: Function)
    requires
        0 <= entry_index(f),
        all_reachable(f),
    ensures
        forall|i: int| 0 <= i < f.blocks@.len() ==> #[trigger] dominates_at(f, entry_index(f), i),
        forall|i: int| 0 <= i < f.blocks@.len() ==> #[trigger] dominates_at(f, i, i),
        forall|k: int| 0 <= k < f.blocks@.len() ==> (#[trigger] dominates_at(f, k, entry_index(f)) <==> k == entry_index(f)),
{
    lemma_dominators_are_path_dominators(f);
    lemma_first_block_index(f.blocks@, f.entry);
    let en = entry_index(f);
    assert forall|i: int| 0 <= i < f.blocks@.len() implies #[trigger] dominates_at(f, en, i) by {
        assert forall|p: Seq<int>| #[trigger] is_path(f, p) && p.last() == i implies p.contains(en) by {
            assert(p[0] == en);
        }
        assert(path_dominates(f, en, i));
    }
    assert forall|i: int| 0 <= i < f.blocks@.len() implies #[trigger] dominates_at(f, i, i) by {
        assert forall|p: Seq<int>| #[trigger] is_path(f, p) && p.last() == i implies p.contains(i) by {
            assert(p[p.len() - 1] == i);
        }
        assert(path_dominates(f, i, i));
    }
    assert forall|k: int| 0 <= k < f.blocks@.len() implies (#[trigger] dominates_at(f, k, en) <==> k == en) by {
        if dominates_at(f, k, en) {
            let p = seq![en];
            assert(p[0] == en);
            assert(forall|q: int| 0 <= q < p.len() ==> 0 <= #[trigger] p[q] < f.blocks@.len());
            assert(is_path(f, p));
            assert(path_dominates(f, k, en));
            assert(p.last() == en);
            assert(p.contains(k));
        }
        if k == en {
            assert(dominates_at(f, en, en));
        }
    }
}

/// Reachability must be closed under edges for visited blocks that are done.
proof fn lemma_closed_covers_paths(f: Function, visited: Seq<bool>, p: Seq<int>)
    requires
        visited.len() == f.blocks@.len(),
        is_path(f, p),
        visited[entry_index(f)],
        forall|i: int, j: int| 0 <= i < visited.len() && 0 <= j < visited.len() && #[trigger] visited[i]
            && #[trigger] edge(f, i, j) ==> visited[j],
    ensures
        visited[p.last()],
    decreases p.len(),
{
    if p.len() >= 2 {
        lemma_path_prefix(f, p);
        let q = p.drop_last();
        lemma_closed_covers_paths(f, visited, q);
        assert(0 <= p[p.len() - 1] < visited.len());
        assert(0 <= q[q.len() - 1] < visited.len());
    }
}

/// Which blocks are reachable from the entry block, by a worklist search.
pub fn reachable_blocks(f: &Function, e: usize) -> (r: Vec<bool>)
    requires
        e < f.blocks@.len(),
        e as int == entry_index(*f),
    ensures
        r@.len() == f.blocks@.len(),
        forall|i: int| 0 <= i < f.blocks@.len() ==> r@[i] == reachable(*f, i),
{
    let n = f.blocks.len();
    let mut visited = filled_row(n, false);
    visited.set(e, true);
    let mut stack: Vec<usize> = vec![e];
    proof {
        let single = seq![e as int];
        assert(is_path(*f, single)) by {
            assert forall|q: int| 0 <= q < single.len() implies 0 <= #[trigger] single[q] < n by {}
        }
        assert(reachable(*f, e as int));
        lemma_row_count_bound(visited@);
    }
    while stack.len() > 0
        invariant
            n == f.blocks@.len(),
            e < n,
            e as int == entry_index(*f),
            visited@.len() == n,
            visited@[e as int],
            forall|q: int| 0 <= q < stack@.len() ==> (#[trigger] stack@[q]) < n && visited@[stack@[q] as int],
            forall|i: int| 0 <= i < n && #[trigger] visited@[i] ==> reachable(*f, i),
            forall|i: int, j: int| 0 <= i < n && 0 <= j < n && #[trigger] visited@[i] && !stack@.contains(i as usize)
                && #[trigger] edge(*f, i, j) ==> visited@[j],
            row_count(visited@) <= n,
        decreases n - row_count(visited@), stack.len(),
    {
        let ghost full = stack@;
        let u = stack.pop().unwrap();
        let ghost count0 = row_count(visited@);
        let ghost stack0 = stack@;
        proof {
            assert(full =~= stack0.push(u));
            assert(full[full.len() - 1] == u);
            assert forall|i: int, jj: int| 0 <= i < n && 0 <= jj < n && #[trigger] visited@[i] && !stack@.contains(i as usize)
                && i != u && #[trigger] edge(*f, i, jj) implies visited@[jj] by {
                if full.contains(i as usize) {
                    let w = choose|x: int| 0 <= x < full.len() && #[trigger] full[x] == i as usize;
                    if w < full.len() - 1 {
                        assert(stack0[w] == i as usize);
                    }
                }
            }
        }
        let mut j: usize = 0;
        while j < n
            invariant
                n == f.blocks@.len(),
                e < n,
                u < n,
                j <= n,
                visited@.len() == n,
                visited@[e as int],
                visited@[u as int],
                forall|q: int| 0 <= q < stack@.len() ==> (#[trigger] stack@[q]) < n && visited@[stack@[q] as int],
                forall|i: int| 0 <= i < n && #[trigger] visited@[i] ==> reachable(*f, i),
                forall|i: int, jj: int| 0 <= i < n && 0 <= jj < n && #[trigger] visited@[i] && !stack@.contains(i as usize)
                    && i != u && #[trigger] edge(*f, i, jj) ==> visited@[jj],
                forall|jj: int| 0 <= jj < j && #[trigger] edge(*f, u as int, jj) ==> visited@[jj],
                stack@.len() >= stack0.len(),
                stack@.len() > stack0.len() ==> row_count(visited@) > count0,
                row_count(visited@) >= count0,
                row_count(visited@) <= n,
                stack@.subrange(0, stack0.len() as int) == stack0,
            decreases n - j,
        {
            if has_edge_at(f, u, j) && !visited[j] {
                let ghost before = visited@;
                let ghost sb = stack@;
                proof {
                    assert(forall|i: int, jj: int| 0 <= i < n && 0 <= jj < n && #[trigger] before[i] && !sb.contains(i as usize)
                        && i != u && #[trigger] edge(*f, i, jj) ==> before[jj]);
                    let pu = choose|p: Seq<int>| #[trigger] is_path(*f, p) && p.last() == u as int;
                    lemma_path_extend(*f, pu, j as int);
                }
                visited.set(j, true);
                stack.push(j);
                proof {
                    lemma_row_count_le(before, visited@);
                    lemma_row_count_bound(visited@);
                    assert forall|i: int, jj: int| 0 <= i < n && 0 <= jj < n && #[trigger] visited@[i] && !stack@.contains(i as usize)
                        && i != u && #[trigger] edge(*f, i, jj) implies visited@[jj] by {
                        if i != j {
                            assert(before[i]);
                            let prev = stack@.drop_last();
                            assert(prev =~= sb);
                            if prev.contains(i as usize) {
                                let w = choose|x: int| 0 <= x < prev.len() && #[trigger] prev[x] == i as usize;
                                assert(stack@[w] == i as usize);
                            }
                            assert(!prev.contains(i as usize));
                            if jj != j {
                                assert(before[jj]);
                            }
                        } else {
                            assert(stack@[stack@.len() - 1] == j);
                        }
                    }
                    assert(stack@.subrange(0, stack0.len() as int) =~= stack0);
                }
            }
            j += 1;
        }
        proof {
            assert forall|i: int, jj: int| 0 <= i < n && 0 <= jj < n && #[trigger] visited@[i] && !stack@.contains(i as usize)
                && #[trigger] edge(*f, i, jj) implies visited@[jj] by {
            }
        }
    }
    proof {
        assert forall|i: int| 0 <= i < n implies visited@[i] == reachable(*f, i) by {
            if reachable(*f, i) {
                let p = choose|p: Seq<int>| #[trigger] is_path(*f, p) && p.last() == i;
                assert forall|a: int, b: int| 0 <= a < visited@.len() && 0 <= b < visited@.len() && #[trigger] visited@[a]
                    && #[trigger] edge(*f, a, b) implies visited@[b] by {
                    assert(!stack@.contains(a as usize));
                }
                lemma_closed_covers_paths(*f, visited@, p);
            }
        }
    }
    visited
}

// ---------------------------------------------------------------------------
// Successor checks, predecessor sets, and dominator sets by block id.

/// Why the control-flow graph of a function cannot be analysed.
#[derive(Debug, Clone, Copy, PartialEq, Eq, Structural)]
pub enum CfgError {
    /// The entry block is not among the blocks.
    MissingEntry(BlockId),
    /// A block names a successor that is not among the blocks.
    UnknownSuccessor { block: BlockId, target: BlockId },
}

/// The first successor of block `j` that names no block, if any.
pub open spec fn first_unknown(f: Function, j: int) -> Option<BlockId> {
    let s = spec_successors(f.blocks@[j].term);
    if s.len() > 0 && !f.has_block(s[0]) {
        Some(s[0])
    } else if s.len() > 1 && !f.has_block(s[1]) {
        Some(s[1])
    } else {
        None
    }
}

/// Every successor of every block names a block.
pub open spec fn successors_known(f: Function) -> bool {
    forall|j: int| 0 <= j < f.blocks@.len() ==> #[trigger] first_unknown(f, j) is None
}

/// The error names the first block, in layout order, with an unknown successor,
/// and its first unknown successor.
pub open spec fn is_first_unknown(f: Function, err: CfgError) -> bool {
    exists|j: int| 0 <= j < f.blocks@.len()
        && (forall|q: int| 0 <= q < j ==> #[trigger] first_unknown(f, q) is None)
        && first_unknown(f, j) is Some
        && err == (CfgError::UnknownSuccessor { block: f.blocks@[j].id, target: first_unknown(f, j)->0 })
}

/// Whether some block has identifier `id`.
pub fn has_block_id(f: &Function, id: BlockId) -> (r: bool)
    ensures
        r == f.has_block(id),
{
    proof { lemma_first_block_index(f.blocks@, id); }
    f.find_block(id).is_some()
}

/// The first successor of block `j` that names no block, if any.
pub fn first_unknown_of(f: &Function, j: usize) -> (r: Option<BlockId>)
    requires
        j < f.blocks@.len(),
    ensures
        r == first_unknown(*f, j as int),
{
    let found: Option<BlockId> = match f.blocks[j].term {
        Terminator::Ret { .. } => None,
        Terminator::Jmp { target } => {
            if has_block_id(f, target) { None } else { Some(target) }
        },
        Terminator::Br { then_bb, else_bb, .. } => {
            if !has_block_id(f, then_bb) {
                Some(then_bb)
            } else if !has_block_id(f, else_bb) {
                Some(else_bb)
            } else {
                None
            }
        },
    };
    proof {
        let sq = spec_successors(f.blocks@[j as int].term);
        match f.blocks@[j as int].term {
            Terminator::Jmp { target } => { assert(sq[0] == target); },
            Terminator::Br { then_bb, else_bb, .. } => { assert(sq[0] == then_bb && sq[1] == else_bb); },
            _ => {},
        }
    }
    found
}

/// Checks that every successor names a block; on failure, reports the first that does not.
pub fn check_successors(f: &Function) -> (r: Result<(), CfgError>)
    ensures
        r is Ok <==> successors_known(*f),
        r matches Err(e) ==> is_first_unknown(*f, e),
{
    let mut j: usize = 0;
    while j < f.blocks.len()
        invariant
            j <= f.blocks@.len(),
            forall|q: int| 0 <= q < j ==> #[trigger] first_unknown(*f, q) is None,
        decreases f.blocks.len() - j,
    {
        if let Some(t) = first_unknown_of(f, j) {
            let e = CfgError::UnknownSuccessor { block: f.blocks[j].id, target: t };
            assert(is_first_unknown(*f, e));
            return Err(e);
        }
        j += 1;
    }
    Ok(())
}

/// The error names the last block, in layout order, with an unknown successor,
/// and its first unknown successor.
pub open spec fn is_last_unknown(f: Function, err: CfgError) -> bool {
    exists|j: int| 0 <= j < f.blocks@.len()
        && (forall|q: int| j < q < f.blocks@.len() ==> #[trigger] first_unknown(f, q) is None)
        && first_unknown(f, j) is Some
        && err == (CfgError::UnknownSuccessor { block: f.blocks@[j].id, target: first_unknown(f, j)->0 })
}

/// Checks that every successor names a block, walking the blocks from the last;
/// on failure, reports the last block with a successor that does not.
pub fn check_successors_from_end(f: &Function) -> (r: Result<(), CfgError>)
    ensures
        r is Ok <==> successors_known(*f),
        r matches Err(e) ==> is_last_unknown(*f, e),
{
    let n = f.blocks.len();
    let mut t: usize = 0;
    while t < n
        invariant
            n == f.blocks@.len(),
            t <= n,
            forall|q: int| n - t <= q < n ==> #[trigger] first_unknown(*f, q) is None,
        decreases n - t,
    {
        let j = n - 1 - t;
        if let Some(x) = first_unknown_of(f, j) {
            let e = CfgError::UnknownSuccessor { block: f.blocks[j].id, target: x };
            assert(is_last_unknown(*f, e));
            return Err(e);
        }
        t += 1;
    }
    Ok(())
}

/// The ids of the blocks marked in `keep` among the first `m`, in layout order, each once.
pub open spec fn ids_if(blocks: Seq<Block>, keep: Seq<bool>, m: int) -> Seq<BlockId>
    decreases m,
{
    if m <= 0 {
        seq![]
    } else {
        let r = ids_if(blocks, keep, m - 1);
        if keep[m - 1] { set_insert(r, blocks[m - 1].id) } else { r }
    }
}

/// Which blocks jump to block `i`.
pub open spec fn pred_marks(f: Function, i: int) -> Seq<bool> {
    Seq::new(f.blocks@.len(), |j: int| edge(f, j, i))
}

/// The ids of the blocks that jump to block `i`, in layout order.
pub open spec fn pred_ids(f: Function, i: int) -> Seq<BlockId> {
    ids_if(f.blocks@, pred_marks(f, i), f.blocks@.len() as int)
}

/// The ids of the blocks that dominate block `i`, in layout order.
pub open spec fn dom_ids(f: Function, i: int) -> Seq<BlockId> {
    ids_if(f.blocks@, dom_fix(f)[i], f.blocks@.len() as int)
}

/// The set of the ids of the blocks marked in `keep`.
fn collect_ids(f: &Function, keep: &Vec<bool>) -> (s: IndexSet<BlockId>)
    requires
        keep@.len() == f.blocks@.len(),
    ensures
        block_set_items(s) == ids_if(f.blocks@, keep@, f.blocks@.len() as int),
{
    let mut s = block_set_new();
    let mut k: usize = 0;
    while k < f.blocks.len()
        invariant
            keep@.len() == f.blocks@.len(),
            k <= f.blocks@.len(),
            block_set_items(s) == ids_if(f.blocks@, keep@, k as int),
        decreases f.blocks.len() - k,
    {
        if keep[k] {
            block_set_insert(&mut s, f.blocks[k].id);
        }
        k += 1;
    }
    s
}

/// The marks of the blocks that jump to block `i`.
fn pred_mark_row(f: &Function, i: usize) -> (r: Vec<bool>)
    requires
        i < f.blocks@.len(),
    ensures
        r@ == pred_marks(*f, i as int),
{
    let mut r: Vec<bool> = Vec::new();
    let mut j: usize = 0;
    while j < f.blocks.len()
        invariant
            i < f.blocks@.len(),
            j <= f.blocks@.len(),
            r@.len() == j,
            forall|q: int| 0 <= q < j ==> r@[q] == edge(*f, q, i as int),
        decreases f.blocks.len() - j,
    {
        r.push(has_edge_at(f, j, i));
        j += 1;
    }
    assert(r@ =~= pred_marks(*f, i as int));
    r
}

/// A map from block ids built by inserting, for each block in layout order,
/// its id and a value: the keys are the distinct block ids.
pub open spec fn keyed_by_blocks<V>(f: Function, e: Seq<(BlockId, V)>) -> bool {
    &&& keys_distinct(e)
    &&& forall|i: int| 0 <= i < f.blocks@.len() ==> has_key(e, #[trigger] f.blocks@[i].id)
    &&& forall|q: int| 0 <= q < e.len() ==> f.has_block(#[trigger] e[q].0)
    &&& ids_distinct(f) ==> e.len() == f.blocks@.len()
        && forall|i: int| 0 <= i < f.blocks@.len() ==> #[trigger] e[i].0 == f.blocks@[i].id
}

/// The predecessor set of every block, keyed by block id; fails on the first
/// successor that names no block.
pub fn build_predecessors(f: &Function) -> (r: Result<IndexMap<BlockId, IndexSet<BlockId>>, CfgError>)
    ensures
        r is Ok <==> successors_known(*f),
        r matches Err(e) ==> is_first_unknown(*f, e),
        r matches Ok(m) ==> keyed_by_blocks(*f, block_sets_entries(m))
            && forall|i: int| 0 <= i < f.blocks@.len()
                ==> block_set_items(value_at(block_sets_entries(m), #[trigger] f.blocks@[i].id)) == pred_ids(*f, i),
{
    check_successors(f)?;
    let n = f.blocks.len();
    let mut m = block_sets_new();
    let mut i: usize = 0;
    while i < n
        invariant
            n == f.blocks@.len(),
            i <= n,
            keys_distinct(block_sets_entries(m)),
            forall|q: int| 0 <= q < i ==> has_key(block_sets_entries(m), #[trigger] f.blocks@[q].id),
            forall|q: int| 0 <= q < block_sets_entries(m).len() ==> f.has_block(#[trigger] block_sets_entries(m)[q].0),
            forall|q: int| 0 <= q < i ==> block_set_items(value_at(block_sets_entries(m), #[trigger] f.blocks@[q].id)) == pred_ids(*f, q),
            ids_distinct(*f) ==> block_sets_entries(m).len() == i
                && forall|q: int| 0 <= q < i ==> #[trigger] block_sets_entries(m)[q].0 == f.blocks@[q].id,
        decreases n - i,
    {
        let marks = pred_mark_row(f, i);
        let set = collect_ids(f, &marks);
        let ghost before = block_sets_entries(m);
        let id = f.blocks[i].id;
        block_sets_insert(&mut m, id, set);
        proof {
            let after = block_sets_entries(m);
            lemma_entries_insert(before, id, set);
            assert(f.has_block(id));
            assert forall|q: int| 0 <= q < after.len() implies f.has_block(#[trigger] after[q].0) by {
                lemma_key_index(before, id);
                if q < before.len() && !(has_key(before, id) && q == crate::collections::key_index(before, id)) {
                    assert(after[q] == before[q]);
                }
            }
            assert forall|q: int| 0 <= q <= i implies block_set_items(value_at(after, #[trigger] f.blocks@[q].id)) == pred_ids(*f, q) by {
                if f.blocks@[q].id == id {
                    assert(pred_marks(*f, q) =~= pred_marks(*f, i as int));
                } else {
                    assert(value_at(after, f.blocks@[q].id) == value_at(before, f.blocks@[q].id));
                }
            }
            if ids_distinct(*f) {
                assert(!has_key(before, id)) by {
                    lemma_key_index(before, id);
                    if has_key(before, id) {
                        let w = crate::collections::key_index(before, id);
                        assert(before[w].0 == f.blocks@[w].id);
                    }
                }
                assert forall|q: int| 0 <= q <= i implies #[trigger] after[q].0 == f.blocks@[q].id by {
                    if q < i { assert(after[q] == before[q]); }
                }
            }
        }
        i += 1;
    }
    Ok(m)
}

/// The dominator set of every block, keyed by block id.
#[derive(Debug)]
pub struct Dominators {
    pub dom: IndexMap<BlockId, IndexSet<BlockId>>,
}

impl Dominators {
    /// Whether the set recorded for `block` holds `dominator`.
    pub fn dominates(&self, dominator: BlockId, block: BlockId) -> (r: bool)
        ensures
            r == (has_key(block_sets_entries(self.dom), block)
                && block_set_items(value_at(block_sets_entries(self.dom), block)).contains(dominator)),
    {
        match block_sets_get(&self.dom, block) {
            Some(set) => block_set_contains(set, dominator),
            None => false,
        }
    }
}

/// The dominators of every block: the greatest solution of the dominator
/// equations (by `lemma_dominators_are_path_dominators`, on a function whose
/// blocks are all reachable, the blocks on every path from the entry). Fails
/// when the entry block is missing, then on the first unknown successor.
pub fn compute_dominators(f: &Function) -> (r: Result<Dominators, CfgError>)
    ensures
        entry_index(*f) < 0 ==> r == Err::<Dominators, CfgError>(CfgError::MissingEntry(f.entry)),
        entry_index(*f) >= 0 ==> (r is Ok <==> successors_known(*f)),
        entry_index(*f) >= 0 ==> (r matches Err(e) ==> is_first_unknown(*f, e)),
        r matches Ok(d) ==> keyed_by_blocks(*f, block_sets_entries(d.dom))
            && (ids_distinct(*f) ==> forall|i: int| 0 <= i < f.blocks@.len()
                ==> block_set_items(value_at(block_sets_entries(d.dom), #[trigger] f.blocks@[i].id)) == dom_ids(*f, i)),
{
    proof { lemma_first_block_index(f.blocks@, f.entry); }
    let e = match f.find_block(f.entry) {
        Some(e) => e,
        None => { return Err(CfgError::MissingEntry(f.entry)); },
    };
    check_successors(f)?;
    let d = dominator_matrix(f, e);
    let n = f.blocks.len();
    let mut m = block_sets_new();
    let mut i: usize = 0;
    while i < n
        invariant
            n == f.blocks@.len(),
            i <= n,
            mat(d@) == dom_fix(*f),
            square(n as int, mat(d@)),
            keys_distinct(block_sets_entries(m)),
            forall|q: int| 0 <= q < i ==> has_key(block_sets_entries(m), #[trigger] f.blocks@[q].id),
            forall|q: int| 0 <= q < block_sets_entries(m).len() ==> f.has_block(#[trigger] block_sets_entries(m)[q].0),
            ids_distinct(*f) ==> block_sets_entries(m).len() == i
                && (forall|q: int| 0 <= q < i ==> #[trigger] block_sets_entries(m)[q].0 == f.blocks@[q].id)
                && (forall|q: int| 0 <= q < i ==> block_set_items(value_at(block_sets_entries(m), #[trigger] f.blocks@[q].id)) == dom_ids(*f, q)),
        decreases n - i,
    {
        assert(d@[i as int]@ == dom_fix(*f)[i as int]);
        let set = collect_ids(f, &d[i]);
        let ghost before = block_sets_entries(m);
        let id = f.blocks[i].id;
        block_sets_insert(&mut m, id, set);
        proof {
            let after = block_sets_entries(m);
            lemma_entries_insert(before, id, set);
            assert(f.has_block(id));
            assert forall|q: int| 0 <= q < after.len() implies f.has_block(#[trigger] after[q].0) by {
                lemma_key_index(before, id);
                if q < before.len() && !(has_key(before, id) && q == crate::collections::key_index(before, id)) {
                    assert(after[q] == before[q]);
                }
            }
            if ids_distinct(*f) {
                assert(!has_key(before, id)) by {
                    lemma_key_index(before, id);
                    if has_key(before, id) {
                        let w = crate::collections::key_index(before, id);
                        assert(before[w].0 == f.blocks@[w].id);
                    }
                }
                assert forall|q: int| 0 <= q <= i implies #[trigger] after[q].0 == f.blocks@[q].id by {
                    if q < i { assert(after[q] == before[q]); }
                }
                assert forall|q: int| 0 <= q <= i implies block_set_items(value_at(after, #[trigger] f.blocks@[q].id)) == dom_ids(*f, q) by {
                    if q < i {
                        assert(f.blocks@[q].id != id);
                    }
                }
            }
        }
        i += 1;
    }
    Ok(Dominators { dom: m })
}

} // verus!
