//! The interference graph: a value defined at an instruction interferes with
//! every other value live just after it.
use vstd::prelude::*;
use indexmap::{IndexMap, IndexSet};
use crate::ir::{Function, Inst, VReg, spec_def, spec_uses, spec_term_uses, is_phi, uses, term_uses, defs};
use crate::validation::inst_at;
use crate::liveness::{live_fix, liveness_core, core_ok, LiveCore, set_of, mentioned, holds_exactly, lemma_set_insert, rect, set_from_row};
use crate::cfg::{CfgError, successors_known, is_last_unknown, check_successors_from_end, ids_distinct, mat};
use crate::collections::{
    vreg_set_items, vreg_set_new, vreg_set_insert, vreg_set_contains, vreg_set_len, vreg_set_get_index,
    vreg_sets_entries, vreg_sets_new, vreg_sets_insert, vreg_sets_get, vreg_sets_len, vreg_sets_get_index,
    has_key, value_at, keys_distinct,
    lemma_entries_insert, lemma_key_index, key_index,
};

verus! {

/// The values live just before instruction `x` of block `b`, walking the block
/// backwards from what is live out of it or read by its terminator: a
/// definition ends a value, a non-phi instruction's operands start theirs.
pub open spec fn live_before(f: Function, b: int, x: int) -> Set<VReg>
    decreases f.blocks@[b].insts@.len() - x,
{
    if x >= f.blocks@[b].insts@.len() {
        live_fix(f).1[b].union(spec_term_uses(f.blocks@[b].term).to_set())
    } else {
        let inst = inst_at(f, b, x);
        let after = live_before(f, b, x + 1).remove(spec_def(inst));
        if is_phi(inst) { after } else { after.union(spec_uses(inst).to_set()) }
    }
}

/// At instruction `x` of block `b`, one of `a`, `c` is defined while the other is live.
pub open spec fn interferes_at(f: Function, b: int, x: int, a: VReg, c: VReg) -> bool {
    &&& 0 <= x < f.blocks@[b].insts@.len()
    &&& a != c
    &&& (spec_def(inst_at(f, b, x)) == a && live_before(f, b, x + 1).contains(c))
        || (spec_def(inst_at(f, b, x)) == c && live_before(f, b, x + 1).contains(a))
}

/// `a` and `c` interfere somewhere.
pub open spec fn interferes(f: Function, a: VReg, c: VReg) -> bool {
    exists|b: int, x: int| 0 <= b < f.blocks@.len() && #[trigger] interferes_at(f, b, x, a, c)
}

/// Block `b` makes `v` a node: live at its end, defined in it, or read by a non-phi instruction of it.
pub open spec fn node_in(f: Function, b: int, v: VReg) -> bool {
    live_before(f, b, f.blocks@[b].insts@.len() as int).contains(v)
        || exists|x: int| 0 <= x < f.blocks@[b].insts@.len()
            && (spec_def(#[trigger] inst_at(f, b, x)) == v || (!is_phi(inst_at(f, b, x)) && spec_uses(inst_at(f, b, x)).contains(v)))
}

/// `v` is a node of the graph.
pub open spec fn is_node(f: Function, v: VReg) -> bool {
    exists|b: int| 0 <= b < f.blocks@.len() && #[trigger] node_in(f, b, v)
}

/// Interference between values, with an entry, possibly empty, for every node.
#[derive(Debug)]
pub struct InterferenceGraph {
    pub nodes: IndexSet<VReg>,
    pub edges: IndexMap<VReg, IndexSet<VReg>>,
}

impl InterferenceGraph {
    /// The values recorded as interfering with `value`.
    pub fn neighbors(&self, value: VReg) -> (r: Vec<VReg>)
        ensures
            r@ == if has_key(vreg_sets_entries(self.edges), value) {
                vreg_set_items(value_at(vreg_sets_entries(self.edges), value))
            } else {
                Seq::<VReg>::empty()
            },
    {
        let mut r: Vec<VReg> = Vec::new();
        match vreg_sets_get(&self.edges, value) {
            Some(set) => {
                let len = vreg_set_len(set);
                let mut i: usize = 0;
                while i < len
                    invariant
                        len == vreg_set_items(*set).len(),
                        i <= len,
                        r@ == vreg_set_items(*set).take(i as int),
                    decreases len - i,
                {
                    let x = vreg_set_get_index(set, i).unwrap();
                    r.push(x);
                    i += 1;
                    assert(r@ =~= vreg_set_items(*set).take(i as int));
                }
                assert(r@ =~= vreg_set_items(*set));
            },
            None => {},
        }
        r
    }

    /// Whether `right` is recorded as interfering with `left`.
    pub fn has_edge(&self, left: VReg, right: VReg) -> (r: bool)
        ensures
            r == edge_recorded(*self, left, right),
    {
        match vreg_sets_get(&self.edges, left) {
            Some(set) => vreg_set_contains(set, right),
            None => false,
        }
    }
}

/// The position of `v` in `u`.
fn index_of(u: &Vec<VReg>, v: VReg) -> (r: usize)
    requires
        u@.contains(v),
    ensures
        r < u@.len(),
        u@[r as int] == v,
{
    let mut i: usize = 0;
    while i < u.len()
        invariant
            u@.contains(v),
            i <= u@.len(),
            forall|q: int| 0 <= q < i ==> u@[q] != v,
        decreases u.len() - i,
    {
        if u[i] == v {
            return i;
        }
        i += 1;
    }
    proof {
        let q = choose|q: int| 0 <= q < u@.len() && u@[q] == v;
        assert(u@[q] != v);
    }
    0
}

/// The row with bit `j` set.
fn with_bit(r: &Vec<bool>, j: usize) -> (out: Vec<bool>)
    requires
        j < r@.len(),
    ensures
        out@ == r@.update(j as int, true),
{
    let mut out: Vec<bool> = Vec::new();
    let mut k: usize = 0;
    while k < r.len()
        invariant
            j < r@.len(),
            k <= r@.len(),
            out@ == r@.update(j as int, true).take(k as int),
        decreases r.len() - k,
    {
        out.push(if k == j { true } else { r[k] });
        k += 1;
        assert(out@ =~= r@.update(j as int, true).take(k as int));
    }
    assert(out@ =~= r@.update(j as int, true));
    out
}

/// `v` is among the first `y` items of `s`.
pub open spec fn listed(s: Seq<VReg>, y: int, v: VReg) -> bool {
    exists|w: int| 0 <= w < y && s[w] == v
}

pub proof fn lemma_listed_step(s: Seq<VReg>, y: int)
    requires
        0 <= y < s.len(),
    ensures
        forall|v: VReg| #[trigger] listed(s, y + 1, v) == (listed(s, y, v) || s[y] == v),
{
    assert forall|v: VReg| #[trigger] listed(s, y + 1, v) == (listed(s, y, v) || s[y] == v) by {
        if listed(s, y + 1, v) {
            let w = choose|w: int| 0 <= w < y + 1 && s[w] == v;
            if w < y { assert(listed(s, y, v)); }
        }
        if listed(s, y, v) {
            let w = choose|w: int| 0 <= w < y && s[w] == v;
            assert(0 <= w < y + 1 && s[w] == v);
        }
        if s[y] == v {
            assert(0 <= y < y + 1 && s[y] == v);
        }
    }
}

pub proof fn lemma_listed_all(s: Seq<VReg>)
    ensures
        forall|v: VReg| #[trigger] listed(s, s.len() as int, v) == s.contains(v),
{
    assert forall|v: VReg| #[trigger] listed(s, s.len() as int, v) == s.contains(v) by {
        if s.contains(v) {
            let w = choose|w: int| 0 <= w < s.len() && s[w] == v;
            assert(listed(s, s.len() as int, v));
        }
    }
}

/// Setting one bit of a row over distinct values changes the set by that value only.
pub proof fn lemma_set_of_update(u: Seq<VReg>, row: Seq<bool>, i: int, x: bool)
    requires
        u.no_duplicates(),
        row.len() == u.len(),
        0 <= i < u.len(),
    ensures
        forall|v: VReg| #[trigger] set_of(u, row.update(i, x)).contains(v)
            == if v == u[i] { x } else { set_of(u, row).contains(v) },
{
    let r2 = row.update(i, x);
    assert forall|v: VReg| #[trigger] set_of(u, r2).contains(v) == if v == u[i] { x } else { set_of(u, row).contains(v) } by {
        if set_of(u, r2).contains(v) {
            let k = choose|k: int| 0 <= k < u.len() && #[trigger] u[k] == v && r2[k];
            if k == i {} else if v == u[i] { assert(u[k] == u[i]); }
        }
        if v == u[i] && x {
            assert(r2[i]);
        }
        if v != u[i] && set_of(u, row).contains(v) {
            let k = choose|k: int| 0 <= k < u.len() && #[trigger] u[k] == v && row[k];
            assert(k != i);
            assert(r2[k]);
        }
    }
}

/// Values live within a block are values of the function.
proof fn lemma_live_before_mentioned(f: Function, c: LiveCore, b: int, x: int, v: VReg)
    requires
        core_ok(f, c),
        0 <= b < f.blocks@.len(),
        0 <= x,
        live_before(f, b, x).contains(v),
    ensures
        c.u@.contains(v),
    decreases f.blocks@[b].insts@.len() - x,
{
    if x >= f.blocks@[b].insts@.len() {
        if live_fix(f).1[b].contains(v) {
            assert(set_of(c.u@, mat(c.lout@)[b]).contains(v));
        } else {
            assert(spec_term_uses(f.blocks@[b].term).contains(v));
            assert(mentioned(f, v));
        }
    } else {
        let inst = inst_at(f, b, x);
        if live_before(f, b, x + 1).contains(v) {
            lemma_live_before_mentioned(f, c, b, x + 1, v);
        } else {
            assert(spec_uses(inst).contains(v));
            assert(mentioned(f, v));
        }
    }
}

/// The nodes and the interference of a function, as bits over the values `c.u`.
fn interference_bits(f: &Function, c: &LiveCore) -> (r: (Vec<bool>, Vec<Vec<bool>>))
    requires
        core_ok(*f, *c),
    ensures
        r.0@.len() == c.u@.len(),
        forall|k: int| 0 <= k < c.u@.len() ==> r.0@[k] == is_node(*f, #[trigger] c.u@[k]),
        rect(c.u@.len() as int, c.u@.len() as int, mat(r.1@)),
        forall|i: int, j: int| 0 <= i < c.u@.len() && 0 <= j < c.u@.len()
            ==> #[trigger] mat(r.1@)[i][j] == interferes(*f, c.u@[i], c.u@[j]),
{
    let n = f.blocks.len();
    let m = c.u.len();
    let ghost u = c.u@;
    let mut node: Vec<bool> = Vec::new();
    let mut adj: Vec<Vec<bool>> = Vec::new();
    let mut k: usize = 0;
    while k < m
        invariant
            m == c.u@.len(),
            k <= m,
            node@.len() == k,
            adj@.len() == k,
            forall|q: int| 0 <= q < k ==> !node@[q],
            forall|q: int| 0 <= q < k ==> (#[trigger] adj@[q])@.len() == m && forall|j: int| 0 <= j < m ==> !adj@[q]@[j],
        decreases m - k,
    {
        node.push(false);
        let mut row: Vec<bool> = Vec::new();
        let mut j: usize = 0;
        while j < m
            invariant
                j <= m,
                row@.len() == j,
                forall|q: int| 0 <= q < j ==> !row@[q],
            decreases m - j,
        {
            row.push(false);
            j += 1;
        }
        adj.push(row);
        k += 1;
    }
    let mut b: usize = 0;
    while b < n
        invariant
            n == f.blocks@.len(),
            m == c.u@.len(),
            u == c.u@,
            core_ok(*f, *c),
            b <= n,
            node@.len() == m,
            rect(m as int, m as int, mat(adj@)),
            forall|q: int| 0 <= q < m ==> node@[q] == exists|b2: int| 0 <= b2 < b && #[trigger] node_in(*f, b2, u[q]),
            forall|i: int, j: int| 0 <= i < m && 0 <= j < m ==> #[trigger] mat(adj@)[i][j]
                == exists|b2: int, x2: int| 0 <= b2 < b && #[trigger] interferes_at(*f, b2, x2, u[i], u[j]),
        decreases n - b,
    {
        let block = &f.blocks[b];
        let len = block.insts.len();
        // what is live at the end of the block
        assert(mat(c.lout@)[b as int] == c.lout@[b as int]@);
        let mut live: Vec<bool> = Vec::new();
        let mut k: usize = 0;
        while k < m
            invariant
                m == c.u@.len(),
                u == c.u@,
                b < f.blocks@.len(),
                mat(c.lout@)[b as int] == c.lout@[b as int]@,
                rect(f.blocks@.len() as int, m as int, mat(c.lout@)),
                k <= m,
                live@.len() == k,
                forall|q: int| 0 <= q < k ==> live@[q] == c.lout@[b as int]@[q],
            decreases m - k,
        {
            live.push(c.lout[b][k]);
            k += 1;
        }
        let tv = term_uses(&block.term).to_vec();
        proof {
            assert(live@ =~= mat(c.lout@)[b as int]);
            assert(set_of(u, mat(c.lout@)[b as int]) == live_fix(*f).1[b as int]);
        }
        let mut y: usize = 0;
        while y < tv.len()
            invariant
                m == c.u@.len(),
                u == c.u@,
                core_ok(*f, *c),
                b < f.blocks@.len(),
                block == f.blocks@[b as int],
                tv@ == spec_term_uses(block.term),
                y <= tv@.len(),
                live@.len() == m,
                u.no_duplicates(),
                forall|v: VReg| #[trigger] set_of(u, live@).contains(v) == (live_fix(*f).1[b as int].contains(v)
                    || exists|q: int| 0 <= q < y && tv@[q] == v),
            decreases tv.len() - y,
        {
            proof { assert(mentioned(*f, tv@[y as int])); }
            let ti = index_of(&c.u, tv[y]);
            let ghost l0 = live@;
            live.set(ti, true);
            proof {
                lemma_set_of_update(u, l0, ti as int, true);
                assert forall|v: VReg| #[trigger] set_of(u, live@).contains(v) == (live_fix(*f).1[b as int].contains(v)
                    || exists|q: int| 0 <= q < y + 1 && tv@[q] == v) by {
                    if v != tv@[y as int] {
                        if exists|q: int| 0 <= q < y + 1 && tv@[q] == v {
                            let q = choose|q: int| 0 <= q < y + 1 && tv@[q] == v;
                            assert(q < y);
                        }
                    }
                }
            }
            y += 1;
        }
        proof {
            assert forall|v: VReg| set_of(u, live@).contains(v) == live_before(*f, b as int, len as int).contains(v) by {
                if spec_term_uses(f.blocks@[b as int].term).contains(v) {
                    let q = choose|q: int| 0 <= q < tv@.len() && tv@[q] == v;
                }
            }
            assert(set_of(u, live@) =~= live_before(*f, b as int, len as int));
            // the block's end values are nodes
        }
        let ghost node_b = node@;
        let ghost adj_b = mat(adj@);
        // mark the end values as nodes
        let mut k: usize = 0;
        while k < m
            invariant
                m == c.u@.len(),
                u == c.u@,
                k <= m,
                node@.len() == m,
                node_b.len() == m,
                live@.len() == m,
                forall|q: int| 0 <= q < m ==> node@[q] == (node_b[q] || (q < k && live@[q])),
            decreases m - k,
        {
            let ghost n0 = node@;
            if live[k] {
                node.set(k, true);
            }
            proof {
                assert forall|q: int| 0 <= q < m implies node@[q] == (node_b[q] || (q < k + 1 && live@[q])) by {
                    assert(n0[q] == (node_b[q] || (q < k && live@[q])));
                    if q == k {
                        if live@[q] {
                            assert(node@[q]);
                        } else {
                            assert(node@[q] == n0[q]);
                        }
                    } else {
                        assert(node@[q] == n0[q]);
                    }
                }
            }
            k += 1;
        }
        let ghost live_end = live@;
        proof {
            assert forall|q: int| 0 <= q < m implies node@[q] == (node_b[q] || live_end[q]
                || exists|x2: int| len - 0 <= x2 < len && (spec_def(#[trigger] inst_at(*f, b as int, x2)) == u[q]
                    || (!is_phi(inst_at(*f, b as int, x2)) && spec_uses(inst_at(*f, b as int, x2)).contains(u[q])))) by {
                assert(node@[q] == (node_b[q] || live_end[q]));
            }
        }
        let mut t: usize = 0;
        while t < len
            invariant
                n == f.blocks@.len(),
                m == c.u@.len(),
                u == c.u@,
                core_ok(*f, *c),
                b < n,
                block == f.blocks@[b as int],
                len == block.insts@.len(),
                t <= len,
                node@.len() == m,
                node_b.len() == m,
                u.no_duplicates(),
                live@.len() == m,
                rect(m as int, m as int, mat(adj@)),
                rect(m as int, m as int, adj_b),
                set_of(u, live@) == live_before(*f, b as int, len - t),
                set_of(u, live_end) == live_before(*f, b as int, len as int),
                live_end.len() == m,
                forall|q: int| 0 <= q < m ==> node_b[q] == exists|b2: int| 0 <= b2 < b && #[trigger] node_in(*f, b2, u[q]),
                forall|q: int| 0 <= q < m ==> node@[q] == (node_b[q] || live_end[q]
                    || exists|x2: int| len - t <= x2 < len && (spec_def(#[trigger] inst_at(*f, b as int, x2)) == u[q]
                        || (!is_phi(inst_at(*f, b as int, x2)) && spec_uses(inst_at(*f, b as int, x2)).contains(u[q])))),
                forall|i: int, j: int| 0 <= i < m && 0 <= j < m ==> adj_b[i][j]
                    == exists|b2: int, x2: int| 0 <= b2 < b && #[trigger] interferes_at(*f, b2, x2, u[i], u[j]),
                forall|i: int, j: int| 0 <= i < m && 0 <= j < m ==> #[trigger] mat(adj@)[i][j]
                    == (adj_b[i][j] || exists|x2: int| len - t <= x2 < len && #[trigger] interferes_at(*f, b as int, x2, u[i], u[j])),
            decreases len - t,
        {
            let x = len - 1 - t;
            let inst = &block.insts[x];
            assert(*inst == inst_at(*f, b as int, x as int));
            let d = defs(inst).unwrap();
            proof { assert(mentioned(*f, d)); }
            let di = index_of(&c.u, d);
            node.set(di, true);
            let ghost adj_x = mat(adj@);
            let ghost live_x = live@;
            proof {
                assert(u.no_duplicates());
                assert forall|q: int| 0 <= q < m implies live_x[q] == live_before(*f, b as int, x + 1).contains(u[q]) by {
                    if live_before(*f, b as int, x + 1).contains(u[q]) {
                        assert(set_of(u, live_x).contains(u[q]));
                        let w = choose|w: int| 0 <= w < u.len() && #[trigger] u[w] == u[q] && live_x[w];
                    }
                }
            }
            let mut k: usize = 0;
            while k < m
                invariant
                    m == c.u@.len(),
                    u == c.u@,
                    di < m,
                    u[di as int] == d,
                    k <= m,
                    live@ == live_x,
                    live_x.len() == m,
                    rect(m as int, m as int, mat(adj@)),
                    rect(m as int, m as int, adj_x),
                    forall|i: int, j: int| 0 <= i < m && 0 <= j < m ==> #[trigger] mat(adj@)[i][j]
                        == (adj_x[i][j] || (i == di && j < k && live_x[j] && j != di) || (j == di && i < k && live_x[i] && i != di)),
                decreases m - k,
            {
                if live[k] && k != di {
                    let ghost a0 = mat(adj@);
                    assert(adj@[di as int]@ == a0[di as int]);
                    assert(adj@[k as int]@ == a0[k as int]);
                    let r1 = with_bit(&adj[di], k);
                    adj.set(di, r1);
                    assert(adj@[k as int]@ == a0[k as int]);
                    let r2 = with_bit(&adj[k], di);
                    adj.set(k, r2);
                    proof {
                        let a2 = mat(adj@);
                        assert forall|i: int, j: int| 0 <= i < m && 0 <= j < m implies #[trigger] a2[i][j]
                            == (adj_x[i][j] || (i == di && j < k + 1 && live_x[j] && j != di) || (j == di && i < k + 1 && live_x[i] && i != di)) by {
                            assert(a2[i][j] == (a0[i][j] || (i == di && j == k) || (i == k && j == di)));
                        }
                        assert forall|i: int| 0 <= i < m implies (#[trigger] a2[i]).len() == m by {
                            if i == k {
                                assert(a2[i] == r2@);
                            } else if i == di {
                                assert(a2[i] == r1@);
                            } else {
                                assert(a2[i] == a0[i]);
                            }
                        }
                        assert(rect(m as int, m as int, a2));
                    }
                }
                k += 1;
            }
            let ghost l_before_clear = live@;
            live.set(di, false);
            proof {
                lemma_set_of_update(u, l_before_clear, di as int, false);
            }
            let is_phi_inst = match inst { Inst::PhiI64 { .. } => true, _ => false };
            let ghost live_cleared = live@;
            let ghost node_u = node@;
            if !is_phi_inst {
                let us = uses(inst).to_vec();
                let mut y: usize = 0;
                while y < us.len()
                    invariant
                        m == c.u@.len(),
                        u == c.u@,
                        core_ok(*f, *c),
                        b < f.blocks@.len(),
                        x < f.blocks@[b as int].insts@.len(),
                        *inst == inst_at(*f, b as int, x as int),
                        us@ == spec_uses(*inst),
                        y <= us@.len(),
                        live@.len() == m,
                        node@.len() == m,
                        live_cleared.len() == m,
                        node_u.len() == m,
                        u.no_duplicates(),
                        forall|v: VReg| #[trigger] set_of(u, live@).contains(v)
                            == (set_of(u, live_cleared).contains(v) || listed(us@, y as int, v)),
                        forall|q: int| #![trigger node@[q]] 0 <= q < m ==> node@[q] == (node_u[q] || listed(us@, y as int, u[q])),
                    decreases us.len() - y,
                {
                    proof { assert(mentioned(*f, us@[y as int])); }
                    let ui = index_of(&c.u, us[y]);
                    let ghost l0 = live@;
                    let ghost n0 = node@;
                    live.set(ui, true);
                    node.set(ui, true);
                    proof {
                        lemma_set_of_update(u, l0, ui as int, true);
                        lemma_listed_step(us@, y as int);
                        assert forall|v: VReg| #[trigger] set_of(u, live@).contains(v)
                            == (set_of(u, live_cleared).contains(v) || listed(us@, y + 1, v)) by {}
                        assert forall|q: int| #![trigger node@[q]] 0 <= q < m implies node@[q] == (node_u[q] || listed(us@, y + 1, u[q])) by {
                            assert(n0[q] == (node_u[q] || listed(us@, y as int, u[q])));
                            assert(listed(us@, y + 1, u[q]) == (listed(us@, y as int, u[q]) || us@[y as int] == u[q]));
                            if q != ui {
                                assert(u[q] != u[ui as int]);
                                assert(node@[q] == n0[q]);
                            } else {
                                assert(node@[q]);
                            }
                        }
                    }
                    y += 1;
                    assert(forall|q: int| #![trigger node@[q]] 0 <= q < m ==> node@[q] == (node_u[q] || listed(us@, y as int, u[q])));
                }
                proof {
                    lemma_listed_all(us@);
                }
            }
            proof {
                let xi = x as int;
                let bi = b as int;
                let extra = !is_phi(*inst);
                assert(extra == !is_phi_inst);
                assert forall|v: VReg| #[trigger] set_of(u, live@).contains(v)
                    == (set_of(u, live_cleared).contains(v) || (extra && spec_uses(*inst).contains(v))) by {}
                assert forall|q: int| 0 <= q < m implies node@[q] == (node_u[q] || (extra && spec_uses(*inst).contains(u[q]))) by {}
                // the live values before the instruction
                assert forall|v: VReg| set_of(u, live@).contains(v) == live_before(*f, bi, xi).contains(v) by {
                    assert(set_of(u, live_x) == live_before(*f, bi, xi + 1));
                    if v == d {
                        assert(!set_of(u, live_cleared).contains(v));
                    } else {
                        assert(set_of(u, live_cleared).contains(v) == set_of(u, live_x).contains(v));
                    }
                }
                assert(set_of(u, live@) =~= live_before(*f, bi, xi));
                assert(len - (t + 1) == xi);
                // the nodes
                assert forall|q: int| 0 <= q < m implies node@[q] == (node_b[q] || live_end[q]
                    || exists|x2: int| len - (t + 1) <= x2 < len && (spec_def(#[trigger] inst_at(*f, bi, x2)) == u[q]
                        || (!is_phi(inst_at(*f, bi, x2)) && spec_uses(inst_at(*f, bi, x2)).contains(u[q])))) by {
                    assert(node_u[q] == (node_b[q] || live_end[q]
                        || q == di
                        || exists|x2: int| len - t <= x2 < len && (spec_def(#[trigger] inst_at(*f, bi, x2)) == u[q]
                            || (!is_phi(inst_at(*f, bi, x2)) && spec_uses(inst_at(*f, bi, x2)).contains(u[q])))));
                    if q == di {
                        assert(spec_def(inst_at(*f, bi, xi)) == u[q]);
                    } else {
                        assert(u[q] != u[di as int]);
                    }
                    if extra && spec_uses(*inst).contains(u[q]) {
                        assert(spec_uses(inst_at(*f, bi, xi)).contains(u[q]));
                    }
                    if exists|x2: int| len - (t + 1) <= x2 < len && (spec_def(#[trigger] inst_at(*f, bi, x2)) == u[q]
                        || (!is_phi(inst_at(*f, bi, x2)) && spec_uses(inst_at(*f, bi, x2)).contains(u[q]))) {
                        let x2 = choose|x2: int| len - (t + 1) <= x2 < len && (spec_def(#[trigger] inst_at(*f, bi, x2)) == u[q]
                            || (!is_phi(inst_at(*f, bi, x2)) && spec_uses(inst_at(*f, bi, x2)).contains(u[q])));
                        if x2 != xi {
                            assert(len - t <= x2 < len);
                        }
                    }
                }
                // the interference
                assert forall|i: int, j: int| 0 <= i < m && 0 <= j < m implies #[trigger] mat(adj@)[i][j]
                    == (adj_b[i][j] || exists|x2: int| len - (t + 1) <= x2 < len && #[trigger] interferes_at(*f, bi, x2, u[i], u[j])) by {
                    let here = interferes_at(*f, bi, xi, u[i], u[j]);
                    assert(live_x[j] == live_before(*f, bi, xi + 1).contains(u[j])) by {
                        if live_before(*f, bi, xi + 1).contains(u[j]) {
                            assert(set_of(u, live_x).contains(u[j]));
                            let w = choose|w: int| 0 <= w < u.len() && #[trigger] u[w] == u[j] && live_x[w];
                        }
                    }
                    assert(live_x[i] == live_before(*f, bi, xi + 1).contains(u[i])) by {
                        if live_before(*f, bi, xi + 1).contains(u[i]) {
                            assert(set_of(u, live_x).contains(u[i]));
                            let w = choose|w: int| 0 <= w < u.len() && #[trigger] u[w] == u[i] && live_x[w];
                        }
                    }
                    assert(here == ((i == di && live_x[j] && j != di) || (j == di && live_x[i] && i != di))) by {
                        if i != j { assert(u[i] != u[j]); }
                        if i != di { assert(u[i] != u[di as int]); }
                        if j != di { assert(u[j] != u[di as int]); }
                    }
                    if exists|x2: int| len - (t + 1) <= x2 < len && #[trigger] interferes_at(*f, bi, x2, u[i], u[j]) {
                        let x2 = choose|x2: int| len - (t + 1) <= x2 < len && #[trigger] interferes_at(*f, bi, x2, u[i], u[j]);
                        if x2 != xi {
                            assert(exists|x3: int| len - t <= x3 < len && #[trigger] interferes_at(*f, bi, x3, u[i], u[j]));
                        }
                    }
                    if exists|x2: int| len - t <= x2 < len && #[trigger] interferes_at(*f, bi, x2, u[i], u[j]) {
                        let x2 = choose|x2: int| len - t <= x2 < len && #[trigger] interferes_at(*f, bi, x2, u[i], u[j]);
                        assert(len - (t + 1) <= x2 < len);
                    }
                }
            }
            t += 1;
        }
        proof {
            let bi = b as int;
            assert forall|q: int| 0 <= q < m implies node@[q] == exists|b2: int| 0 <= b2 < b + 1 && #[trigger] node_in(*f, b2, u[q]) by {
                assert(live_end[q] == live_before(*f, bi, len as int).contains(u[q])) by {
                    if live_before(*f, bi, len as int).contains(u[q]) {
                        assert(set_of(u, live_end).contains(u[q]));
                        let w = choose|w: int| 0 <= w < u.len() && #[trigger] u[w] == u[q] && live_end[w];
                    }
                }
                if node_in(*f, bi, u[q]) {
                    if !live_before(*f, bi, len as int).contains(u[q]) {
                        let x2 = choose|x2: int| 0 <= x2 < f.blocks@[bi].insts@.len()
                            && (spec_def(#[trigger] inst_at(*f, bi, x2)) == u[q] || (!is_phi(inst_at(*f, bi, x2)) && spec_uses(inst_at(*f, bi, x2)).contains(u[q])));
                        assert(len - t <= x2 < len);
                    }
                }
                if exists|b2: int| 0 <= b2 < b + 1 && #[trigger] node_in(*f, b2, u[q]) {
                    let b2 = choose|b2: int| 0 <= b2 < b + 1 && #[trigger] node_in(*f, b2, u[q]);
                    if b2 < b { assert(node_b[q]); }
                }
            }
            assert forall|i: int, j: int| 0 <= i < m && 0 <= j < m implies #[trigger] mat(adj@)[i][j]
                == exists|b2: int, x2: int| 0 <= b2 < b + 1 && #[trigger] interferes_at(*f, b2, x2, u[i], u[j]) by {
                if exists|b2: int, x2: int| 0 <= b2 < b + 1 && #[trigger] interferes_at(*f, b2, x2, u[i], u[j]) {
                    let (b2, x2) = choose|b2: int, x2: int| 0 <= b2 < b + 1 && #[trigger] interferes_at(*f, b2, x2, u[i], u[j]);
                    if b2 == b {
                        assert(len - t <= x2 < len);
                    } else {
                        assert(adj_b[i][j]);
                    }
                }
                if adj_b[i][j] {
                    let (b2, x2) = choose|b2: int, x2: int| 0 <= b2 < b && #[trigger] interferes_at(*f, b2, x2, u[i], u[j]);
                    assert(0 <= b2 < b + 1);
                }
            }
        }
        b += 1;
    }
    proof {
        assert forall|k: int| 0 <= k < m implies node@[k] == is_node(*f, #[trigger] u[k]) by {}
        assert forall|i: int, j: int| 0 <= i < m && 0 <= j < m implies #[trigger] mat(adj@)[i][j] == interferes(*f, u[i], u[j]) by {}
    }
    (node, adj)
}

/// The graph holds exactly the nodes, and for each node exactly the values it interferes with.
pub open spec fn graph_exact(f: Function, g: InterferenceGraph) -> bool {
    let e = vreg_sets_entries(g.edges);
    &&& holds_exactly(vreg_set_items(g.nodes), Set::new(|v: VReg| is_node(f, v)))
    &&& keys_distinct(e)
    &&& forall|v: VReg| #[trigger] has_key(e, v) == is_node(f, v)
    &&& forall|v: VReg| is_node(f, v) ==> holds_exactly(vreg_set_items(#[trigger] value_at(e, v)),
        Set::new(|c: VReg| interferes(f, v, c)))
}

/// Nodes and interfering values are values of the function.
proof fn lemma_graph_values(f: Function, c: LiveCore, v: VReg, w: VReg)
    requires
        core_ok(f, c),
    ensures
        is_node(f, v) ==> c.u@.contains(v),
        interferes(f, v, w) ==> c.u@.contains(w),
{
    if is_node(f, v) {
        let b = choose|b: int| 0 <= b < f.blocks@.len() && #[trigger] node_in(f, b, v);
        if live_before(f, b, f.blocks@[b].insts@.len() as int).contains(v) {
            lemma_live_before_mentioned(f, c, b, f.blocks@[b].insts@.len() as int, v);
        } else {
            let x = choose|x: int| 0 <= x < f.blocks@[b].insts@.len()
                && (spec_def(#[trigger] inst_at(f, b, x)) == v || (!is_phi(inst_at(f, b, x)) && spec_uses(inst_at(f, b, x)).contains(v)));
            assert(mentioned(f, v));
        }
    }
    if interferes(f, v, w) {
        let (b, x) = choose|b: int, x: int| 0 <= b < f.blocks@.len() && #[trigger] interferes_at(f, b, x, v, w);
        if spec_def(inst_at(f, b, x)) == w {
            assert(mentioned(f, w));
        } else {
            lemma_live_before_mentioned(f, c, b, x + 1, w);
        }
    }
}

/// The interference graph: every value live at the end of a block, defined, or
/// read by a non-phi instruction is a node, and a value interferes with every
/// other value live just after its definition. Fails as liveness does.
pub fn build_interference_graph(f: &Function) -> (r: Result<InterferenceGraph, CfgError>)
    ensures
        r is Ok <==> successors_known(*f),
        r matches Err(e) ==> is_last_unknown(*f, e),
        r matches Ok(g) ==> graph_exact(*f, g),
{
    check_successors_from_end(f)?;
    let c = liveness_core(f);
    let (node, adj) = interference_bits(f, &c);
    let ghost u = c.u@;
    let m = c.u.len();
    let mut nodes = vreg_set_new();
    let mut edges = vreg_sets_new();
    let mut k: usize = 0;
    while k < m
        invariant
            m == c.u@.len(),
            u == c.u@,
            core_ok(*f, c),
            k <= m,
            node@.len() == m,
            rect(m as int, m as int, mat(adj@)),
            forall|q: int| 0 <= q < m ==> node@[q] == is_node(*f, #[trigger] u[q]),
            forall|i: int, j: int| 0 <= i < m && 0 <= j < m ==> #[trigger] mat(adj@)[i][j] == interferes(*f, u[i], u[j]),
            vreg_set_items(nodes).no_duplicates(),
            forall|v: VReg| #[trigger] vreg_set_items(nodes).contains(v) == exists|q: int| 0 <= q < k && u[q] == v && node@[q],
            keys_distinct(vreg_sets_entries(edges)),
            forall|v: VReg| #[trigger] has_key(vreg_sets_entries(edges), v) == exists|q: int| 0 <= q < k && u[q] == v && node@[q],
            forall|q: int| 0 <= q < k && node@[q] ==> holds_exactly(vreg_set_items(#[trigger] value_at(vreg_sets_entries(edges), u[q])),
                Set::new(|w: VReg| interferes(*f, u[q], w))),
        decreases m - k,
    {
        if node[k] {
            let v = c.u[k];
            let ghost n0 = vreg_set_items(nodes);
            let ghost e0 = vreg_sets_entries(edges);
            assert(forall|w: VReg| #[trigger] has_key(e0, w) == exists|q: int| 0 <= q < k && u[q] == w && node@[q]);
            assert(forall|q: int| 0 <= q < k && node@[q] ==> holds_exactly(vreg_set_items(#[trigger] value_at(e0, u[q])),
                Set::new(|w: VReg| interferes(*f, u[q], w))));
            vreg_set_insert(&mut nodes, v);
            assert(adj@[k as int]@ == mat(adj@)[k as int]);
            let set = set_from_row(&c.u, &adj[k]);
            vreg_sets_insert(&mut edges, v, set);
            proof {
                lemma_set_insert(n0, v);
                lemma_entries_insert(e0, v, set);
                assert(u.no_duplicates());
                assert(!n0.contains(v)) by {
                    if n0.contains(v) {
                        let q = choose|q: int| 0 <= q < k && u[q] == v && node@[q];
                        assert(u[q] == u[k as int]);
                    }
                }
                assert(!has_key(e0, v)) by {
                    if has_key(e0, v) {
                        let q = choose|q: int| 0 <= q < k && u[q] == v && node@[q];
                        assert(u[q] == u[k as int]);
                    }
                }
                assert forall|w: VReg| #[trigger] vreg_set_items(nodes).contains(w) == exists|q: int| 0 <= q < k + 1 && u[q] == w && node@[q] by {
                    if vreg_set_items(nodes).contains(w) && w != v {
                        assert(vreg_set_items(nodes) == n0.push(v));
                        let i = choose|i: int| 0 <= i < vreg_set_items(nodes).len() && vreg_set_items(nodes)[i] == w;
                        assert(n0.contains(w));
                    }
                    if exists|q: int| 0 <= q < k + 1 && u[q] == w && node@[q] {
                        let q = choose|q: int| 0 <= q < k + 1 && u[q] == w && node@[q];
                        if q < k { assert(n0.contains(w)); }
                    }
                }
                assert forall|w: VReg| #[trigger] has_key(vreg_sets_entries(edges), w) == exists|q: int| 0 <= q < k + 1 && u[q] == w && node@[q] by {
                    assert(has_key(e0, w) == exists|q: int| 0 <= q < k && u[q] == w && node@[q]);
                    if w != v {
                        assert(has_key(vreg_sets_entries(edges), w) == has_key(e0, w));
                    }
                    if exists|q: int| 0 <= q < k + 1 && u[q] == w && node@[q] {
                        let q = choose|q: int| 0 <= q < k + 1 && u[q] == w && node@[q];
                        if q < k { assert(has_key(e0, w)); }
                    }
                    if exists|q: int| 0 <= q < k && u[q] == w && node@[q] {
                        let q = choose|q: int| 0 <= q < k && u[q] == w && node@[q];
                        assert(0 <= q < k + 1 && u[q] == w && node@[q]);
                    }
                }
                assert forall|q: int| 0 <= q < k + 1 && node@[q] implies holds_exactly(vreg_set_items(#[trigger] value_at(vreg_sets_entries(edges), u[q])),
                    Set::new(|w: VReg| interferes(*f, u[q], w))) by {
                    if q == k {
                        assert forall|w: VReg| #[trigger] set_of(u, adj@[k as int]@).contains(w) == Set::new(|w: VReg| interferes(*f, u[q], w)).contains(w) by {
                            if interferes(*f, u[q], w) {
                                lemma_graph_values(*f, c, u[q], w);
                                let j = choose|j: int| 0 <= j < u.len() && u[j] == w;
                                assert(mat(adj@)[q][j]);
                            }
                            if set_of(u, adj@[k as int]@).contains(w) {
                                let j = choose|j: int| 0 <= j < u.len() && #[trigger] u[j] == w && adj@[k as int]@[j];
                                assert(mat(adj@)[q][j]);
                            }
                        }
                    } else {
                        assert(u[q] != v);
                        assert(value_at(vreg_sets_entries(edges), u[q]) == value_at(e0, u[q]));
                        assert(holds_exactly(vreg_set_items(value_at(e0, u[q])), Set::new(|w: VReg| interferes(*f, u[q], w))));
                    }
                }
            }
        }
        k += 1;
    }
    proof {
        assert forall|v: VReg| #[trigger] vreg_set_items(nodes).contains(v) == Set::new(|v: VReg| is_node(*f, v)).contains(v) by {
            if is_node(*f, v) {
                lemma_graph_values(*f, c, v, v);
                let q = choose|q: int| 0 <= q < u.len() && u[q] == v;
                assert(node@[q]);
            }
        }
        assert forall|v: VReg| #[trigger] has_key(vreg_sets_entries(edges), v) == is_node(*f, v) by {
            if is_node(*f, v) {
                lemma_graph_values(*f, c, v, v);
                let q = choose|q: int| 0 <= q < u.len() && u[q] == v;
                assert(node@[q]);
            }
        }
        assert forall|v: VReg| is_node(*f, v) implies holds_exactly(vreg_set_items(#[trigger] value_at(vreg_sets_entries(edges), v)),
            Set::new(|w: VReg| interferes(*f, v, w))) by {
            lemma_graph_values(*f, c, v, v);
            let q = choose|q: int| 0 <= q < u.len() && u[q] == v;
            assert(node@[q]);
        }
    }
    Ok(InterferenceGraph { nodes, edges })
}

/// `right` is recorded as interfering with `left` (what `has_edge` answers).
pub open spec fn edge_recorded(g: InterferenceGraph, left: VReg, right: VReg) -> bool {
    has_key(vreg_sets_entries(g.edges), left)
        && vreg_set_items(value_at(vreg_sets_entries(g.edges), left)).contains(right)
}

/// A value live before instruction `x` of block `b` is a node of that block.
proof fn lemma_live_before_node(f: Function, b: int, x: int, v: VReg)
    requires
        0 <= b < f.blocks@.len(),
        0 <= x <= f.blocks@[b].insts@.len(),
        live_before(f, b, x).contains(v),
    ensures
        node_in(f, b, v),
    decreases f.blocks@[b].insts@.len() - x,
{
    if x < f.blocks@[b].insts@.len() {
        let inst = inst_at(f, b, x);
        if live_before(f, b, x + 1).contains(v) {
            lemma_live_before_node(f, b, x + 1, v);
        } else {
            assert(!is_phi(inst) && spec_uses(inst).contains(v));
            assert(spec_def(inst_at(f, b, x)) == spec_def(inst));
        }
    }
}

/// Both values of an interference are nodes.
proof fn lemma_interference_nodes(f: Function, a: VReg, c: VReg)
    requires
        interferes(f, a, c),
    ensures
        is_node(f, a),
        is_node(f, c),
{
    let (b, x) = choose|b: int, x: int| 0 <= b < f.blocks@.len() && #[trigger] interferes_at(f, b, x, a, c);
    assert(spec_def(inst_at(f, b, x)) == spec_def(inst_at(f, b, x)));
    if spec_def(inst_at(f, b, x)) == a && live_before(f, b, x + 1).contains(c) {
        lemma_live_before_node(f, b, x + 1, c);
        assert(node_in(f, b, a));
    } else {
        lemma_live_before_node(f, b, x + 1, a);
        assert(node_in(f, b, c));
    }
}

/// The graph is well formed: `right` is recorded against `left` exactly when
/// `left` is recorded against `right`, never against itself, and both are
/// then nodes of the graph.
pub proof fn lemma_interference_symmetric(f: Function, g: InterferenceGraph, left: VReg, right: VReg)
    requires
        graph_exact(f, g),
    ensures
        edge_recorded(g, left, right) == edge_recorded(g, right, left),
        !edge_recorded(g, left, left),
        edge_recorded(g, left, right) ==> vreg_set_items(g.nodes).contains(left)
            && vreg_set_items(g.nodes).contains(right),
{
    let e = vreg_sets_entries(g.edges);
    assert(interferes(f, left, right) == interferes(f, right, left)) by {
        if interferes(f, left, right) {
            let (b, x) = choose|b: int, x: int| 0 <= b < f.blocks@.len() && #[trigger] interferes_at(f, b, x, left, right);
            assert(interferes_at(f, b, x, right, left));
        }
        if interferes(f, right, left) {
            let (b, x) = choose|b: int, x: int| 0 <= b < f.blocks@.len() && #[trigger] interferes_at(f, b, x, right, left);
            assert(interferes_at(f, b, x, left, right));
        }
    }
    if interferes(f, left, right) {
        lemma_interference_nodes(f, left, right);
    }
    assert(has_key(e, left) == is_node(f, left));
    assert(has_key(e, right) == is_node(f, right));
    if is_node(f, left) {
        assert(vreg_set_items(value_at(e, left)).contains(right) == Set::new(|c: VReg| interferes(f, left, c)).contains(right));
        assert(vreg_set_items(value_at(e, left)).contains(left) == Set::new(|c: VReg| interferes(f, left, c)).contains(left));
        assert(!interferes(f, left, left)) by {
            if interferes(f, left, left) {
                let (b, x) = choose|b: int, x: int| 0 <= b < f.blocks@.len() && #[trigger] interferes_at(f, b, x, left, left);
            }
        }
    }
    if is_node(f, right) {
        assert(vreg_set_items(value_at(e, right)).contains(left) == Set::new(|c: VReg| interferes(f, right, c)).contains(left));
    }
    if edge_recorded(g, left, right) {
        assert(Set::new(|c: VReg| interferes(f, left, c)).contains(right));
        lemma_interference_nodes(f, left, right);
        assert(Set::new(|v: VReg| is_node(f, v)).contains(left));
        assert(Set::new(|v: VReg| is_node(f, v)).contains(right));
    }
}

/// The unordered pair of values of an edge.
pub open spec fn pair_key(a: VReg, b: VReg) -> (u32, u32) {
    if a.0 < b.0 { (a.0, b.0) } else { (b.0, a.0) }
}

/// `acc` with `p` added unless an edge between the same two values is listed.
pub open spec fn keep_new(acc: Seq<(VReg, VReg)>, p: (VReg, VReg)) -> Seq<(VReg, VReg)> {
    if exists|i: int| 0 <= i < acc.len() && #[trigger] pair_key(acc[i].0, acc[i].1) == pair_key(p.0, p.1) {
        acc
    } else {
        acc.push(p)
    }
}

/// The edges met in the first `k` entries and the first `j` neighbours of
/// entry `k`, each pair of values once, in the order first met.
pub open spec fn edges_upto(e: Seq<(VReg, IndexSet<VReg>)>, k: int, j: int) -> Seq<(VReg, VReg)>
    decreases k, j,
{
    if j > 0 && 0 <= k < e.len() {
        keep_new(edges_upto(e, k, j - 1), (e[k].0, vreg_set_items(e[k].1)[j - 1]))
    } else if k > 0 && k <= e.len() {
        edges_upto(e, k - 1, vreg_set_items(e[k - 1].1).len() as int)
    } else {
        seq![]
    }
}

/// Every edge of the graph once (an edge and its reverse count as one), in the
/// order the adjacency lists first give them.
pub fn undirected_edges(g: &InterferenceGraph) -> (r: Vec<(VReg, VReg)>)
    ensures
        r@ == edges_upto(vreg_sets_entries(g.edges), vreg_sets_entries(g.edges).len() as int, 0),
{
    let ghost e = vreg_sets_entries(g.edges);
    let n = vreg_sets_len(&g.edges);
    let mut out: Vec<(VReg, VReg)> = Vec::new();
    let mut seen: Vec<(u32, u32)> = Vec::new();
    let mut k: usize = 0;
    while k < n
        invariant
            n == e.len(),
            e == vreg_sets_entries(g.edges),
            k <= n,
            out@ == edges_upto(e, k as int, 0),
            seen@.len() == out@.len(),
            forall|i: int| 0 <= i < out@.len() ==> #[trigger] seen@[i] == pair_key(out@[i].0, out@[i].1),
        decreases n - k,
    {
        let (a, set) = vreg_sets_get_index(&g.edges, k).unwrap();
        let m = vreg_set_len(set);
        let mut j: usize = 0;
        while j < m
            invariant
                n == e.len(),
                k < n,
                (a, *set) == e[k as int],
                m == vreg_set_items(*set).len(),
                j <= m,
                out@ == edges_upto(e, k as int, j as int),
                seen@.len() == out@.len(),
                forall|i: int| 0 <= i < out@.len() ==> #[trigger] seen@[i] == pair_key(out@[i].0, out@[i].1),
            decreases m - j,
        {
            let b = vreg_set_get_index(set, j).unwrap();
            let key = if a.0 < b.0 { (a.0, b.0) } else { (b.0, a.0) };
            let mut found = false;
            let mut q: usize = 0;
            while q < seen.len()
                invariant
                    q <= seen@.len(),
                    found == exists|i: int| 0 <= i < q && seen@[i] == key,
                decreases seen.len() - q,
            {
                if seen[q].0 == key.0 && seen[q].1 == key.1 {
                    found = true;
                }
                q += 1;
            }
            proof {
                assert(key == pair_key(a, b));
                if found {
                    let i = choose|i: int| 0 <= i < seen@.len() && seen@[i] == key;
                    assert(pair_key(out@[i].0, out@[i].1) == pair_key(a, b));
                } else {
                    assert forall|i: int| 0 <= i < out@.len() implies #[trigger] pair_key(out@[i].0, out@[i].1) != pair_key(a, b) by {
                        assert(seen@[i] == pair_key(out@[i].0, out@[i].1));
                    }
                }
            }
            if !found {
                out.push((a, b));
                seen.push(key);
            }
            j += 1;
        }
        k += 1;
    }
    out
}

} // verus!
