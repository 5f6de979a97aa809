//! Stable insertion sort: each item goes after every earlier item that is not
//! greater, so items with equal keys keep their order.
use vstd::prelude::*;
use crate::intervals::{LiveInterval, interval_key_le};
use crate::regalloc::PhysReg;

verus! {

broadcast use vstd::seq_lib::to_multiset_insert;

/// `le` is a total preorder.
pub open spec fn total_preorder<T>(le: spec_fn(T, T) -> bool) -> bool {
    &&& forall|a: T, b: T| #[trigger] le(a, b) || le(b, a)
    &&& forall|a: T, b: T, c: T| #[trigger] le(a, b) && #[trigger] le(b, c) ==> le(a, c)
}

/// Every item is `le` every later one.
pub open spec fn sorted_by_le<T>(s: Seq<T>, le: spec_fn(T, T) -> bool) -> bool {
    forall|i: int, j: int| 0 <= i < j < s.len() ==> le(s[i], s[j])
}

/// `p` splits `s` into the items `le` `x` and the items that are not.
pub open spec fn splits_at<T>(s: Seq<T>, x: T, le: spec_fn(T, T) -> bool, p: int) -> bool {
    &&& 0 <= p <= s.len()
    &&& forall|i: int| 0 <= i < p ==> le(#[trigger] s[i], x)
    &&& forall|i: int| p <= i < s.len() ==> !le(#[trigger] s[i], x)
}

/// Where `x` goes in the sorted `s`: after every item that is `le` it.
pub open spec fn insert_pos<T>(s: Seq<T>, x: T, le: spec_fn(T, T) -> bool) -> int {
    choose|p: int| splits_at(s, x, le, p)
}

/// `s` sorted by inserting its items in order, each after the items `le` it.
pub open spec fn insertion_sorted<T>(s: Seq<T>, le: spec_fn(T, T) -> bool) -> Seq<T>
    decreases s.len(),
{
    if s.len() == 0 {
        s
    } else {
        let t = insertion_sorted(s.drop_last(), le);
        t.insert(insert_pos(t, s.last(), le), s.last())
    }
}

/// In a sorted sequence the split point for `x` exists and is unique.
pub proof fn lemma_split_unique<T>(s: Seq<T>, x: T, le: spec_fn(T, T) -> bool, p: int)
    requires
        total_preorder(le),
        sorted_by_le(s, le),
        splits_at(s, x, le, p),
    ensures
        insert_pos(s, x, le) == p,
{
    let q = insert_pos(s, x, le);
    assert(splits_at(s, x, le, q));
    if q < p {
        assert(le(s[q], x));
    } else if p < q {
        assert(le(s[p], x));
    }
}

proof fn lemma_split_exists<T>(s: Seq<T>, x: T, le: spec_fn(T, T) -> bool)
    requires
        total_preorder(le),
        sorted_by_le(s, le),
    ensures
        splits_at(s, x, le, insert_pos(s, x, le)),
    decreases s.len(),
{
    if s.len() == 0 {
        assert(splits_at(s, x, le, 0));
    } else {
        let t = s.drop_last();
        assert(sorted_by_le(t, le));
        lemma_split_exists(t, x, le);
        let p = insert_pos(t, x, le);
        if le(s.last(), x) {
            assert forall|i: int| 0 <= i < s.len() implies le(#[trigger] s[i], x) by {
                if i < s.len() - 1 {
                    assert(le(s[i], s[s.len() - 1]));
                }
            }
            assert(splits_at(s, x, le, s.len() as int));
        } else {
            assert(splits_at(s, x, le, p)) by {
                assert forall|i: int| 0 <= i < p implies le(#[trigger] s[i], x) by {
                    assert(t[i] == s[i]);
                }
                assert forall|i: int| p <= i < s.len() implies !le(#[trigger] s[i], x) by {
                    if i < s.len() - 1 {
                        assert(t[i] == s[i]);
                    }
                }
            }
        }
    }
}

/// Inserting at the split point keeps a sorted sequence sorted.
proof fn lemma_insert_sorted<T>(s: Seq<T>, x: T, le: spec_fn(T, T) -> bool, p: int)
    requires
        total_preorder(le),
        sorted_by_le(s, le),
        splits_at(s, x, le, p),
    ensures
        sorted_by_le(s.insert(p, x), le),
{
    let u = s.insert(p, x);
    s.insert_ensures(p, x);
    assert forall|i: int, j: int| 0 <= i < j < u.len() implies le(u[i], u[j]) by {
        if j < p {
            assert(u[i] == s[i] && u[j] == s[j]);
        } else if j == p {
            assert(u[i] == s[i]);
        } else if i < p {
            assert(u[i] == s[i] && u[j] == s[j - 1]);
            assert(le(s[i], x));
            assert(!le(s[j - 1], x));
            assert(le(x, s[j - 1]));
        } else if i == p {
            assert(u[j] == s[j - 1]);
            assert(!le(s[j - 1], x));
        } else {
            assert(u[i] == s[i - 1] && u[j] == s[j - 1]);
        }
    }
}

/// The insertion-sorted sequence is sorted and holds the same items.
pub proof fn lemma_insertion_sorted<T>(s: Seq<T>, le: spec_fn(T, T) -> bool)
    requires
        total_preorder(le),
    ensures
        sorted_by_le(insertion_sorted(s, le), le),
        insertion_sorted(s, le).to_multiset() == s.to_multiset(),
        insertion_sorted(s, le).len() == s.len(),
    decreases s.len(),
{
    broadcast use vstd::seq_lib::group_to_multiset_ensures;
    if s.len() > 0 {
        let t = insertion_sorted(s.drop_last(), le);
        lemma_insertion_sorted(s.drop_last(), le);
        lemma_split_exists(t, s.last(), le);
        let p = insert_pos(t, s.last(), le);
        lemma_insert_sorted(t, s.last(), le, p);
        assert(s == s.drop_last().push(s.last()));
    }
}

/// Order of live intervals by start, then end, then value number.
pub open spec fn interval_le() -> spec_fn(LiveInterval, LiveInterval) -> bool {
    |a: LiveInterval, b: LiveInterval| interval_key_le(a, b)
}

/// Order of active entries by the end of their interval.
pub open spec fn end_le() -> spec_fn((LiveInterval, PhysReg), (LiveInterval, PhysReg)) -> bool {
    |a: (LiveInterval, PhysReg), b: (LiveInterval, PhysReg)| a.0.end.0 <= b.0.end.0
}

/// Sorts intervals stably by start, then end, then value number.
pub fn sort_intervals(v: &mut Vec<LiveInterval>)
    ensures
        final(v)@ == insertion_sorted(old(v)@, interval_le()),
        final(v)@.to_multiset() == old(v)@.to_multiset(),
        final(v)@.len() == old(v)@.len(),
        forall|i: int, j: int| 0 <= i < j < final(v)@.len() ==> interval_key_le(final(v)@[i], final(v)@[j]),
{
    let ghost le = interval_le();
    assert(total_preorder(le));
    let n = v.len();
    let mut out: Vec<LiveInterval> = Vec::new();
    let mut i: usize = 0;
    while i < n
        invariant
            n == old(v)@.len() == v@.len(),
            v@ == old(v)@,
            i <= n,
            le == interval_le(),
            total_preorder(le),
            out@ == insertion_sorted(v@.take(i as int), le),
        decreases n - i,
    {
        let x = v[i];
        proof { lemma_insertion_sorted(v@.take(i as int), le); }
        let mut p: usize = 0;
        while p < out.len() && interval_key_le_exec(&out[p], &x)
            invariant
                p <= out@.len(),
                le == interval_le(),
                forall|q: int| 0 <= q < p ==> le(#[trigger] out@[q], x),
            decreases out.len() - p,
        {
            p += 1;
        }
        proof {
            let s = out@;
            assert forall|q: int| p <= q < s.len() implies !le(#[trigger] s[q], x) by {
                assert(!le(s[p as int], x));
                if q > p {
                    assert(le(s[p as int], s[q]));
                    if le(s[q], x) {
                        assert(le(s[p as int], x));
                    }
                }
            }
            lemma_split_unique(s, x, le, p as int);
            assert(v@.take(i + 1).drop_last() == v@.take(i as int));
        }
        out.insert(p, x);
        i += 1;
    }
    proof {
        assert(v@.take(n as int) == v@);
        lemma_insertion_sorted(v@, le);
    }
    *v = out;
}

/// Whether `a` comes no later than `b` by start, end and value number.
fn interval_key_le_exec(a: &LiveInterval, b: &LiveInterval) -> (r: bool)
    ensures
        r == interval_key_le(*a, *b),
{
    a.start.0 < b.start.0
        || (a.start.0 == b.start.0 && a.end.0 < b.end.0)
        || (a.start.0 == b.start.0 && a.end.0 == b.end.0 && a.v.0 <= b.v.0)
}

/// Sorts active entries stably by the end of their interval.
pub fn sort_by_end(v: &mut Vec<(LiveInterval, PhysReg)>)
    ensures
        final(v)@ == insertion_sorted(old(v)@, end_le()),
        final(v)@.to_multiset() == old(v)@.to_multiset(),
        final(v)@.len() == old(v)@.len(),
        forall|i: int, j: int| 0 <= i < j < final(v)@.len() ==> final(v)@[i].0.end.0 <= final(v)@[j].0.end.0,
{
    let ghost le = end_le();
    assert(total_preorder(le));
    let n = v.len();
    let mut out: Vec<(LiveInterval, PhysReg)> = Vec::new();
    let mut i: usize = 0;
    while i < n
        invariant
            n == old(v)@.len() == v@.len(),
            v@ == old(v)@,
            i <= n,
            le == end_le(),
            total_preorder(le),
            out@ == insertion_sorted(v@.take(i as int), le),
        decreases n - i,
    {
        let x = v[i];
        proof { lemma_insertion_sorted(v@.take(i as int), le); }
        let mut p: usize = 0;
        while p < out.len() && out[p].0.end.0 <= x.0.end.0
            invariant
                p <= out@.len(),
                le == end_le(),
                forall|q: int| 0 <= q < p ==> le(#[trigger] out@[q], x),
            decreases out.len() - p,
        {
            p += 1;
        }
        proof {
            let s = out@;
            assert forall|q: int| p <= q < s.len() implies !le(#[trigger] s[q], x) by {
                assert(!le(s[p as int], x));
                if q > p {
                    assert(le(s[p as int], s[q]));
                    if le(s[q], x) {
                        assert(le(s[p as int], x));
                    }
                }
            }
            lemma_split_unique(s, x, le, p as int);
            assert(v@.take(i + 1).drop_last() == v@.take(i as int));
        }
        out.insert(p, x);
        i += 1;
    }
    proof {
        assert(v@.take(n as int) == v@);
        lemma_insertion_sorted(v@, le);
    }
    *v = out;
}

} // verus!
