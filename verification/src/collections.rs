//! The ordered maps and sets of `indexmap` that the library's data holds,
//! each instantiation's contents named as a sequence of entries in order.
use vstd::prelude::*;
use indexmap::{IndexMap, IndexSet};
use crate::ir::{BlockId, VReg};
use crate::regalloc::Location;
use crate::liveness::BlockLiveness;
use crate::intervals::Pos;

verus! {

#[verifier::external_type_specification]
#[verifier::external_body]
#[verifier::reject_recursive_types(K)]
#[verifier::reject_recursive_types(V)]
#[verifier::reject_recursive_types(S)]
pub struct ExIndexMap<K, V, S>(IndexMap<K, V, S>);

#[verifier::external_type_specification]
#[verifier::external_body]
#[verifier::reject_recursive_types(T)]
#[verifier::reject_recursive_types(S)]
pub struct ExIndexSet<T, S>(IndexSet<T, S>);

/// The position of the entry with key `k` in `e`, or -1.
pub open spec fn key_index<K, V>(e: Seq<(K, V)>, k: K) -> int
    decreases e.len(),
{
    if e.len() == 0 {
        -1
    } else if e[0].0 == k {
        0
    } else {
        let rest = key_index(e.drop_first(), k);
        if rest < 0 { -1 } else { rest + 1 }
    }
}

/// Whether `e` holds an entry with key `k`.
pub open spec fn has_key<K, V>(e: Seq<(K, V)>, k: K) -> bool {
    key_index(e, k) >= 0
}

/// The value stored under `k` in `e` (meaningful when `has_key(e, k)`).
pub open spec fn value_at<K, V>(e: Seq<(K, V)>, k: K) -> V {
    e[key_index(e, k)].1
}

/// The keys of the entries, as a set.
pub open spec fn key_set<K, V>(e: Seq<(K, V)>) -> Set<K> {
    e.map_values(|x: (K, V)| x.0).to_set()
}

/// Entries as many as their distinct keys have no key twice.
pub proof fn lemma_keys_distinct_by_count<K, V>(e: Seq<(K, V)>)
    requires
        e.len() == key_set(e).len(),
    ensures
        keys_distinct(e),
{
    let ks = e.map_values(|x: (K, V)| x.0);
    ks.lemma_no_dup_set_cardinality();
    assert forall|i: int, j: int| 0 <= i < j < e.len() implies e[i].0 != e[j].0 by {
        assert(ks[i] == e[i].0 && ks[j] == e[j].0);
    }
}

/// No key occurs twice among the entries.
pub open spec fn keys_distinct<K, V>(e: Seq<(K, V)>) -> bool {
    forall|i: int, j: int| 0 <= i < j < e.len() ==> e[i].0 != e[j].0
}

/// The entries after inserting `(k, v)`: an existing key keeps its place and
/// takes the new value; a new key goes last.
pub open spec fn entries_insert<K, V>(e: Seq<(K, V)>, k: K, v: V) -> Seq<(K, V)> {
    if key_index(e, k) >= 0 {
        e.update(key_index(e, k), (k, v))
    } else {
        e.push((k, v))
    }
}

/// The entries of a map into which the pairs of `s` are inserted in order, starting empty.
pub open spec fn entries_insert_all<K, V>(s: Seq<(K, V)>) -> Seq<(K, V)>
    decreases s.len(),
{
    if s.len() == 0 {
        seq![]
    } else {
        entries_insert(entries_insert_all(s.drop_last()), s.last().0, s.last().1)
    }
}

/// The items after inserting `x` into an ordered set: unchanged when present, else appended.
pub open spec fn set_insert<T>(s: Seq<T>, x: T) -> Seq<T> {
    if s.contains(x) { s } else { s.push(x) }
}

pub proof fn lemma_key_index<K, V>(e: Seq<(K, V)>, k: K)
    ensures
        -1 <= key_index(e, k) < e.len(),
        key_index(e, k) >= 0 ==> e[key_index(e, k)].0 == k,
        forall|j: int| 0 <= j < e.len() && (key_index(e, k) < 0 || j < key_index(e, k)) ==> e[j].0 != k,
        key_index(e, k) < 0 <==> forall|j: int| 0 <= j < e.len() ==> e[j].0 != k,
    decreases e.len(),
{
    if e.len() > 0 {
        lemma_key_index(e.drop_first(), k);
        assert forall|j: int| 1 <= j < e.len() implies e[j] == e.drop_first()[j - 1] by {}
    }
}

/// With distinct keys, the entry at position `i` is the one found for its key.
pub proof fn lemma_key_index_distinct<K, V>(e: Seq<(K, V)>, i: int)
    requires
        keys_distinct(e),
        0 <= i < e.len(),
    ensures
        key_index(e, e[i].0) == i,
{
    lemma_key_index(e, e[i].0);
    let k = key_index(e, e[i].0);
    if k != i {
        if k < 0 || i < k {
        } else {
            assert(e[k].0 == e[i].0);
        }
    }
}

pub proof fn lemma_entries_insert<K, V>(e: Seq<(K, V)>, k: K, v: V)
    requires
        keys_distinct(e),
    ensures
        keys_distinct(entries_insert(e, k, v)),
        has_key(entries_insert(e, k, v), k),
        value_at(entries_insert(e, k, v), k) == v,
        forall|q: K| q != k ==> (has_key(entries_insert(e, k, v), q) == has_key(e, q)),
        forall|q: K| q != k && has_key(e, q) ==> value_at(entries_insert(e, k, v), q) == value_at(e, q),
        entries_insert(e, k, v).len() == if has_key(e, k) { e.len() } else { e.len() + 1 },
{
    let n = entries_insert(e, k, v);
    lemma_key_index(e, k);
    lemma_key_index(n, k);
    if key_index(e, k) >= 0 {
        let i = key_index(e, k);
        assert forall|a: int, b: int| 0 <= a < b < n.len() implies n[a].0 != n[b].0 by {
            if a == i || b == i {} else {}
        }
        assert(n[i].0 == k);
        lemma_key_index_distinct(n, i);
    } else {
        assert forall|a: int, b: int| 0 <= a < b < n.len() implies n[a].0 != n[b].0 by {}
        lemma_key_index_distinct(n, e.len() as int);
    }
    assert forall|q: K| q != k implies has_key(n, q) == has_key(e, q) by {
        lemma_key_index(e, q);
        lemma_key_index(n, q);
        if has_key(e, q) {
            assert(n[key_index(e, q)].0 == q);
        }
        if has_key(n, q) {
            assert(e[key_index(n, q)].0 == q);
        }
    }
    assert forall|q: K| q != k && has_key(e, q) implies value_at(n, q) == value_at(e, q) by {
        lemma_key_index(e, q);
        lemma_key_index_distinct(e, key_index(e, q));
        assert(n[key_index(e, q)].0 == q);
        lemma_key_index_distinct(n, key_index(e, q));
    }
}

// ---------------------------------------------------------------------------
// IndexMap<VReg, Location>

/// The entries of a value-to-location map, in insertion order.
pub uninterp spec fn location_entries(m: IndexMap<VReg, Location>) -> Seq<(VReg, Location)>;

/// `IndexMap::new`: an empty map.
#[verifier::external_body]
pub(crate) fn location_map_new() -> (m: IndexMap<VReg, Location>)
    ensures
        location_entries(m) == Seq::<(VReg, Location)>::empty(),
{
    IndexMap::new()
}

/// `IndexMap::insert`: an existing key keeps its place and takes the new value,
/// a new key goes last; the old value is returned.
#[verifier::external_body]
pub(crate) fn location_map_insert(m: &mut IndexMap<VReg, Location>, k: VReg, v: Location) -> (r: Option<Location>)
    ensures
        location_entries(*final(m)) == entries_insert(location_entries(*old(m)), k, v),
        r == (if has_key(location_entries(*old(m)), k) {
            Some(value_at(location_entries(*old(m)), k))
        } else {
            None
        }),
{
    m.insert(k, v)
}

/// `IndexMap::len`: the number of entries, which is also the number of distinct
/// keys (a key occurs at most once in an `IndexMap`).
#[verifier::external_body]
pub(crate) fn location_map_len(m: &IndexMap<VReg, Location>) -> (r: usize)
    ensures
        r == location_entries(*m).len(),
        r == key_set(location_entries(*m)).len(),
{
    m.len()
}

/// `IndexMap::get_index`: the entry at position `i`, if any.
#[verifier::external_body]
pub(crate) fn location_map_get_index(m: &IndexMap<VReg, Location>, i: usize) -> (r: Option<(VReg, Location)>)
    ensures
        r == (if i < location_entries(*m).len() { Some(location_entries(*m)[i as int]) } else { None })
           ,
{
    m.get_index(i).map(|(k, v)| (*k, *v))
}

/// `IndexMap::get`: the value under `k`, if any.
#[verifier::external_body]
pub(crate) fn location_map_get(m: &IndexMap<VReg, Location>, k: VReg) -> (r: Option<Location>)
    ensures
        r == (if has_key(location_entries(*m), k) { Some(value_at(location_entries(*m), k)) } else { None })
           ,
{
    m.get(&k).copied()
}

// ---------------------------------------------------------------------------
// IndexSet<BlockId>

/// The items of a set of block ids, in insertion order.
pub uninterp spec fn block_set_items(s: IndexSet<BlockId>) -> Seq<BlockId>;

/// `IndexSet::new`: an empty set.
#[verifier::external_body]
pub(crate) fn block_set_new() -> (s: IndexSet<BlockId>)
    ensures
        block_set_items(s) == Seq::<BlockId>::empty(),
{
    IndexSet::new()
}

/// `IndexSet::insert`: a new item goes last, a present one stays where it is;
/// the result tells whether the item was new.
#[verifier::external_body]
pub(crate) fn block_set_insert(s: &mut IndexSet<BlockId>, x: BlockId) -> (r: bool)
    ensures
        block_set_items(*final(s)) == set_insert(block_set_items(*old(s)), x),
        r == !block_set_items(*old(s)).contains(x),
{
    s.insert(x)
}

/// `IndexSet::contains`.
#[verifier::external_body]
pub(crate) fn block_set_contains(s: &IndexSet<BlockId>, x: BlockId) -> (r: bool)
    ensures
        r == block_set_items(*s).contains(x),
{
    s.contains(&x)
}

// ---------------------------------------------------------------------------
// IndexMap<BlockId, IndexSet<BlockId>>

/// The entries of a map from block ids to sets of block ids, in insertion order.
pub uninterp spec fn block_sets_entries(m: IndexMap<BlockId, IndexSet<BlockId>>) -> Seq<(BlockId, IndexSet<BlockId>)>;

/// `IndexMap::new`: an empty map.
#[verifier::external_body]
pub(crate) fn block_sets_new() -> (m: IndexMap<BlockId, IndexSet<BlockId>>)
    ensures
        block_sets_entries(m) == Seq::<(BlockId, IndexSet<BlockId>)>::empty(),
{
    IndexMap::new()
}

/// `IndexMap::insert`: an existing key keeps its place and takes the new value,
/// a new key goes last.
#[verifier::external_body]
pub(crate) fn block_sets_insert(m: &mut IndexMap<BlockId, IndexSet<BlockId>>, k: BlockId, v: IndexSet<BlockId>)
    ensures
        block_sets_entries(*final(m)) == entries_insert(block_sets_entries(*old(m)), k, v),
{
    m.insert(k, v);
}

/// `IndexMap::get`: the value under `k`, if any.
#[verifier::external_body]
pub(crate) fn block_sets_get(m: &IndexMap<BlockId, IndexSet<BlockId>>, k: BlockId) -> (r: Option<&IndexSet<BlockId>>)
    ensures
        match r {
            Some(s) => has_key(block_sets_entries(*m), k) && *s == value_at(block_sets_entries(*m), k),
            None => !has_key(block_sets_entries(*m), k),
        },
{
    m.get(&k)
}

// ---------------------------------------------------------------------------
// IndexSet<VReg>

/// The items of a set of values, in insertion order.
pub uninterp spec fn vreg_set_items(s: IndexSet<VReg>) -> Seq<VReg>;

/// `IndexSet::new`: an empty set.
#[verifier::external_body]
pub(crate) fn vreg_set_new() -> (s: IndexSet<VReg>)
    ensures
        vreg_set_items(s) == Seq::<VReg>::empty(),
{
    IndexSet::new()
}

/// `IndexSet::insert`: a new item goes last, a present one stays where it is;
/// the result tells whether the item was new.
#[verifier::external_body]
pub(crate) fn vreg_set_insert(s: &mut IndexSet<VReg>, x: VReg) -> (r: bool)
    ensures
        vreg_set_items(*final(s)) == set_insert(vreg_set_items(*old(s)), x),
        r == !vreg_set_items(*old(s)).contains(x),
{
    s.insert(x)
}

/// `IndexSet::contains`.
#[verifier::external_body]
pub(crate) fn vreg_set_contains(s: &IndexSet<VReg>, x: VReg) -> (r: bool)
    ensures
        r == vreg_set_items(*s).contains(x),
{
    s.contains(&x)
}

/// `IndexSet::len`.
#[verifier::external_body]
pub(crate) fn vreg_set_len(s: &IndexSet<VReg>) -> (r: usize)
    ensures
        r == vreg_set_items(*s).len(),
{
    s.len()
}

/// `IndexSet::get_index`: the item at position `i`, if any.
#[verifier::external_body]
pub(crate) fn vreg_set_get_index(s: &IndexSet<VReg>, i: usize) -> (r: Option<VReg>)
    ensures
        r == (if i < vreg_set_items(*s).len() { Some(vreg_set_items(*s)[i as int]) } else { None }),
{
    s.get_index(i).copied()
}

// ---------------------------------------------------------------------------
// IndexMap<BlockId, BlockLiveness>

/// The entries of a map from block ids to block liveness, in insertion order.
pub uninterp spec fn liveness_entries(m: IndexMap<BlockId, BlockLiveness>) -> Seq<(BlockId, BlockLiveness)>;

/// `IndexMap::new`: an empty map.
#[verifier::external_body]
pub(crate) fn liveness_map_new() -> (m: IndexMap<BlockId, BlockLiveness>)
    ensures
        liveness_entries(m) == Seq::<(BlockId, BlockLiveness)>::empty(),
{
    IndexMap::new()
}

/// `IndexMap::insert`: an existing key keeps its place and takes the new value,
/// a new key goes last.
#[verifier::external_body]
pub(crate) fn liveness_map_insert(m: &mut IndexMap<BlockId, BlockLiveness>, k: BlockId, v: BlockLiveness)
    ensures
        liveness_entries(*final(m)) == entries_insert(liveness_entries(*old(m)), k, v),
{
    m.insert(k, v);
}

// ---------------------------------------------------------------------------
// IndexMap<BlockId, IndexSet<VReg>>

/// The entries of a map from block ids to sets of values, in insertion order.
pub uninterp spec fn block_vregs_entries(m: IndexMap<BlockId, IndexSet<VReg>>) -> Seq<(BlockId, IndexSet<VReg>)>;

/// `IndexMap::new`: an empty map.
#[verifier::external_body]
pub(crate) fn block_vregs_new() -> (m: IndexMap<BlockId, IndexSet<VReg>>)
    ensures
        block_vregs_entries(m) == Seq::<(BlockId, IndexSet<VReg>)>::empty(),
{
    IndexMap::new()
}

/// `IndexMap::insert`: an existing key keeps its place and takes the new value,
/// a new key goes last.
#[verifier::external_body]
pub(crate) fn block_vregs_insert(m: &mut IndexMap<BlockId, IndexSet<VReg>>, k: BlockId, v: IndexSet<VReg>)
    ensures
        block_vregs_entries(*final(m)) == entries_insert(block_vregs_entries(*old(m)), k, v),
{
    m.insert(k, v);
}

// ---------------------------------------------------------------------------
// IndexMap<(BlockId, BlockId), IndexSet<VReg>>

/// The entries of a map from edges to sets of values, in insertion order.
pub uninterp spec fn edge_vregs_entries(m: IndexMap<(BlockId, BlockId), IndexSet<VReg>>) -> Seq<((BlockId, BlockId), IndexSet<VReg>)>;

/// `IndexMap::new`: an empty map.
#[verifier::external_body]
pub(crate) fn edge_vregs_new() -> (m: IndexMap<(BlockId, BlockId), IndexSet<VReg>>)
    ensures
        edge_vregs_entries(m) == Seq::<((BlockId, BlockId), IndexSet<VReg>)>::empty(),
{
    IndexMap::new()
}

/// `IndexMap::insert`: an existing key keeps its place and takes the new value,
/// a new key goes last.
#[verifier::external_body]
pub(crate) fn edge_vregs_insert(m: &mut IndexMap<(BlockId, BlockId), IndexSet<VReg>>, k: (BlockId, BlockId), v: IndexSet<VReg>)
    ensures
        edge_vregs_entries(*final(m)) == entries_insert(edge_vregs_entries(*old(m)), k, v),
{
    m.insert(k, v);
}

// ---------------------------------------------------------------------------
// IndexMap<(BlockId, usize), Pos>

/// The entries of a map from instruction slots to positions, in insertion order.
pub uninterp spec fn pos_entries(m: IndexMap<(BlockId, usize), Pos>) -> Seq<((BlockId, usize), Pos)>;

/// `IndexMap::new`: an empty map.
#[verifier::external_body]
pub(crate) fn pos_map_new() -> (m: IndexMap<(BlockId, usize), Pos>)
    ensures
        pos_entries(m) == Seq::<((BlockId, usize), Pos)>::empty(),
{
    IndexMap::new()
}

/// `IndexMap::insert`: an existing key keeps its place and takes the new value,
/// a new key goes last.
#[verifier::external_body]
pub(crate) fn pos_map_insert(m: &mut IndexMap<(BlockId, usize), Pos>, k: (BlockId, usize), v: Pos)
    ensures
        pos_entries(*final(m)) == entries_insert(pos_entries(*old(m)), k, v),
{
    m.insert(k, v);
}

// ---------------------------------------------------------------------------
// IndexMap<VReg, IndexSet<VReg>>

/// The entries of a map from values to sets of values, in insertion order.
pub uninterp spec fn vreg_sets_entries(m: IndexMap<VReg, IndexSet<VReg>>) -> Seq<(VReg, IndexSet<VReg>)>;

/// `IndexMap::new`: an empty map.
#[verifier::external_body]
pub(crate) fn vreg_sets_new() -> (m: IndexMap<VReg, IndexSet<VReg>>)
    ensures
        vreg_sets_entries(m) == Seq::<(VReg, IndexSet<VReg>)>::empty(),
{
    IndexMap::new()
}

/// `IndexMap::insert`: an existing key keeps its place and takes the new value,
/// a new key goes last.
#[verifier::external_body]
pub(crate) fn vreg_sets_insert(m: &mut IndexMap<VReg, IndexSet<VReg>>, k: VReg, v: IndexSet<VReg>)
    ensures
        vreg_sets_entries(*final(m)) == entries_insert(vreg_sets_entries(*old(m)), k, v),
{
    m.insert(k, v);
}

/// `IndexMap::get`: the value under `k`, if any.
#[verifier::external_body]
pub(crate) fn vreg_sets_get(m: &IndexMap<VReg, IndexSet<VReg>>, k: VReg) -> (r: Option<&IndexSet<VReg>>)
    ensures
        match r {
            Some(s) => has_key(vreg_sets_entries(*m), k) && *s == value_at(vreg_sets_entries(*m), k),
            None => !has_key(vreg_sets_entries(*m), k),
        },
{
    m.get(&k)
}

/// `IndexMap::len`: the number of entries.
#[verifier::external_body]
pub(crate) fn vreg_sets_len(m: &IndexMap<VReg, IndexSet<VReg>>) -> (r: usize)
    ensures
        r == vreg_sets_entries(*m).len(),
{
    m.len()
}

/// `IndexMap::get_index`: the entry at position `i`, if any.
#[verifier::external_body]
pub(crate) fn vreg_sets_get_index(m: &IndexMap<VReg, IndexSet<VReg>>, i: usize) -> (r: Option<(VReg, &IndexSet<VReg>)>)
    ensures
        match r {
            Some((k, v)) => i < vreg_sets_entries(*m).len() && (k, *v) == vreg_sets_entries(*m)[i as int],
            None => i >= vreg_sets_entries(*m).len(),
        },
{
    m.get_index(i).map(|(k, v)| (*k, v))
}

} // verus!
