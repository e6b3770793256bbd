use crate::errors::LatticeError;
use crate::graph::graph_builder::{Graph, GraphBuilder};
use crate::graph::graph_prepared::{key_lt, CommitRecord, Delta, GraphCommitData, Key};
use crate::lattice_db::bitmap::{
    encode_error_of, treemap_decode, treemap_decoding, treemap_encode, treemap_insert,
    treemap_is_empty, treemap_new, treemap_remove, treemap_values,
};
use crate::lattice_db::reader::{Indexes, Lookup, Table};
use crate::props::properties::PropertyHandle;
use crate::query::query_save::QueryHandle;
use roaring::RoaringTreemap;
use vstd::prelude::*;

verus! {

/// One change of an index: a vertex id that is added to, or taken from, the
/// set under a key of a table.
#[derive(Clone, Copy, PartialEq, Eq, Debug)]
pub struct IndexUpdate {
    pub table: Table,
    pub key: (u64, u64),
    pub id: u64,
    pub add: bool,
}

/// The change of the scalar index that an attribute delta stands for.
pub open spec fn scalar_update(d: Delta, add: bool) -> IndexUpdate {
    IndexUpdate { table: Table::Scalar, key: (d.1, d.2), id: d.0, add }
}

/// The change of the forward index that an edge delta stands for.
pub open spec fn forward_update(d: Delta, add: bool) -> IndexUpdate {
    IndexUpdate { table: Table::Forward, key: (d.0, d.1), id: d.2, add }
}

/// The change of the reverse index that an edge delta stands for.
pub open spec fn reverse_update(d: Delta, add: bool) -> IndexUpdate {
    IndexUpdate { table: Table::Reverse, key: (d.2, d.1), id: d.0, add }
}

/// The changes of the scalar index for the first `n` attribute deltas.
pub open spec fn scalar_updates(deltas: Seq<Delta>, add: bool, n: int) -> Seq<IndexUpdate>
    decreases n,
{
    if n <= 0 {
        Seq::empty()
    } else {
        scalar_updates(deltas, add, n - 1).push(scalar_update(deltas[n - 1], add))
    }
}

/// The changes of the edge indexes for the first `n` edge deltas: for each
/// edge the forward index, then the reverse index.
pub open spec fn edge_updates(deltas: Seq<Delta>, add: bool, n: int) -> Seq<IndexUpdate>
    decreases n,
{
    if n <= 0 {
        Seq::empty()
    } else {
        edge_updates(deltas, add, n - 1).push(forward_update(deltas[n - 1], add)).push(
            reverse_update(deltas[n - 1], add),
        )
    }
}

/// The changes of the indexes that a commit stands for, in the order in
/// which they are applied: attributes removed, attributes added, edges
/// removed, edges added. What a commit both removes and adds is there
/// afterwards.
pub open spec fn updates_of(c: CommitRecord) -> Seq<IndexUpdate> {
    scalar_updates(c.rem_attrs, false, c.rem_attrs.len() as int) + scalar_updates(
        c.add_attrs,
        true,
        c.add_attrs.len() as int,
    ) + edge_updates(c.rem_edges, false, c.rem_edges.len() as int) + edge_updates(
        c.add_edges,
        true,
        c.add_edges.len() as int,
    )
}

impl Indexes {
    /// The indexes with `set` under the key of a table.
    pub open spec fn with(self, table: Table, key: (u64, u64), set: Set<u64>) -> Indexes {
        match table {
            Table::Scalar => Indexes { scalar: self.scalar.insert(key, set), ..self },
            Table::Forward => Indexes { forward: self.forward.insert(key, set), ..self },
            Table::Reverse => Indexes { reverse: self.reverse.insert(key, set), ..self },
        }
    }

    /// The indexes after one change.
    pub open spec fn apply(self, u: IndexUpdate) -> Indexes {
        let set = self.get(u.table, u.key);
        self.with(
            u.table,
            u.key,
            if u.add {
                set.insert(u.id)
            } else {
                set.remove(u.id)
            },
        )
    }

    /// The indexes after the first `n` changes of `updates`.
    pub open spec fn apply_all(self, updates: Seq<IndexUpdate>, n: int) -> Indexes
        decreases n,
    {
        if n <= 0 {
            self
        } else {
            self.apply_all(updates, n - 1).apply(updates[n - 1])
        }
    }

    /// The indexes after a commit.
    pub open spec fn commit(self, c: CommitRecord) -> Indexes {
        self.apply_all(updates_of(c), updates_of(c).len() as int)
    }

    /// The edge indexes agree: `v` stands under `(u, l)` in the forward
    /// index where `u` stands under `(v, l)` in the reverse index.
    pub open spec fn symmetric(self) -> bool {
        forall|u: u64, l: u64, v: u64|
            #![trigger self.get(Table::Forward, (u, l)).contains(v)]
            #![trigger self.get(Table::Reverse, (v, l)).contains(u)]
            self.get(Table::Forward, (u, l)).contains(v) <==> self.get(
                Table::Reverse,
                (v, l),
            ).contains(u)
    }

    /// Applying changes one list after another is applying the joined list.
    pub proof fn lemma_apply_all_add(self, a: Seq<IndexUpdate>, b: Seq<IndexUpdate>, n: int)
        requires
            0 <= n <= b.len(),
        ensures
            self.apply_all(a + b, a.len() + n) == self.apply_all(a, a.len() as int).apply_all(b, n),
        decreases n,
    {
        if n > 0 {
            self.lemma_apply_all_add(a, b, n - 1);
            assert((a + b)[a.len() + n - 1] == b[n - 1]);
        } else {
            self.lemma_apply_all_prefix(a, a + b, a.len() as int);
        }
    }

    /// The first changes of a list are applied as the list's prefix is.
    pub proof fn lemma_apply_all_prefix(self, a: Seq<IndexUpdate>, b: Seq<IndexUpdate>, n: int)
        requires
            0 <= n <= a.len(),
            n <= b.len(),
            forall|i: int| 0 <= i < n ==> a[i] == b[i],
        ensures
            self.apply_all(a, n) == self.apply_all(b, n),
        decreases n,
    {
        if n > 0 {
            self.lemma_apply_all_prefix(a, b, n - 1);
        }
    }

    /// Changes of the scalar index keep the edge indexes as they are.
    pub proof fn lemma_scalar_updates(self, deltas: Seq<Delta>, add: bool, n: int)
        requires
            0 <= n <= deltas.len(),
        ensures
            ({
                let ups = scalar_updates(deltas, add, n);
                &&& ups.len() == n
                &&& self.apply_all(ups, n).forward == self.forward
                &&& self.apply_all(ups, n).reverse == self.reverse
            }),
        decreases n,
    {
        if n > 0 {
            self.lemma_scalar_updates(deltas, add, n - 1);
            let prev = scalar_updates(deltas, add, n - 1);
            let ups = scalar_updates(deltas, add, n);
            self.lemma_apply_all_prefix(prev, ups, n - 1);
        }
    }

    /// The changes that edges stand for keep the edge indexes in agreement.
    pub proof fn lemma_edge_updates(self, deltas: Seq<Delta>, add: bool, n: int)
        requires
            self.symmetric(),
            0 <= n <= deltas.len(),
        ensures
            ({
                let ups = edge_updates(deltas, add, n);
                &&& ups.len() == 2 * n
                &&& self.apply_all(ups, 2 * n).symmetric()
            }),
        decreases n,
    {
        if n > 0 {
            self.lemma_edge_updates(deltas, add, n - 1);
            let prev = edge_updates(deltas, add, n - 1);
            let ups = edge_updates(deltas, add, n);
            let d = deltas[n - 1];
            self.lemma_apply_all_prefix(prev, ups, 2 * (n - 1));
            let before = self.apply_all(prev, 2 * (n - 1));
            let mid = before.apply(forward_update(d, add));
            let after = mid.apply(reverse_update(d, add));
            assert(ups[2 * n - 2] == forward_update(d, add));
            assert(ups[2 * n - 1] == reverse_update(d, add));
            assert(self.apply_all(ups, 2 * n - 1) == mid);
            assert(self.apply_all(ups, 2 * n) == after);
            assert forall|u: u64, l: u64, v: u64|
                #![trigger after.get(Table::Forward, (u, l)).contains(v)]
                #![trigger after.get(Table::Reverse, (v, l)).contains(u)]
                after.get(Table::Forward, (u, l)).contains(v) <==> after.get(
                    Table::Reverse,
                    (v, l),
                ).contains(u) by {
                assert(before.get(Table::Forward, (u, l)).contains(v) <==> before.get(
                    Table::Reverse,
                    (v, l),
                ).contains(u));
            }
        }
    }

    /// Edge symmetry: a commit keeps the edge indexes in agreement.
    pub proof fn lemma_commit_keeps_symmetry(self, c: CommitRecord)
        requires
            self.symmetric(),
        ensures
            self.commit(c).symmetric(),
    {
        let a = scalar_updates(c.rem_attrs, false, c.rem_attrs.len() as int);
        let b = scalar_updates(c.add_attrs, true, c.add_attrs.len() as int);
        let e = edge_updates(c.rem_edges, false, c.rem_edges.len() as int);
        let f = edge_updates(c.add_edges, true, c.add_edges.len() as int);
        self.lemma_scalar_updates(c.rem_attrs, false, c.rem_attrs.len() as int);
        let i1 = self.apply_all(a, a.len() as int);
        i1.lemma_scalar_updates(c.add_attrs, true, c.add_attrs.len() as int);
        let i2 = i1.apply_all(b, b.len() as int);
        assert(i2.symmetric()) by {
            assert forall|u: u64, l: u64, v: u64|
                #![trigger i2.get(Table::Forward, (u, l)).contains(v)]
                #![trigger i2.get(Table::Reverse, (v, l)).contains(u)]
                i2.get(Table::Forward, (u, l)).contains(v) <==> i2.get(
                    Table::Reverse,
                    (v, l),
                ).contains(u) by {
                assert(self.get(Table::Forward, (u, l)).contains(v) <==> self.get(
                    Table::Reverse,
                    (v, l),
                ).contains(u));
            }
        }
        i2.lemma_edge_updates(c.rem_edges, false, c.rem_edges.len() as int);
        let i3 = i2.apply_all(e, e.len() as int);
        i3.lemma_edge_updates(c.add_edges, true, c.add_edges.len() as int);
        let i4 = i3.apply_all(f, f.len() as int);
        self.lemma_apply_all_add(a, b, b.len() as int);
        self.lemma_apply_all_add(a + b, e, e.len() as int);
        self.lemma_apply_all_add(a + b + e, f, f.len() as int);
    }
}

/// The changes of the indexes that a commit stands for, in the order in
/// which they are applied.
pub fn index_updates(data: &GraphCommitData) -> (r: Vec<IndexUpdate>)
    ensures
        r@ == updates_of(data@),
{
    let mut out: Vec<IndexUpdate> = Vec::new();
    push_scalar_updates(&mut out, &data.rem_attrs, false);
    push_scalar_updates(&mut out, &data.add_attrs, true);
    push_edge_updates(&mut out, &data.rem_edges, false);
    push_edge_updates(&mut out, &data.add_edges, true);
    assert(out@ =~= updates_of(data@));
    out
}

/// Appends the changes of the scalar index for each attribute delta.
fn push_scalar_updates(out: &mut Vec<IndexUpdate>, deltas: &Vec<(u64, u64, u64)>, add: bool)
    ensures
        final(out)@ == old(out)@ + scalar_updates(deltas@, add, deltas@.len() as int),
{
    let mut i: usize = 0;
    assert(out@ =~= old(out)@ + scalar_updates(deltas@, add, 0));
    while i < deltas.len()
        invariant
            i <= deltas.len(),
            out@ == old(out)@ + scalar_updates(deltas@, add, i as int),
        decreases deltas.len() - i,
    {
        let (vertex, property, hash) = deltas[i];
        out.push(IndexUpdate { table: Table::Scalar, key: (property, hash), id: vertex, add });
        assert(out@ =~= old(out)@ + scalar_updates(deltas@, add, i + 1));
        i += 1;
    }
}

/// Appends the changes of both edge indexes for each edge delta.
fn push_edge_updates(out: &mut Vec<IndexUpdate>, deltas: &Vec<(u64, u64, u64)>, add: bool)
    ensures
        final(out)@ == old(out)@ + edge_updates(deltas@, add, deltas@.len() as int),
{
    let mut i: usize = 0;
    assert(out@ =~= old(out)@ + edge_updates(deltas@, add, 0));
    while i < deltas.len()
        invariant
            i <= deltas.len(),
            out@ == old(out)@ + edge_updates(deltas@, add, i as int),
        decreases deltas.len() - i,
    {
        let (from, label, to) = deltas[i];
        out.push(IndexUpdate { table: Table::Forward, key: (from, label), id: to, add });
        out.push(IndexUpdate { table: Table::Reverse, key: (to, label), id: from, add });
        assert(out@ =~= old(out)@ + edge_updates(deltas@, add, i + 1));
        i += 1;
    }
}

/// A bitmap of an index as the cache holds it.
struct CacheEntry {
    key: (u64, u64),
    bitmap: RoaringTreemap,
}

/// The entries that the cache holds of one table, by content, in ascending order of key.
pub type Entries = Seq<(Key, Set<u64>)>;

/// The entries of one table by content.
closed spec fn entries_of(list: Seq<CacheEntry>) -> Entries {
    list.map_values(|e: CacheEntry| (e.key, treemap_values(e.bitmap)))
}

/// Whether the keys of the entries are strictly ascending.
pub open spec fn sorted_entries(entries: Entries) -> bool {
    forall|i: int, j: int| 0 <= i < j < entries.len() ==> key_lt(entries[i].0, entries[j].0)
}

/// The set that the entries hold under a key, if they hold the key.
pub open spec fn entry_under(entries: Entries, key: Key) -> Option<Set<u64>> {
    if exists|i: int| 0 <= i < entries.len() && (#[trigger] entries[i]).0 == key {
        Some(entries[choose|i: int| 0 <= i < entries.len() && (#[trigger] entries[i]).0 == key].1)
    } else {
        None
    }
}

/// The number of entries whose keys are smaller than `key`.
pub open spec fn rank(entries: Entries, key: Key) -> int
    decreases entries.len(),
{
    if entries.len() == 0 {
        0
    } else if key_lt(entries.last().0, key) {
        entries.len() as int
    } else {
        rank(entries.drop_last(), key)
    }
}

/// In sorted entries, the entries before the rank of a key have smaller
/// keys and no other has; a key that is held stands at its rank.
pub proof fn lemma_rank(entries: Entries, key: Key)
    requires
        sorted_entries(entries),
    ensures
        0 <= rank(entries, key) <= entries.len(),
        forall|i: int| 0 <= i < rank(entries, key) ==> key_lt((#[trigger] entries[i]).0, key),
        forall|i: int|
            rank(entries, key) <= i < entries.len() ==> !key_lt((#[trigger] entries[i]).0, key),
        forall|i: int|
            0 <= i < entries.len() && (#[trigger] entries[i]).0 == key ==> i == rank(entries, key),
    decreases entries.len(),
{
    if entries.len() > 0 {
        let front = entries.drop_last();
        let top = entries.len() - 1;
        assert(entries[top] == entries.last());
        if key_lt(entries.last().0, key) {
            assert forall|i: int| 0 <= i < entries.len() implies key_lt(
                (#[trigger] entries[i]).0,
                key,
            ) by {
                if i < top {
                    assert(key_lt(entries[i].0, entries[top].0));
                }
            }
        } else {
            assert forall|i: int, j: int| 0 <= i < j < front.len() implies key_lt(
                front[i].0,
                front[j].0,
            ) by {
                assert(key_lt(entries[i].0, entries[j].0));
            }
            lemma_rank(front, key);
            let r = rank(front, key);
            assert forall|i: int| 0 <= i < r implies key_lt((#[trigger] entries[i]).0, key) by {
                assert(entries[i] == front[i]);
            }
            assert forall|i: int| r <= i < entries.len() implies !key_lt(
                (#[trigger] entries[i]).0,
                key,
            ) by {
                if i < top {
                    assert(entries[i] == front[i]);
                }
            }
            assert forall|i: int|
                0 <= i < entries.len() && (#[trigger] entries[i]).0 == key implies i == r by {
                if i < top {
                    assert(entries[i] == front[i]);
                } else {
                    if r < top {
                        assert(!key_lt(front[r].0, key));
                        assert(entries[r] == front[r]);
                        assert(key_lt(entries[r].0, entries[top].0));
                    }
                }
            }
        }
    }
}

/// Whether the first key is smaller than the second, property id before value hash.
fn key_less(a: (u64, u64), b: (u64, u64)) -> (r: bool)
    ensures
        r == key_lt(a, b),
{
    a.0 < b.0 || (a.0 == b.0 && a.1 < b.1)
}

/// The number of entries with a key smaller than `key`, by bisection.
fn rank_of(list: &Vec<CacheEntry>, key: (u64, u64)) -> (r: usize)
    requires
        sorted_entries(entries_of(list@)),
    ensures
        r == rank(entries_of(list@), key),
        r <= list@.len(),
{
    let ghost entries = entries_of(list@);
    proof {
        lemma_rank(entries, key);
    }
    let mut lo: usize = 0;
    let mut hi: usize = list.len();
    while lo < hi
        invariant
            0 <= lo <= hi <= list@.len(),
            entries == entries_of(list@),
            lo <= rank(entries, key) <= hi,
            forall|i: int| 0 <= i < rank(entries, key) ==> key_lt((#[trigger] entries[i]).0, key),
            forall|i: int|
                rank(entries, key) <= i < entries.len() ==> !key_lt((#[trigger] entries[i]).0, key),
        decreases hi - lo,
    {
        let mid = lo + (hi - lo) / 2;
        assert(entries[mid as int].0 == list@[mid as int].key);
        if key_less(list[mid].key, key) {
            lo = mid + 1;
        } else {
            hi = mid;
        }
    }
    lo
}

/// What the cache holds: the bitmaps that were loaded of each table, as
/// they stand after the changes that were applied to them.
pub struct CacheContent {
    pub scalar: Entries,
    pub forward: Entries,
    pub reverse: Entries,
}

impl CacheContent {
    /// The entries of one table.
    pub open spec fn table(self, table: Table) -> Entries {
        match table {
            Table::Scalar => self.scalar,
            Table::Forward => self.forward,
            Table::Reverse => self.reverse,
        }
    }

    /// The cache with other entries for one table.
    pub open spec fn with_table(self, table: Table, entries: Entries) -> CacheContent {
        match table {
            Table::Scalar => CacheContent { scalar: entries, ..self },
            Table::Forward => CacheContent { forward: entries, ..self },
            Table::Reverse => CacheContent { reverse: entries, ..self },
        }
    }

    /// The entries of each table stand in ascending order of key, each key once.
    pub open spec fn wf(self) -> bool {
        sorted_entries(self.scalar) && sorted_entries(self.forward) && sorted_entries(self.reverse)
    }

    /// The set that the cache holds under a key of a table, if it holds the key.
    pub open spec fn get(self, table: Table, key: Key) -> Option<Set<u64>> {
        entry_under(self.table(table), key)
    }

    /// The cache after the set `set` was loaded under a key that it did not hold.
    pub open spec fn loaded(self, table: Table, key: Key, set: Set<u64>) -> CacheContent {
        let entries = self.table(table);
        self.with_table(table, entries.insert(rank(entries, key), (key, set)))
    }

    /// The cache after a change to a key that it holds.
    pub open spec fn updated(self, u: IndexUpdate) -> CacheContent {
        let entries = self.table(u.table);
        let at = rank(entries, u.key);
        let set = entries[at].1;
        self.with_table(
            u.table,
            entries.update(
                at,
                (
                    u.key,
                    if u.add {
                        set.insert(u.id)
                    } else {
                        set.remove(u.id)
                    },
                ),
            ),
        )
    }
}

/// One write to the store: the bytes of a bitmap under a key of a table, or
/// the removal of the key where `bytes` is `None`.
#[derive(Debug)]
pub struct IndexWrite {
    pub table: Table,
    pub key: (u64, u64),
    pub bytes: Option<Vec<u8>>,
}

/// Whether a write puts the entry into the store: its key under its table,
/// removed where the set is empty, else with bytes that decode to the set.
pub open spec fn writes_entry(w: IndexWrite, table: Table, entry: (Key, Set<u64>)) -> bool {
    &&& w.table == table
    &&& w.key == entry.0
    &&& match w.bytes {
        Some(b) => entry.1 != Set::<u64>::empty() && treemap_decoding(b@) == Some(entry.1),
        None => entry.1 == Set::<u64>::empty(),
    }
}

/// The write-back cache of the three indexes during a write transaction.
pub struct IndexCache {
    scalar: Vec<CacheEntry>,
    forward: Vec<CacheEntry>,
    reverse: Vec<CacheEntry>,
}

impl View for IndexCache {
    type V = CacheContent;

    closed spec fn view(&self) -> CacheContent {
        CacheContent {
            scalar: entries_of(self.scalar@),
            forward: entries_of(self.forward@),
            reverse: entries_of(self.reverse@),
        }
    }
}

/// Whether the entries hold the key.
fn holds(list: &Vec<CacheEntry>, key: (u64, u64)) -> (r: bool)
    requires
        sorted_entries(entries_of(list@)),
    ensures
        r == entry_under(entries_of(list@), key) is Some,
{
    let at = rank_of(list, key);
    proof {
        lemma_rank(entries_of(list@), key);
        if at < list@.len() {
            assert(entries_of(list@)[at as int].0 == list@[at as int].key);
        }
    }
    at < list.len() && list[at].key.0 == key.0 && list[at].key.1 == key.1
}

/// Puts a bitmap under a key that the entries do not hold.
fn load_entry(list: &mut Vec<CacheEntry>, key: (u64, u64), bitmap: RoaringTreemap)
    requires
        sorted_entries(entries_of(old(list)@)),
        entry_under(entries_of(old(list)@), key) is None,
    ensures
        entries_of(final(list)@) == entries_of(old(list)@).insert(
            rank(entries_of(old(list)@), key),
            (key, treemap_values(bitmap)),
        ),
        sorted_entries(entries_of(final(list)@)),
{
    let ghost before = entries_of(list@);
    let at = rank_of(list, key);
    proof {
        lemma_rank(before, key);
    }
    list.insert(at, CacheEntry { key, bitmap });
    proof {
        let after = entries_of(list@);
        assert(after =~= before.insert(at as int, (key, treemap_values(bitmap))));
        assert forall|i: int, j: int| 0 <= i < j < after.len() implies key_lt(
            after[i].0,
            after[j].0,
        ) by {
            let pi = if i < at {
                i
            } else {
                i - 1
            };
            let pj = if j < at {
                j
            } else {
                j - 1
            };
            if i != at && j != at {
                assert(key_lt(before[pi].0, before[pj].0));
            } else if i == at {
                assert(!key_lt(before[pj].0, key));
                assert(before[pj].0 != key);
            } else {
                assert(key_lt(before[pi].0, key));
            }
        }
    }
}

/// Applies a change to the entry under its key, if the entries hold the key.
fn update_entry(list: &mut Vec<CacheEntry>, key: (u64, u64), id: u64, add: bool) -> (hit: bool)
    requires
        sorted_entries(entries_of(old(list)@)),
    ensures
        hit == entry_under(entries_of(old(list)@), key) is Some,
        sorted_entries(entries_of(final(list)@)),
        !hit ==> entries_of(final(list)@) == entries_of(old(list)@),
        hit ==> ({
            let entries = entries_of(old(list)@);
            let at = rank(entries, key);
            let set = entries[at].1;
            entries_of(final(list)@) == entries.update(
                at,
                (
                    key,
                    if add {
                        set.insert(id)
                    } else {
                        set.remove(id)
                    },
                ),
            )
        }),
{
    let ghost before = entries_of(list@);
    if !holds(list, key) {
        return false;
    }
    let at = rank_of(list, key);
    proof {
        lemma_rank(before, key);
        assert(before[at as int].0 == key);
    }
    let entry = &mut list[at];
    if add {
        treemap_insert(&mut entry.bitmap, id);
    } else {
        treemap_remove(&mut entry.bitmap, id);
    }
    proof {
        let after = entries_of(list@);
        let set = before[at as int].1;
        assert(after =~= before.update(
            at as int,
            (
                key,
                if add {
                    set.insert(id)
                } else {
                    set.remove(id)
                },
            ),
        ));
        assert forall|i: int, j: int| 0 <= i < j < after.len() implies key_lt(
            after[i].0,
            after[j].0,
        ) by {
            assert(key_lt(before[i].0, before[j].0));
        }
    }
    true
}

/// Appends one write for each entry, in the order of the entries.
fn flush_entries(out: &mut Vec<IndexWrite>, table: Table, list: &Vec<CacheEntry>) -> (r: Result<
    (),
    LatticeError,
>)
    ensures
        r is Ok,
        r is Ok ==> {
            &&& final(out)@.len() == old(out)@.len() + list@.len()
            &&& forall|i: int| 0 <= i < old(out)@.len() ==> final(out)@[i] == old(out)@[i]
            &&& forall|i: int|
                0 <= i < list@.len() ==> writes_entry(
                    #[trigger] final(out)@[old(out)@.len() + i],
                    table,
                    entries_of(list@)[i],
                )
        },
{
    let mut i: usize = 0;
    while i < list.len()
        invariant
            i <= list.len(),
            out@.len() == old(out)@.len() + i,
            forall|k: int| 0 <= k < old(out)@.len() ==> out@[k] == old(out)@[k],
            forall|k: int|
                0 <= k < i ==> writes_entry(
                    #[trigger] out@[old(out)@.len() + k],
                    table,
                    entries_of(list@)[k],
                ),
        decreases list.len() - i,
    {
        let entry = &list[i];
        let bytes = match treemap_encode(&entry.bitmap) {
            Ok(bytes) => bytes,
            Err(e) => {
                return Err(LatticeError::IOError(e));
            },
        };
        // if bitmap is empty, remove it from the db
        let write = if treemap_is_empty(&entry.bitmap) {
            IndexWrite { table, key: entry.key, bytes: None }
        } else {
            IndexWrite { table, key: entry.key, bytes: Some(bytes) }
        };
        proof {
            assert(entries_of(list@)[i as int] == (entry.key, treemap_values(entry.bitmap)));
        }
        let ghost before = out@;
        out.push(write);
        proof {
            assert forall|k: int| 0 <= k < i + 1 implies writes_entry(
                #[trigger] out@[old(out)@.len() + k],
                table,
                entries_of(list@)[k],
            ) by {
                if k < i {
                    assert(out@[old(out)@.len() + k] == before[old(out)@.len() + k]);
                }
            }
        }
        i += 1;
    }
    Ok(())
}

impl IndexCache {
    /// A cache that holds nothing.
    pub fn new() -> (c: Self)
        ensures
            c@ == (CacheContent { scalar: Seq::empty(), forward: Seq::empty(), reverse: Seq::empty() }),
            c@.wf(),
    {
        let c = IndexCache { scalar: Vec::new(), forward: Vec::new(), reverse: Vec::new() };
        assert(c@.scalar =~= Seq::empty());
        assert(c@.forward =~= Seq::empty());
        assert(c@.reverse =~= Seq::empty());
        c
    }

    /// Whether the cache holds the entry.
    pub fn is_cached(&self, lookup: Lookup) -> (r: bool)
        requires
            self@.wf(),
        ensures
            r == self@.get(lookup.table, lookup.key) is Some,
    {
        match lookup.table {
            Table::Scalar => holds(&self.scalar, lookup.key),
            Table::Forward => holds(&self.forward, lookup.key),
            Table::Reverse => holds(&self.reverse, lookup.key),
        }
    }

    /// Takes in what the store holds under an entry that the cache does not
    /// hold yet: the bytes of a bitmap, or nothing where the store has no
    /// such entry, which stands for the empty set.
    /// * An entry that the cache holds already stays as it is.
    /// * Bytes that do not decode are refused, and nothing changes.
    pub fn load(&mut self, lookup: Lookup, bytes: Option<Vec<u8>>) -> (r: Result<(), LatticeError>)
        requires
            old(self)@.wf(),
        ensures
            final(self)@.wf(),
            match r {
                Ok(()) => if old(self)@.get(lookup.table, lookup.key) is Some {
                    final(self)@ == old(self)@
                } else {
                    match bytes {
                        Some(b) => treemap_decoding(b@) matches Some(set) && final(self)@
                            == old(self)@.loaded(lookup.table, lookup.key, set),
                        None => final(self)@ == old(self)@.loaded(
                            lookup.table,
                            lookup.key,
                            Set::empty(),
                        ),
                    }
                },
                Err(e) => {
                    &&& e is BincodeError
                    &&& old(self)@.get(lookup.table, lookup.key) is None
                    &&& bytes matches Some(b) && treemap_decoding(b@) is None
                    &&& final(self)@ == old(self)@
                },
            },
    {
        if self.is_cached(lookup) {
            return Ok(());
        }
        let bitmap = match bytes {
            Some(b) => match treemap_decode(b.as_slice()) {
                Ok(t) => t,
                Err(e) => {
                    return Err(LatticeError::BincodeError(encode_error_of(e)));
                },
            },
            None => treemap_new(),
        };
        self.load_bitmap(lookup, bitmap);
        Ok(())
    }

    /// Takes in the set that the store holds under an entry that the cache
    /// does not hold yet.
    /// * An entry that the cache holds already stays as it is.
    pub fn load_bitmap(&mut self, lookup: Lookup, bitmap: RoaringTreemap)
        requires
            old(self)@.wf(),
        ensures
            final(self)@.wf(),
            final(self)@ == if old(self)@.get(lookup.table, lookup.key) is Some {
                old(self)@
            } else {
                old(self)@.loaded(lookup.table, lookup.key, treemap_values(bitmap))
            },
    {
        if self.is_cached(lookup) {
            return;
        }
        match lookup.table {
            Table::Scalar => load_entry(&mut self.scalar, lookup.key, bitmap),
            Table::Forward => load_entry(&mut self.forward, lookup.key, bitmap),
            Table::Reverse => load_entry(&mut self.reverse, lookup.key, bitmap),
        }
    }

    /// Applies a change to the bitmap under its key, if the cache holds the
    /// key, and says whether it does. Where it does not, nothing changes:
    /// the entry has to be loaded first.
    pub fn update(&mut self, u: IndexUpdate) -> (hit: bool)
        requires
            old(self)@.wf(),
        ensures
            final(self)@.wf(),
            hit == old(self)@.get(u.table, u.key) is Some,
            final(self)@ == if hit {
                old(self)@.updated(u)
            } else {
                old(self)@
            },
    {
        match u.table {
            Table::Scalar => update_entry(&mut self.scalar, u.key, u.id, u.add),
            Table::Forward => update_entry(&mut self.forward, u.key, u.id, u.add),
            Table::Reverse => update_entry(&mut self.reverse, u.key, u.id, u.add),
        }
    }

    /// The writes that bring the store up to the cache: one for each entry,
    /// table by table, in ascending order of key. An empty bitmap is
    /// removed from the store. It always succeeds: a bitmap is encoded into
    /// a vector, which takes every byte.
    pub fn flush(&self) -> (r: Result<Vec<IndexWrite>, LatticeError>)
        ensures
            match r {
                Ok(writes) => {
                    let s = self@.scalar.len() as int;
                    let f = self@.forward.len() as int;
                    &&& writes@.len() == s + f + self@.reverse.len()
                    &&& forall|i: int|
                        0 <= i < s ==> writes_entry(
                            #[trigger] writes@[i],
                            Table::Scalar,
                            self@.scalar[i],
                        )
                    &&& forall|i: int|
                        0 <= i < f ==> writes_entry(
                            #[trigger] writes@[s + i],
                            Table::Forward,
                            self@.forward[i],
                        )
                    &&& forall|i: int|
                        0 <= i < self@.reverse.len() ==> writes_entry(
                            #[trigger] writes@[s + f + i],
                            Table::Reverse,
                            self@.reverse[i],
                        )
                },
                Err(_) => false,
            },
    {
        let mut out: Vec<IndexWrite> = Vec::new();
        match flush_entries(&mut out, Table::Scalar, &self.scalar) {
            Ok(()) => {},
            Err(e) => {
                return Err(e);
            },
        }
        let ghost first = out@;
        match flush_entries(&mut out, Table::Forward, &self.forward) {
            Ok(()) => {},
            Err(e) => {
                return Err(e);
            },
        }
        let ghost second = out@;
        match flush_entries(&mut out, Table::Reverse, &self.reverse) {
            Ok(()) => {},
            Err(e) => {
                return Err(e);
            },
        }
        proof {
            let s = self@.scalar.len() as int;
            let f = self@.forward.len() as int;
            assert forall|i: int| 0 <= i < s implies writes_entry(
                #[trigger] out@[i],
                Table::Scalar,
                self@.scalar[i],
            ) by {
                assert(out@[i] == second[i]);
                assert(second[i] == first[0 + i]);
            }
            assert forall|i: int| 0 <= i < f implies writes_entry(
                #[trigger] out@[s + i],
                Table::Forward,
                self@.forward[i],
            ) by {
                assert(out@[s + i] == second[s + i]);
            }
        }
        Ok(out)
    }
}

/// The four cursors from which ids are handed out, each the next free id.
#[derive(Clone, Copy, Debug, PartialEq, Eq, Structural)]
pub struct Sequences {
    pub graph_id: u64,
    pub vertex_id: u64,
    pub property_id: u64,
    pub query_id: u64,
}

/// What a builder is committed under: the first id for its new vertices,
/// how many of them there are, and the id of its graph.
#[derive(Clone, Copy, Debug, PartialEq, Eq, Structural)]
pub struct Assignment {
    pub start_id: u64,
    pub new_vertices: u64,
    pub graph_id: u64,
}

/// The builders by content.
pub open spec fn graphs_of(builders: Seq<GraphBuilder>) -> Seq<Graph> {
    builders.map_values(|b: GraphBuilder| b@)
}

/// The number of new vertices in the first `n` graphs.
pub open spec fn new_vertices_before(graphs: Seq<Graph>, n: int) -> nat
    decreases n,
{
    if n <= 0 {
        0
    } else {
        new_vertices_before(graphs, n - 1) + graphs[n - 1].fresh
    }
}

/// The number of graphs among the first `n` that were not loaded.
pub open spec fn new_graphs_before(graphs: Seq<Graph>, n: int) -> nat
    decreases n,
{
    if n <= 0 {
        0
    } else {
        new_graphs_before(graphs, n - 1) + if graphs[n - 1].loaded_id is None {
            1nat
        } else {
            0nat
        }
    }
}

impl Sequences {
    /// What the graph at position `i` is committed under: its new vertices
    /// get the ids behind those of the graphs before it, and it keeps the id
    /// it was loaded under or gets the next new graph id.
    pub open spec fn assignment(self, graphs: Seq<Graph>, i: int) -> Assignment {
        Assignment {
            start_id: (self.vertex_id + new_vertices_before(graphs, i)) as u64,
            new_vertices: graphs[i].fresh as u64,
            graph_id: match graphs[i].loaded_id {
                Some(id) => id,
                None => (self.graph_id + new_graphs_before(graphs, i)) as u64,
            },
        }
    }

    /// Whether the ids for all the graphs fit.
    pub open spec fn fits(self, graphs: Seq<Graph>) -> bool {
        &&& self.vertex_id + new_vertices_before(graphs, graphs.len() as int) <= u64::MAX
        &&& self.graph_id + new_graphs_before(graphs, graphs.len() as int) <= u64::MAX
    }

    /// The cursors after ids were assigned to the graphs.
    pub open spec fn after(self, graphs: Seq<Graph>) -> Sequences {
        Sequences {
            vertex_id: (self.vertex_id + new_vertices_before(graphs, graphs.len() as int)) as u64,
            graph_id: (self.graph_id + new_graphs_before(graphs, graphs.len() as int)) as u64,
            ..self
        }
    }

    /// The counts grow with the number of graphs counted.
    pub proof fn lemma_counts_grow(graphs: Seq<Graph>, m: int, n: int)
        requires
            m <= n,
        ensures
            new_vertices_before(graphs, m) <= new_vertices_before(graphs, n),
            new_graphs_before(graphs, m) <= new_graphs_before(graphs, n),
        decreases n - m,
    {
        if m < n {
            Self::lemma_counts_grow(graphs, m, n - 1);
        }
    }

    /// The ranges of new vertex ids of two graphs of one assignment do not
    /// overlap, and each lies between the cursor before and the cursor after.
    pub proof fn lemma_ranges_apart(self, graphs: Seq<Graph>, i: int, j: int)
        requires
            self.fits(graphs),
            0 <= i < j < graphs.len(),
        ensures
            self.assignment(graphs, i).start_id + self.assignment(graphs, i).new_vertices
                <= self.assignment(graphs, j).start_id,
            self.vertex_id <= self.assignment(graphs, i).start_id,
            self.assignment(graphs, j).start_id + self.assignment(graphs, j).new_vertices
                <= self.after(graphs).vertex_id,
    {
        Self::lemma_counts_grow(graphs, i + 1, j);
        Self::lemma_counts_grow(graphs, j + 1, graphs.len() as int);
    }

    /// Takes in a number of ids needed and returns the starting global id of
    /// the range; `None`, and no change, where the ids do not fit.
    pub fn reserve_vertex_ids(&mut self, count: u64) -> (r: Option<u64>)
        ensures
            match r {
                Some(id) => id == old(self).vertex_id && *final(self) == (Sequences {
                    vertex_id: (old(self).vertex_id + count) as u64,
                    ..*old(self)
                }) && old(self).vertex_id + count <= u64::MAX,
                None => old(self).vertex_id + count > u64::MAX && *final(self) == *old(self),
            },
    {
        let id = self.vertex_id;
        match self.vertex_id.checked_add(count) {
            Some(next) => {
                self.vertex_id = next;
                Some(id)
            },
            None => None,
        }
    }

    /// Hands out the next graph id; `None`, and no change, where there is none left.
    pub fn next_graph_id(&mut self) -> (r: Option<u64>)
        ensures
            match r {
                Some(id) => id == old(self).graph_id && id < u64::MAX && *final(self) == (Sequences {
                    graph_id: (id + 1) as u64,
                    ..*old(self)
                }),
                None => old(self).graph_id == u64::MAX && *final(self) == *old(self),
            },
    {
        let id = self.graph_id;
        if id == u64::MAX {
            return None;
        }
        self.graph_id = id + 1;
        Some(id)
    }

    /// Hands out the next property id; `None`, and no change, where there is none left.
    pub fn next_property_id(&mut self) -> (r: Option<u64>)
        ensures
            match r {
                Some(id) => id == old(self).property_id && id < u64::MAX && *final(self)
                    == (Sequences { property_id: (id + 1) as u64, ..*old(self) }),
                None => old(self).property_id == u64::MAX && *final(self) == *old(self),
            },
    {
        let id = self.property_id;
        if id == u64::MAX {
            return None;
        }
        self.property_id = id + 1;
        Some(id)
    }

    /// Hands out the next query id; `None`, and no change, where there is none left.
    pub fn next_query_id(&mut self) -> (r: Option<u64>)
        ensures
            match r {
                Some(id) => id == old(self).query_id && id < u64::MAX && *final(self) == (Sequences {
                    query_id: (id + 1) as u64,
                    ..*old(self)
                }),
                None => old(self).query_id == u64::MAX && *final(self) == *old(self),
            },
    {
        let id = self.query_id;
        if id == u64::MAX {
            return None;
        }
        self.query_id = id + 1;
        Some(id)
    }

    /// Registers a property: the next property id is taken, whether or not
    /// the registration succeeds, and the registration fails where the alias
    /// that was asked for is bound already. `None`, and no change, where no
    /// id is left.
    pub fn register_property(&mut self, alias_taken: bool) -> (r: Option<
        Result<PropertyHandle, LatticeError>,
    >)
        ensures
            match r {
                Some(outcome) => {
                    &&& old(self).property_id < u64::MAX
                    &&& *final(self) == (Sequences {
                        property_id: (old(self).property_id + 1) as u64,
                        ..*old(self)
                    })
                    &&& match outcome {
                        Ok(h) => !alias_taken && h == PropertyHandle(old(self).property_id),
                        Err(e) => alias_taken && e is AliasAlreadyExists,
                    }
                },
                None => old(self).property_id == u64::MAX && *final(self) == *old(self),
            },
    {
        // incr id
        let id = match self.next_property_id() {
            Some(id) => id,
            None => {
                return None;
            },
        };
        // assign alias, prevents collisions
        if alias_taken {
            return Some(Err(LatticeError::AliasAlreadyExists));
        }
        Some(Ok(PropertyHandle(id)))
    }

    /// Registers a query: the next query id is taken, whether or not the
    /// registration succeeds, and the registration fails where the alias
    /// that was asked for is bound already. `None`, and no change, where no
    /// id is left.
    pub fn register_query(&mut self, alias_taken: bool) -> (r: Option<
        Result<QueryHandle, LatticeError>,
    >)
        ensures
            match r {
                Some(outcome) => {
                    &&& old(self).query_id < u64::MAX
                    &&& *final(self) == (Sequences {
                        query_id: (old(self).query_id + 1) as u64,
                        ..*old(self)
                    })
                    &&& match outcome {
                        Ok(h) => !alias_taken && h == QueryHandle(old(self).query_id),
                        Err(e) => alias_taken && e is AliasAlreadyExists,
                    }
                },
                None => old(self).query_id == u64::MAX && *final(self) == *old(self),
            },
    {
        // incr id
        let id = match self.next_query_id() {
            Some(id) => id,
            None => {
                return None;
            },
        };
        // assign alias, prevents collisions
        if alias_taken {
            return Some(Err(LatticeError::AliasAlreadyExists));
        }
        Some(Ok(QueryHandle(id)))
    }

    /// Reserves for each builder a range of vertex ids for its new vertices,
    /// one range behind the other, and gives each builder that was not
    /// loaded a new graph id. `None`, and no change, where the ids do not fit.
    pub fn assign(&mut self, builders: &Vec<GraphBuilder>) -> (r: Option<Vec<Assignment>>)
        ensures
            match r {
                Some(list) => {
                    &&& old(self).fits(graphs_of(builders@))
                    &&& *final(self) == old(self).after(graphs_of(builders@))
                    &&& list@.len() == builders@.len()
                    &&& forall|i: int|
                        0 <= i < list@.len() ==> #[trigger] list@[i] == old(self).assignment(
                            graphs_of(builders@),
                            i,
                        )
                },
                None => !old(self).fits(graphs_of(builders@)) && *final(self) == *old(self),
            },
    {
        let ghost graphs = graphs_of(builders@);
        let ghost start = *self;
        let mut next = *self;
        let mut ids: Vec<Assignment> = Vec::new();
        let mut i: usize = 0;
        while i < builders.len()
            invariant
                i <= builders.len(),
                graphs == graphs_of(builders@),
                *self == start,
                ids@.len() == i,
                next == (Sequences {
                    vertex_id: (start.vertex_id + new_vertices_before(graphs, i as int)) as u64,
                    graph_id: (start.graph_id + new_graphs_before(graphs, i as int)) as u64,
                    ..start
                }),
                start.vertex_id + new_vertices_before(graphs, i as int) <= u64::MAX,
                start.graph_id + new_graphs_before(graphs, i as int) <= u64::MAX,
                forall|k: int| 0 <= k < i ==> #[trigger] ids@[k] == start.assignment(graphs, k),
            decreases builders.len() - i,
        {
            let b = &builders[i];
            assert(graphs[i as int] == b@);
            let count = b.count_new_vertices();
            proof {
                Self::lemma_counts_grow(graphs, i + 1, graphs.len() as int);
            }
            let start_id = match next.reserve_vertex_ids(count) {
                Some(id) => id,
                None => {
                    return None;
                },
            };  // ids for vertexes
            let graph_id = match b.loaded_graph_id() {
                Some(id) => id,
                None => match next.next_graph_id() {
                    Some(id) => id,
                    None => {
                        return None;
                    },
                },
            };  // id for graph
            ids.push(Assignment { start_id, new_vertices: count, graph_id });
            i += 1;
        }
        *self = next;
        Some(ids)
    }
}

/// What a table holds as a reader of the transaction sees it: what the
/// cache holds under a key, else what the store holds.
pub open spec fn overlay(entries: Entries, stored: Map<Key, Set<u64>>) -> Map<Key, Set<u64>> {
    Map::new(
        |k: Key| entry_under(entries, k) is Some || stored.contains_key(k),
        |k: Key|
            match entry_under(entries, k) {
                Some(set) => set,
                None => stored[k],
            },
    )
}

/// Both hold the same set under every key of every table, a key that is
/// missing counted as a key with the empty set.
pub open spec fn same_content(a: Indexes, b: Indexes) -> bool {
    forall|t: Table, k: Key| #[trigger] a.get(t, k) == b.get(t, k)
}

/// What sorted entries hold under a key is the set at the rank of the key.
pub proof fn lemma_entry_under(entries: Entries, key: Key)
    requires
        sorted_entries(entries),
    ensures
        entry_under(entries, key) == if rank(entries, key) < entries.len() && entries[rank(
            entries,
            key,
        )].0 == key {
            Some(entries[rank(entries, key)].1)
        } else {
            None
        },
{
    lemma_rank(entries, key);
    if entry_under(entries, key) is Some {
        let i = choose|i: int| 0 <= i < entries.len() && (#[trigger] entries[i]).0 == key;
        assert(i == rank(entries, key));
    } else {
        let r = rank(entries, key);
        if r < entries.len() && entries[r].0 == key {
            assert(false);
        }
    }
}

/// Sorted entries with one more entry hold the new set under the new key,
/// and under every other key what they held.
pub proof fn lemma_entry_under_loaded(entries: Entries, key: Key, set: Set<u64>, other: Key)
    requires
        sorted_entries(entries),
        entry_under(entries, key) is None,
    ensures
        sorted_entries(entries.insert(rank(entries, key), (key, set))),
        entry_under(entries.insert(rank(entries, key), (key, set)), other) == if other == key {
            Some(set)
        } else {
            entry_under(entries, other)
        },
{
    let at = rank(entries, key);
    let after = entries.insert(at, (key, set));
    lemma_rank(entries, key);
    lemma_entry_under(entries, key);
    assert forall|i: int, j: int| 0 <= i < j < after.len() implies key_lt(
        after[i].0,
        after[j].0,
    ) by {
        let pi = if i < at {
            i
        } else {
            i - 1
        };
        let pj = if j < at {
            j
        } else {
            j - 1
        };
        if i != at && j != at {
            assert(key_lt(entries[pi].0, entries[pj].0));
        } else if i == at {
            assert(!key_lt(entries[pj].0, key));
            assert(entries[pj].0 != key);
        } else {
            assert(key_lt(entries[pi].0, key));
        }
    }
    lemma_entry_under(after, other);
    lemma_entry_under(entries, other);
    lemma_rank(after, other);
    lemma_rank(entries, other);
    if other == key {
        assert(after[at].0 == key);
    } else if entry_under(entries, other) is Some {
        let r = rank(entries, other);
        let moved = if r < at {
            r
        } else {
            r + 1
        };
        assert(after[moved] == entries[r]);
    } else if entry_under(after, other) is Some {
        let r = rank(after, other);
        assert(after[r].0 == other);
        let back = if r < at {
            r
        } else {
            r - 1
        };
        assert(entries[back] == after[r]);
    }
}

/// Sorted entries with another set under a key that they hold hold the new
/// set under that key, and under every other key what they held.
pub proof fn lemma_entry_under_updated(entries: Entries, key: Key, set: Set<u64>, other: Key)
    requires
        sorted_entries(entries),
        entry_under(entries, key) is Some,
    ensures
        sorted_entries(entries.update(rank(entries, key), (key, set))),
        entry_under(entries.update(rank(entries, key), (key, set)), other) == if other == key {
            Some(set)
        } else {
            entry_under(entries, other)
        },
{
    let at = rank(entries, key);
    let after = entries.update(at, (key, set));
    lemma_rank(entries, key);
    lemma_entry_under(entries, key);
    assert forall|i: int, j: int| 0 <= i < j < after.len() implies key_lt(
        after[i].0,
        after[j].0,
    ) by {
        assert(key_lt(entries[i].0, entries[j].0));
    }
    lemma_entry_under(after, other);
    lemma_entry_under(entries, other);
    lemma_rank(after, other);
    lemma_rank(entries, other);
    if other == key {
        assert(after[at].0 == key);
    } else if entry_under(entries, other) is Some {
        let r = rank(entries, other);
        assert(after[r] == entries[r]);
    } else if entry_under(after, other) is Some {
        let r = rank(after, other);
        assert(after[r].0 == other);
        assert(entries[r] == after[r]);
    }
}

impl CacheContent {
    /// The cache that holds nothing.
    pub open spec fn empty() -> CacheContent {
        CacheContent { scalar: Seq::empty(), forward: Seq::empty(), reverse: Seq::empty() }
    }

    /// The indexes as a reader of the write transaction sees them: what the
    /// cache holds of an entry, else what the store holds.
    pub open spec fn over(self, store: Indexes) -> Indexes {
        Indexes {
            scalar: overlay(self.scalar, store.scalar),
            forward: overlay(self.forward, store.forward),
            reverse: overlay(self.reverse, store.reverse),
        }
    }

    /// The cache after a change was brought to it as a write transaction
    /// does: the entry is loaded from the store unless the cache holds it,
    /// then changed.
    pub open spec fn changed(self, store: Indexes, u: IndexUpdate) -> CacheContent {
        if self.get(u.table, u.key) is Some {
            self.updated(u)
        } else {
            self.loaded(u.table, u.key, store.get(u.table, u.key)).updated(u)
        }
    }

    /// The cache after the first `n` changes of `updates` were brought to it.
    pub open spec fn changed_by(self, store: Indexes, updates: Seq<IndexUpdate>, n: int)
        -> CacheContent
        decreases n,
    {
        if n <= 0 {
            self
        } else {
            self.changed_by(store, updates, n - 1).changed(store, updates[n - 1])
        }
    }

    /// What the cache holds over the store under a key.
    pub proof fn lemma_over(self, store: Indexes, t: Table, k: Key)
        ensures
            self.over(store).get(t, k) == match self.get(t, k) {
                Some(set) => set,
                None => store.get(t, k),
            },
    {
    }

    /// Loading what the store holds changes nothing for a reader.
    pub proof fn lemma_loaded(self, store: Indexes, t: Table, k: Key)
        requires
            self.wf(),
            self.get(t, k) is None,
        ensures
            self.loaded(t, k, store.get(t, k)).wf(),
            self.loaded(t, k, store.get(t, k)).get(t, k) == Some(store.get(t, k)),
            same_content(self.loaded(t, k, store.get(t, k)).over(store), self.over(store)),
    {
        let set = store.get(t, k);
        let post = self.loaded(t, k, set);
        lemma_entry_under_loaded(self.table(t), k, set, k);
        assert forall|t2: Table, k2: Key| #[trigger]
            post.over(store).get(t2, k2) == self.over(store).get(t2, k2) by {
            post.lemma_over(store, t2, k2);
            self.lemma_over(store, t2, k2);
            if t2 == t {
                lemma_entry_under_loaded(self.table(t), k, set, k2);
            }
        }
    }

    /// A change to an entry that the cache holds is, for a reader, the
    /// change of the indexes.
    pub proof fn lemma_updated(self, store: Indexes, u: IndexUpdate)
        requires
            self.wf(),
            self.get(u.table, u.key) is Some,
        ensures
            self.updated(u).wf(),
            same_content(self.updated(u).over(store), self.over(store).apply(u)),
    {
        let entries = self.table(u.table);
        let at = rank(entries, u.key);
        lemma_entry_under(entries, u.key);
        let set = entries[at].1;
        let next = if u.add {
            set.insert(u.id)
        } else {
            set.remove(u.id)
        };
        let post = self.updated(u);
        lemma_entry_under_updated(entries, u.key, next, u.key);
        assert forall|t2: Table, k2: Key| #[trigger]
            post.over(store).get(t2, k2) == self.over(store).apply(u).get(t2, k2) by {
            post.lemma_over(store, t2, k2);
            self.lemma_over(store, t2, k2);
            self.lemma_over(store, u.table, u.key);
            if t2 == u.table {
                lemma_entry_under_updated(entries, u.key, next, k2);
            }
        }
    }

    /// Bringing a change to the cache is, for a reader, the change of the indexes.
    pub proof fn lemma_changed(self, store: Indexes, u: IndexUpdate)
        requires
            self.wf(),
        ensures
            self.changed(store, u).wf(),
            same_content(self.changed(store, u).over(store), self.over(store).apply(u)),
    {
        if self.get(u.table, u.key) is Some {
            self.lemma_updated(store, u);
        } else {
            self.lemma_loaded(store, u.table, u.key);
            let mid = self.loaded(u.table, u.key, store.get(u.table, u.key));
            mid.lemma_updated(store, u);
            lemma_apply_same(mid.over(store), self.over(store), u);
        }
    }

    /// Bringing changes to the cache one after the other is, for a reader,
    /// applying them to the indexes.
    pub proof fn lemma_changed_by(self, store: Indexes, updates: Seq<IndexUpdate>, n: int)
        requires
            self.wf(),
            0 <= n <= updates.len(),
        ensures
            self.changed_by(store, updates, n).wf(),
            same_content(
                self.changed_by(store, updates, n).over(store),
                self.over(store).apply_all(updates, n),
            ),
        decreases n,
    {
        if n > 0 {
            self.lemma_changed_by(store, updates, n - 1);
            let mid = self.changed_by(store, updates, n - 1);
            mid.lemma_changed(store, updates[n - 1]);
            lemma_apply_same(
                mid.over(store),
                self.over(store).apply_all(updates, n - 1),
                updates[n - 1],
            );
        }
    }

    /// A write transaction that starts on edge indexes that agree, brings
    /// the changes of a commit to its cache and writes the cache back
    /// leaves edge indexes that agree: what a reader sees is the indexes
    /// after the commit.
    pub proof fn lemma_transaction_keeps_symmetry(store: Indexes, c: CommitRecord)
        requires
            store.symmetric(),
        ensures
            same_content(
                Self::empty().changed_by(store, updates_of(c), updates_of(c).len() as int).over(
                    store,
                ),
                store.commit(c),
            ),
            Self::empty().changed_by(store, updates_of(c), updates_of(c).len() as int).over(
                store,
            ).symmetric(),
    {
        let ups = updates_of(c);
        let cache = Self::empty();
        cache.lemma_changed_by(store, ups, ups.len() as int);
        let seen = cache.changed_by(store, ups, ups.len() as int).over(store);
        assert(same_content(cache.over(store), store)) by {
            assert forall|t: Table, k: Key| #[trigger] cache.over(store).get(t, k) == store.get(t, k) by {
                cache.lemma_over(store, t, k);
            }
        }
        lemma_apply_all_same(cache.over(store), store, ups, ups.len() as int);
        store.lemma_commit_keeps_symmetry(c);
        let after = store.commit(c);
        assert forall|u: u64, l: u64, v: u64|
            #![trigger seen.get(Table::Forward, (u, l)).contains(v)]
            #![trigger seen.get(Table::Reverse, (v, l)).contains(u)]
            seen.get(Table::Forward, (u, l)).contains(v) <==> seen.get(
                Table::Reverse,
                (v, l),
            ).contains(u) by {
            assert(seen.get(Table::Forward, (u, l)) == after.get(Table::Forward, (u, l)));
            assert(seen.get(Table::Reverse, (v, l)) == after.get(Table::Reverse, (v, l)));
            assert(after.get(Table::Forward, (u, l)).contains(v) <==> after.get(
                Table::Reverse,
                (v, l),
            ).contains(u));
        }
    }
}

/// One change gives the same content on indexes of the same content.
pub proof fn lemma_apply_same(a: Indexes, b: Indexes, u: IndexUpdate)
    requires
        same_content(a, b),
    ensures
        same_content(a.apply(u), b.apply(u)),
{
    assert forall|t: Table, k: Key| #[trigger] a.apply(u).get(t, k) == b.apply(u).get(t, k) by {
        assert(a.get(t, k) == b.get(t, k));
        assert(a.get(u.table, u.key) == b.get(u.table, u.key));
    }
}

/// Changes give the same content on indexes of the same content.
pub proof fn lemma_apply_all_same(a: Indexes, b: Indexes, updates: Seq<IndexUpdate>, n: int)
    requires
        same_content(a, b),
        0 <= n <= updates.len(),
    ensures
        same_content(a.apply_all(updates, n), b.apply_all(updates, n)),
    decreases n,
{
    if n > 0 {
        lemma_apply_all_same(a, b, updates, n - 1);
        lemma_apply_same(a.apply_all(updates, n - 1), b.apply_all(updates, n - 1), updates[n - 1]);
    }
}

} // verus!
