use crate::graph::graph_builder::{fresh_before, is_fresh, lemma_fresh_before_grows, Graph};
use crate::graph::graph_prepared::{
    added_from, insert_by_key, key_lt, key_of, keys_of, removed_from, sorted_by_key, tagged,
    triple, unless_in, Attribute, CommitRecord, Delta, Key, PreparedEdge,
};
use crate::lattice_db::reader::{Indexes, Table};
use crate::lattice_db::writer::{
    edge_updates, forward_update, reverse_update, scalar_update, scalar_updates,
};
use vstd::prelude::*;
use vstd::relations::{sorted_by, total_ordering};
use vstd::seq_lib::lemma_sorted_unique;

verus! {

broadcast use vstd::seq_lib::group_to_multiset_ensures;

/// Whether the scalar index files the vertex `id` under `key`.
pub open spec fn filed(idx: Indexes, id: u64, key: Key) -> bool {
    idx.get(Table::Scalar, key).contains(id)
}

/// After changes of the scalar index for some deltas, a vertex is filed
/// under a key as the deltas say where they name the vertex with the key,
/// else as it was.
pub proof fn lemma_scalar_membership(
    idx: Indexes,
    deltas: Seq<Delta>,
    add: bool,
    n: int,
    id: u64,
    key: Key,
)
    requires
        0 <= n <= deltas.len(),
    ensures
        scalar_updates(deltas, add, n).len() == n,
        filed(idx.apply_all(scalar_updates(deltas, add, n), n), id, key) == if deltas.take(
            n,
        ).contains((id, key.0, key.1)) {
            add
        } else {
            filed(idx, id, key)
        },
    decreases n,
{
    let d = (id, key.0, key.1);
    if n > 0 {
        lemma_scalar_membership(idx, deltas, add, n - 1, id, key);
        let prev = scalar_updates(deltas, add, n - 1);
        let ups = scalar_updates(deltas, add, n);
        idx.lemma_apply_all_prefix(prev, ups, n - 1);
        let before = idx.apply_all(prev, n - 1);
        let u = scalar_update(deltas[n - 1], add);
        assert(ups[n - 1] == u);
        assert(idx.apply_all(ups, n) == before.apply(u));
        let front = deltas.take(n - 1);
        let all = deltas.take(n);
        if front.contains(d) {
            let k = choose|k: int| 0 <= k < front.len() && front[k] == d;
            assert(all[k] == d);
        }
        if deltas[n - 1] == d {
            assert(all[n - 1] == d);
        }
        if all.contains(d) {
            let k = choose|k: int| 0 <= k < all.len() && all[k] == d;
            if k < n - 1 {
                assert(front[k] == d);
            }
        }
    } else {
        assert(deltas.take(0) =~= Seq::empty());
    }
}

/// Changes of the edge indexes keep the scalar index as it is.
pub proof fn lemma_edges_leave_scalar(idx: Indexes, deltas: Seq<Delta>, add: bool, n: int)
    requires
        0 <= n <= deltas.len(),
    ensures
        edge_updates(deltas, add, n).len() == 2 * n,
        idx.apply_all(edge_updates(deltas, add, n), 2 * n).scalar == idx.scalar,
    decreases n,
{
    if n > 0 {
        lemma_edges_leave_scalar(idx, deltas, add, n - 1);
        let prev = edge_updates(deltas, add, n - 1);
        let ups = edge_updates(deltas, add, n);
        idx.lemma_apply_all_prefix(prev, ups, 2 * (n - 1));
        let a1 = idx.apply_all(ups, 2 * n - 1);
        assert(idx.apply_all(ups, 2 * n) == a1.apply(ups[2 * n - 1]));
        assert(a1 == idx.apply_all(ups, 2 * n - 2).apply(ups[2 * n - 2]));
    }
}

/// After a commit a vertex is filed under a key as the commit says: where
/// the commit adds the attribute, else not where the commit removes it, else
/// as before.
pub proof fn lemma_commit_membership(idx: Indexes, c: CommitRecord, id: u64, key: Key)
    ensures
        filed(idx.commit(c), id, key) == if c.add_attrs.contains((id, key.0, key.1)) {
            true
        } else if c.rem_attrs.contains((id, key.0, key.1)) {
            false
        } else {
            filed(idx, id, key)
        },
{
    let a = scalar_updates(c.rem_attrs, false, c.rem_attrs.len() as int);
    let b = scalar_updates(c.add_attrs, true, c.add_attrs.len() as int);
    let e = edge_updates(c.rem_edges, false, c.rem_edges.len() as int);
    let f = edge_updates(c.add_edges, true, c.add_edges.len() as int);
    lemma_scalar_membership(idx, c.rem_attrs, false, c.rem_attrs.len() as int, id, key);
    let i1 = idx.apply_all(a, a.len() as int);
    lemma_scalar_membership(i1, c.add_attrs, true, c.add_attrs.len() as int, id, key);
    let i2 = i1.apply_all(b, b.len() as int);
    lemma_edges_leave_scalar(i2, c.rem_edges, false, c.rem_edges.len() as int);
    let i3 = i2.apply_all(e, e.len() as int);
    lemma_edges_leave_scalar(i3, c.add_edges, true, c.add_edges.len() as int);
    let i4 = i3.apply_all(f, f.len() as int);
    idx.lemma_apply_all_add(a, b, b.len() as int);
    idx.lemma_apply_all_add(a + b, e, e.len() as int);
    idx.lemma_apply_all_add(a + b + e, f, f.len() as int);
    assert(c.add_attrs.take(c.add_attrs.len() as int) =~= c.add_attrs);
    assert(c.rem_attrs.take(c.rem_attrs.len() as int) =~= c.rem_attrs);
    assert(idx.commit(c) == i4);
    assert(filed(i4, id, key) == filed(i2, id, key));
}

/// Whether the forward index holds the edge `t`: its far end under its near
/// end and label.
pub open spec fn linked_forward(idx: Indexes, t: Delta) -> bool {
    idx.get(Table::Forward, (t.0, t.1)).contains(t.2)
}

/// Whether the reverse index holds the edge `t`: its near end under its far
/// end and label.
pub open spec fn linked_reverse(idx: Indexes, t: Delta) -> bool {
    idx.get(Table::Reverse, (t.2, t.1)).contains(t.0)
}

/// The edges as the indexes hold them.
pub open spec fn triples_of(edges: Seq<PreparedEdge>) -> Seq<Delta> {
    edges.map_values(|e: PreparedEdge| triple(e))
}

/// After changes of the edge indexes for some deltas, both indexes hold an
/// edge as the deltas say where they name it, else as they did.
pub proof fn lemma_edge_membership(idx: Indexes, deltas: Seq<Delta>, add: bool, n: int, t: Delta)
    requires
        0 <= n <= deltas.len(),
    ensures
        edge_updates(deltas, add, n).len() == 2 * n,
        linked_forward(idx.apply_all(edge_updates(deltas, add, n), 2 * n), t) == if deltas.take(
            n,
        ).contains(t) {
            add
        } else {
            linked_forward(idx, t)
        },
        linked_reverse(idx.apply_all(edge_updates(deltas, add, n), 2 * n), t) == if deltas.take(
            n,
        ).contains(t) {
            add
        } else {
            linked_reverse(idx, t)
        },
    decreases n,
{
    if n > 0 {
        lemma_edge_membership(idx, deltas, add, n - 1, t);
        let prev = edge_updates(deltas, add, n - 1);
        let ups = edge_updates(deltas, add, n);
        let d = deltas[n - 1];
        idx.lemma_apply_all_prefix(prev, ups, 2 * (n - 1));
        let before = idx.apply_all(prev, 2 * (n - 1));
        let mid = before.apply(forward_update(d, add));
        let after = mid.apply(reverse_update(d, add));
        assert(ups[2 * n - 2] == forward_update(d, add));
        assert(ups[2 * n - 1] == reverse_update(d, add));
        assert(idx.apply_all(ups, 2 * n - 1) == mid);
        assert(idx.apply_all(ups, 2 * n) == after);
        let front = deltas.take(n - 1);
        let upto = deltas.take(n);
        assert(upto =~= front.push(d));
        assert(upto.contains(t) <==> front.contains(t) || d == t) by {
            if front.contains(t) {
                let k = choose|k: int| 0 <= k < front.len() && front[k] == t;
                assert(upto[k] == t);
            }
            if d == t {
                assert(upto[n - 1] == t);
            }
            if upto.contains(t) {
                let k = choose|k: int| 0 <= k < upto.len() && upto[k] == t;
                if k < n - 1 {
                    assert(front[k] == t);
                }
            }
        }
    } else {
        assert(!deltas.take(0).contains(t));
    }
}

/// After a commit both edge indexes hold an edge as the commit says: where
/// the commit adds the edge, else not where the commit removes it, else as
/// before.
pub proof fn lemma_commit_edge_membership(idx: Indexes, c: CommitRecord, t: Delta)
    ensures
        linked_forward(idx.commit(c), t) == if c.add_edges.contains(t) {
            true
        } else if c.rem_edges.contains(t) {
            false
        } else {
            linked_forward(idx, t)
        },
        linked_reverse(idx.commit(c), t) == if c.add_edges.contains(t) {
            true
        } else if c.rem_edges.contains(t) {
            false
        } else {
            linked_reverse(idx, t)
        },
{
    let a = scalar_updates(c.rem_attrs, false, c.rem_attrs.len() as int);
    let b = scalar_updates(c.add_attrs, true, c.add_attrs.len() as int);
    let e = edge_updates(c.rem_edges, false, c.rem_edges.len() as int);
    let f = edge_updates(c.add_edges, true, c.add_edges.len() as int);
    idx.lemma_scalar_updates(c.rem_attrs, false, c.rem_attrs.len() as int);
    let i1 = idx.apply_all(a, a.len() as int);
    i1.lemma_scalar_updates(c.add_attrs, true, c.add_attrs.len() as int);
    let i2 = i1.apply_all(b, b.len() as int);
    lemma_edge_membership(i2, c.rem_edges, false, c.rem_edges.len() as int, t);
    let i3 = i2.apply_all(e, e.len() as int);
    lemma_edge_membership(i3, c.add_edges, true, c.add_edges.len() as int, t);
    let i4 = i3.apply_all(f, f.len() as int);
    idx.lemma_apply_all_add(a, b, b.len() as int);
    idx.lemma_apply_all_add(a + b, e, e.len() as int);
    idx.lemma_apply_all_add(a + b + e, f, f.len() as int);
    assert(c.add_edges.take(c.add_edges.len() as int) =~= c.add_edges);
    assert(c.rem_edges.take(c.rem_edges.len() as int) =~= c.rem_edges);
    assert(idx.commit(c) == i4);
    assert(linked_forward(i2, t) == linked_forward(idx, t));
    assert(linked_reverse(i2, t) == linked_reverse(idx, t));
}

/// A key is in the rest of a list where it is the first of the rest or in
/// what follows it.
pub proof fn lemma_skip_contains(list: Seq<Key>, i: int, k: Key)
    requires
        0 <= i < list.len(),
    ensures
        list.skip(i).contains(k) <==> list[i] == k || list.skip(i + 1).contains(k),
        list.skip(i).contains(k) ==> list.contains(k),
{
    let s = list.skip(i);
    let t = list.skip(i + 1);
    if s.contains(k) {
        let a = choose|a: int| 0 <= a < s.len() && s[a] == k;
        assert(list[i + a] == k);
        if a > 0 {
            assert(t[a - 1] == k);
        }
    }
    if t.contains(k) {
        let a = choose|a: int| 0 <= a < t.len() && t[a] == k;
        assert(s[a + 1] == k);
    }
    assert(s[0] == list[i]);
}

/// The walk over two lists of keys finds what is in one and not in the
/// other, whatever their order: from `old[i]` and `new[j]` on, it removes
/// the keys of the rest of `old` that `new` does not hold, and adds the keys
/// of the rest of `new` that `old` does not hold.
pub proof fn lemma_walk_is_difference(old: Seq<Key>, new: Seq<Key>, i: int, j: int)
    requires
        0 <= i <= old.len(),
        0 <= j <= new.len(),
    ensures
        forall|k: Key|
            #[trigger] removed_from(old, new, i, j).contains(k) <==> old.skip(i).contains(k)
                && !new.contains(k),
        forall|k: Key|
            #[trigger] added_from(old, new, i, j).contains(k) <==> new.skip(j).contains(k)
                && !old.contains(k),
    decreases old.len() - i + new.len() - j,
{
    let rem = removed_from(old, new, i, j);
    let add = added_from(old, new, i, j);
    let os = old.skip(i);
    let ns = new.skip(j);
    if i < old.len() {
        assert(old.contains(old[i]));
    }
    if j < new.len() {
        assert(new.contains(new[j]));
    }
    if i >= old.len() && j >= new.len() {
        assert(os =~= Seq::empty());
        assert(ns =~= Seq::empty());
    } else if i < old.len() && (j >= new.len() || (old[i] != new[j] && key_lt(old[i], new[j]))) {
        // the old side moves on
        lemma_walk_is_difference(old, new, i + 1, j);
        let first = unless_in(old[i], new);
        let rest = removed_from(old, new, i + 1, j);
        assert(rem == first + rest);
        assert(add == added_from(old, new, i + 1, j));
        assert forall|k: Key| #[trigger] rem.contains(k) <==> os.contains(k) && !new.contains(
            k,
        ) by {
            lemma_contains_add(first, rest, k);
            lemma_skip_contains(old, i, k);
            if first.contains(k) {
                let a = choose|a: int| 0 <= a < first.len() && first[a] == k;
            }
            if k == old[i] && !new.contains(k) {
                assert(first[0] == k);
            }
        }
    } else if i < old.len() && old[i] == new[j] {
        lemma_walk_is_difference(old, new, i + 1, j + 1);
        assert(rem == removed_from(old, new, i + 1, j + 1));
        assert(add == added_from(old, new, i + 1, j + 1));
        assert forall|k: Key| #[trigger] rem.contains(k) <==> os.contains(k) && !new.contains(
            k,
        ) by {
            lemma_skip_contains(old, i, k);
        }
        assert forall|k: Key| #[trigger] add.contains(k) <==> ns.contains(k) && !old.contains(
            k,
        ) by {
            lemma_skip_contains(new, j, k);
        }
    } else {
        // the new side moves on
        lemma_walk_is_difference(old, new, i, j + 1);
        let first = unless_in(new[j], old);
        let rest = added_from(old, new, i, j + 1);
        assert(add == first + rest);
        assert(rem == removed_from(old, new, i, j + 1));
        assert forall|k: Key| #[trigger] add.contains(k) <==> ns.contains(k) && !old.contains(
            k,
        ) by {
            lemma_contains_add(first, rest, k);
            lemma_skip_contains(new, j, k);
            if first.contains(k) {
                let a = choose|a: int| 0 <= a < first.len() && first[a] == k;
            }
            if k == new[j] && !old.contains(k) {
                assert(first[0] == k);
            }
        }
    }
}

/// The updates that file a vertex under some keys name the vertex, and
/// name it with exactly those keys.
pub proof fn lemma_tagged(id: u64, keys: Seq<Key>, d: Delta)
    ensures
        tagged(id, keys).contains(d) <==> d.0 == id && keys.contains((d.1, d.2)),
{
    let t = tagged(id, keys);
    if t.contains(d) {
        let k = choose|k: int| 0 <= k < t.len() && t[k] == d;
        assert(keys[k] == (d.1, d.2));
    }
    if d.0 == id && keys.contains((d.1, d.2)) {
        let k = choose|k: int| 0 <= k < keys.len() && keys[k] == (d.1, d.2);
        assert(t[k] == d);
    }
}

impl Graph {
    /// The updates of the first `n` vertex slots are those of the single slots.
    pub proof fn lemma_phase_deltas(self, start_id: u64, n: int, d: Delta)
        requires
            0 <= n,
        ensures
            self.vertex_phase(start_id, n).add.contains(d) <==> exists|i: int|
                0 <= i < n && #[trigger] self.vertex_outcome(start_id, i).add.contains(d),
            self.vertex_phase(start_id, n).rem.contains(d) <==> exists|i: int|
                0 <= i < n && #[trigger] self.vertex_outcome(start_id, i).rem.contains(d),
        decreases n,
    {
        if n > 0 {
            self.lemma_phase_deltas(start_id, n - 1, d);
            let p = self.vertex_phase(start_id, n - 1);
            let o = self.vertex_outcome(start_id, n - 1);
            let q = self.vertex_phase(start_id, n);
            assert(q.add == p.add + o.add);
            assert(q.rem == p.rem + o.rem);
            lemma_contains_add(p.add, o.add, d);
            lemma_contains_add(p.rem, o.rem, d);
            if p.add.contains(d) {
                let i = choose|i: int|
                    0 <= i < n - 1 && #[trigger] self.vertex_outcome(start_id, i).add.contains(d);
                assert(0 <= i < n && self.vertex_outcome(start_id, i).add.contains(d));
            }
            if p.rem.contains(d) {
                let i = choose|i: int|
                    0 <= i < n - 1 && #[trigger] self.vertex_outcome(start_id, i).rem.contains(d);
                assert(0 <= i < n && self.vertex_outcome(start_id, i).rem.contains(d));
            }
            if exists|i: int|
                0 <= i < n && #[trigger] self.vertex_outcome(start_id, i).add.contains(d) {
                let i = choose|i: int|
                    0 <= i < n && #[trigger] self.vertex_outcome(start_id, i).add.contains(d);
                if i < n - 1 {
                    assert(p.add.contains(d));
                }
            }
            if exists|i: int|
                0 <= i < n && #[trigger] self.vertex_outcome(start_id, i).rem.contains(d) {
                let i = choose|i: int|
                    0 <= i < n && #[trigger] self.vertex_outcome(start_id, i).rem.contains(d);
                if i < n - 1 {
                    assert(p.rem.contains(d));
                }
            }
        }
    }

    /// The loaded vertices have ids of their own, and none of them is among
    /// the ids that the commit hands out.
    pub open spec fn separate_ids(self, start_id: u64) -> bool {
        &&& forall|p: int, q: int|
            0 <= p < q < self.old_vertices().len() ==> (#[trigger] self.old_vertices()[p]).id != (
            #[trigger] self.old_vertices()[q]).id
        &&& forall|p: int|
            0 <= p < self.old_vertices().len() ==> !(start_id <= (
            #[trigger] self.old_vertices()[p]).id < start_id + self.fresh)
    }

    /// Index-entity agreement for a vertex that is persisted. Where the
    /// scalar index filed the vertex under the keys of the attributes it was
    /// loaded with, or, for a new vertex, nowhere, it files the vertex after
    /// the commit under the keys of its persisted attributes and under no
    /// other.
    pub proof fn lemma_index_agrees_with_vertex(
        self,
        idx: Indexes,
        start_id: u64,
        graph_id: u64,
        i: int,
    )
        requires
            self.wf(),
            start_id + self.fresh <= u64::MAX,
            self.separate_ids(start_id),
            self.vertices.occupied(i),
            self.carried(i) ==> forall|key: Key|
                #[trigger] filed(idx, self.old_vertices()[i].id, key) <==> keys_of(
                    self.old_vertices()[i].attrs,
                ).contains(key),
            !self.carried(i) ==> forall|key: Key|
                !#[trigger] filed(idx, self.new_id(start_id, i), key),
        ensures
            self.vertex_outcome(start_id, i).record is Some,
            forall|key: Key|
                #[trigger] filed(
                    idx.commit(self.commit(start_id, graph_id)),
                    self.vertex_outcome(start_id, i).record->0.id,
                    key,
                ) <==> keys_of(self.vertex_outcome(start_id, i).record->0.attrs).contains(key),
    {
        let n = self.vertices.slots.len() as int;
        let c = self.commit(start_id, graph_id);
        let o = self.vertex_outcome(start_id, i);
        let r = o.record->0;
        let id = r.id;
        self.lemma_commit_ids(start_id, graph_id);
        assert forall|key: Key| #[trigger]
            filed(idx.commit(c), id, key) <==> keys_of(r.attrs).contains(key) by {
            let d = (id, key.0, key.1);
            lemma_commit_membership(idx, c, id, key);
            self.lemma_phase_deltas(start_id, n, d);
            // the updates that name the vertex are those of its slot
            assert(c.add_attrs.contains(d) <==> o.add.contains(d)) by {
                if c.add_attrs.contains(d) {
                    let j = choose|j: int|
                        0 <= j < n && #[trigger] self.vertex_outcome(start_id, j).add.contains(d);
                    self.lemma_outcome_ids(start_id, j, d);
                    self.lemma_one_slot_per_id(start_id, i, j);
                }
            }
            assert(c.rem_attrs.contains(d) <==> o.rem.contains(d)) by {
                if c.rem_attrs.contains(d) {
                    let j = choose|j: int|
                        0 <= j < n && #[trigger] self.vertex_outcome(start_id, j).rem.contains(d);
                    self.lemma_outcome_ids(start_id, j, d);
                    if self.carried(i) {
                        if j != i {
                            if j < i {
                                assert(self.old_vertices()[j].id != self.old_vertices()[i].id);
                            } else {
                                assert(self.old_vertices()[i].id != self.old_vertices()[j].id);
                            }
                        }
                    } else {
                        lemma_fresh_grows(self, i, n);
                        assert(!(start_id <= self.old_vertices()[j].id < start_id + self.fresh));
                    }
                }
            }
            self.lemma_outcome_ids(start_id, i, d);
            assert(key == (d.1, d.2));
            let now = filed(idx.commit(c), id, key);
            if self.carried(i) {
                let before = self.old_vertices()[i];
                let v = self.vertices.slots[i].item->0;
                assert(id == before.id);
                let was = filed(idx, before.id, key);
                assert(was <==> keys_of(before.attrs).contains(key));
                if v.attributes != before.attrs {
                    let ok = keys_of(before.attrs);
                    let nk = keys_of(r.attrs);
                    lemma_walk_is_difference(ok, nk, 0, 0);
                    assert(ok.skip(0) =~= ok);
                    assert(nk.skip(0) =~= nk);
                    lemma_tagged(id, added_from(ok, nk, 0, 0), d);
                    lemma_tagged(id, removed_from(ok, nk, 0, 0), d);
                    assert(o.rem.contains(d) <==> ok.contains(key) && !nk.contains(key));
                    assert(o.add.contains(d) <==> nk.contains(key) && !ok.contains(key));
                    assert(now <==> nk.contains(key));
                } else {
                    assert(!o.add.contains(d));
                    assert(!o.rem.contains(d));
                    assert(r.attrs == before.attrs);
                }
            } else {
                assert(id == self.new_id(start_id, i));
                assert(!filed(idx, self.new_id(start_id, i), key));
                lemma_tagged(id, keys_of(r.attrs), d);
                assert(o.add.contains(d) <==> keys_of(r.attrs).contains(key));
                if o.rem.contains(d) {
                    lemma_fresh_grows(self, i, n);
                    assert(!(start_id <= self.old_vertices()[i].id < start_id + self.fresh));
                }
                assert(!o.rem.contains(d));
            }
        }
    }

    /// The updates and records of the first `n` edge slots are those of the
    /// single slots.
    pub proof fn lemma_edge_phase(self, start_id: u64, n: int, t: Delta)
        requires
            0 <= n,
        ensures
            self.edge_phase(start_id, n).add.contains(t) <==> exists|k: int|
                0 <= k < n && #[trigger] self.edge_outcome(start_id, k).add.contains(t),
            self.edge_phase(start_id, n).rem.contains(t) <==> exists|k: int|
                0 <= k < n && #[trigger] self.edge_outcome(start_id, k).rem.contains(t),
            triples_of(self.edge_phase(start_id, n).records).contains(t) <==> exists|k: int|
                0 <= k < n && self.persists(start_id, k, t),
        decreases n,
    {
        if n > 0 {
            self.lemma_edge_phase(start_id, n - 1, t);
            let p = self.edge_phase(start_id, n - 1);
            let o = self.edge_outcome(start_id, n - 1);
            let q = self.edge_phase(start_id, n);
            assert(q.add == p.add + o.add);
            assert(q.rem == p.rem + o.rem);
            lemma_contains_add(p.add, o.add, t);
            lemma_contains_add(p.rem, o.rem, t);
            let pt = triples_of(p.records);
            let qt = triples_of(q.records);
            let ot = match o.record {
                Some(r) => seq![triple(r)],
                None => Seq::empty(),
            };
            assert(qt =~= pt + ot);
            lemma_contains_add(pt, ot, t);
            assert(ot.contains(t) <==> self.persists(start_id, n - 1, t)) by {
                if ot.contains(t) {
                    let a = choose|a: int| 0 <= a < ot.len() && ot[a] == t;
                }
                if self.persists(start_id, n - 1, t) {
                    assert(ot[0] == t);
                }
            }
            if p.add.contains(t) {
                let k = choose|k: int|
                    0 <= k < n - 1 && #[trigger] self.edge_outcome(start_id, k).add.contains(t);
                assert(0 <= k < n && self.edge_outcome(start_id, k).add.contains(t));
            }
            if p.rem.contains(t) {
                let k = choose|k: int|
                    0 <= k < n - 1 && #[trigger] self.edge_outcome(start_id, k).rem.contains(t);
                assert(0 <= k < n && self.edge_outcome(start_id, k).rem.contains(t));
            }
            if pt.contains(t) {
                let k = choose|k: int| 0 <= k < n - 1 && self.persists(start_id, k, t);
                assert(0 <= k < n && self.persists(start_id, k, t));
            }
            if exists|k: int|
                0 <= k < n && #[trigger] self.edge_outcome(start_id, k).add.contains(t) {
                let k = choose|k: int|
                    0 <= k < n && #[trigger] self.edge_outcome(start_id, k).add.contains(t);
                if k < n - 1 {
                    assert(p.add.contains(t));
                }
            }
            if exists|k: int|
                0 <= k < n && #[trigger] self.edge_outcome(start_id, k).rem.contains(t) {
                let k = choose|k: int|
                    0 <= k < n && #[trigger] self.edge_outcome(start_id, k).rem.contains(t);
                if k < n - 1 {
                    assert(p.rem.contains(t));
                }
            }
            if exists|k: int| 0 <= k < n && self.persists(start_id, k, t) {
                let k = choose|k: int| 0 <= k < n && self.persists(start_id, k, t);
                if k < n - 1 {
                    assert(pt.contains(t));
                }
            }
        } else {
            assert(triples_of(self.edge_phase(start_id, n).records) =~= Seq::empty());
        }
    }

    /// Whether edge slot `k` is persisted as the edge `t`.
    pub open spec fn persists(self, start_id: u64, k: int, t: Delta) -> bool {
        self.edge_outcome(start_id, k).record matches Some(r) && triple(r) == t
    }

    /// Index-entity agreement for edges. Where both edge indexes held the
    /// edge `t` exactly if the graph was loaded with such an edge, they hold
    /// it after the commit exactly if the graph is persisted with such an
    /// edge. This does not hold of an edge that the commit removes and does
    /// not add while another edge between the same ends under the same
    /// label stays: the indexes hold one entry for both.
    pub proof fn lemma_index_agrees_with_edges(
        self,
        idx: Indexes,
        start_id: u64,
        graph_id: u64,
        t: Delta,
    )
        requires
            self.wf(),
            linked_forward(idx, t) <==> triples_of(self.old_edges()).contains(t),
            linked_reverse(idx, t) <==> triples_of(self.old_edges()).contains(t),
            !({
                let c = self.commit(start_id, graph_id);
                &&& c.rem_edges.contains(t)
                &&& !c.add_edges.contains(t)
                &&& triples_of(c.prepared.edges).contains(t)
            }),
        ensures
            linked_forward(idx.commit(self.commit(start_id, graph_id)), t) <==> triples_of(
                self.commit(start_id, graph_id).prepared.edges,
            ).contains(t),
            linked_reverse(idx.commit(self.commit(start_id, graph_id)), t) <==> triples_of(
                self.commit(start_id, graph_id).prepared.edges,
            ).contains(t),
    {
        let n = self.edges.slots.len() as int;
        let c = self.commit(start_id, graph_id);
        let old = triples_of(self.old_edges());
        let new = triples_of(c.prepared.edges);
        lemma_commit_edge_membership(idx, c, t);
        self.lemma_edge_phase(start_id, n, t);
        if new.contains(t) && !c.add_edges.contains(t) {
            // an edge that is persisted and not added was loaded as it is
            let k = choose|k: int| 0 <= k < n && self.persists(start_id, k, t);
            let o = self.edge_outcome(start_id, k);
            if o.add.len() > 0 {
                assert(o.add[0] == t);
                assert(o.add.contains(t));
            }
            assert(old[k] == t);
        }
        if old.contains(t) && !c.rem_edges.contains(t) {
            // an edge that was loaded and is not removed is persisted as it was
            let k = choose|k: int| 0 <= k < old.len() && old[k] == t;
            let o = self.edge_outcome(start_id, k);
            if o.rem.len() > 0 {
                assert(o.rem[0] == t);
                assert(o.rem.contains(t));
            }
            assert(self.persists(start_id, k, t));
        }
        if c.add_edges.contains(t) {
            let k = choose|k: int|
                0 <= k < n && #[trigger] self.edge_outcome(start_id, k).add.contains(t);
            let o = self.edge_outcome(start_id, k);
            let a = choose|a: int| 0 <= a < o.add.len() && o.add[a] == t;
            assert(self.persists(start_id, k, t));
        }
        if c.rem_edges.contains(t) {
            let k = choose|k: int|
                0 <= k < n && #[trigger] self.edge_outcome(start_id, k).rem.contains(t);
            let o = self.edge_outcome(start_id, k);
            let a = choose|a: int| 0 <= a < o.rem.len() && o.rem[a] == t;
            assert(old[k] == t);
        }
    }

    /// The updates of a slot name the vertex of the slot: what is added is
    /// added under the id that the vertex is persisted with, what is removed
    /// is removed under the id of the vertex that was loaded into the slot.
    pub proof fn lemma_outcome_ids(self, start_id: u64, j: int, d: Delta)
        requires
            self.wf(),
            0 <= j < self.vertices.slots.len(),
        ensures
            self.vertex_outcome(start_id, j).add.contains(d) ==> self.vertices.occupied(j) && d.0
                == self.global_of(start_id, j),
            self.vertex_outcome(start_id, j).rem.contains(d) ==> j < self.old_vertices().len()
                && d.0 == self.old_vertices()[j].id,
            self.vertex_outcome(start_id, j).record matches Some(r) ==> r.id == self.global_of(
                start_id,
                j,
            ),
    {
        let o = self.vertex_outcome(start_id, j);
        let slot = self.vertices.slots[j];
        let before = self.old_vertices()[j];
        if j < self.old_vertices().len() && slot.generation == 0 && slot.item is Some {
            assert(self.carried(j));
            let v = slot.item->0;
            if v.attributes != before.attrs {
                let ok = keys_of(before.attrs);
                let nk = keys_of(o.record->0.attrs);
                lemma_tagged(v.global_id->0, added_from(ok, nk, 0, 0), d);
                lemma_tagged(v.global_id->0, removed_from(ok, nk, 0, 0), d);
            }
        } else {
            if j < self.old_vertices().len() {
                lemma_tagged(before.id, keys_of(before.attrs), d);
            }
            if slot.item is Some {
                lemma_tagged(self.new_id(start_id, j), keys_of(o.record->0.attrs), d);
            }
        }
    }

    /// Two occupied slots are persisted under two ids.
    pub proof fn lemma_one_slot_per_id(self, start_id: u64, i: int, j: int)
        requires
            self.wf(),
            start_id + self.fresh <= u64::MAX,
            self.separate_ids(start_id),
            self.vertices.occupied(i),
            self.vertices.occupied(j),
            self.global_of(start_id, i) == self.global_of(start_id, j),
        ensures
            i == j,
    {
        let n = self.vertices.slots.len() as int;
        self.lemma_commit_ids(start_id, 0);
        if i != j {
            if self.carried(i) && self.carried(j) {
                if i < j {
                    assert(self.old_vertices()[i].id != self.old_vertices()[j].id);
                } else {
                    assert(self.old_vertices()[j].id != self.old_vertices()[i].id);
                }
            } else if self.carried(i) {
                lemma_fresh_grows(self, j, n);
                assert(!(start_id <= self.old_vertices()[i].id < start_id + self.fresh));
            } else if self.carried(j) {
                lemma_fresh_grows(self, i, n);
                assert(!(start_id <= self.old_vertices()[j].id < start_id + self.fresh));
            } else {
                assert(is_fresh(self.vertices.slots[i]));
                assert(is_fresh(self.vertices.slots[j]));
                if i < j {
                    assert(self.new_id(start_id, i) < self.new_id(start_id, j));
                } else {
                    assert(self.new_id(start_id, j) < self.new_id(start_id, i));
                }
            }
        }
    }

    /// The commit of a graph touches the entries of its own vertices only:
    /// an id that is neither one of the loaded vertices nor one of the new
    /// ids is filed after the commit as it was before.
    pub proof fn lemma_other_vertices_stay_filed(
        self,
        idx: Indexes,
        start_id: u64,
        graph_id: u64,
        id: u64,
        key: Key,
    )
        requires
            self.wf(),
            start_id + self.fresh <= u64::MAX,
            !(start_id <= id < start_id + self.fresh),
            forall|p: int|
                0 <= p < self.old_vertices().len() ==> (#[trigger] self.old_vertices()[p]).id != id,
        ensures
            filed(idx.commit(self.commit(start_id, graph_id)), id, key) == filed(idx, id, key),
    {
        let n = self.vertices.slots.len() as int;
        let c = self.commit(start_id, graph_id);
        let d = (id, key.0, key.1);
        lemma_commit_membership(idx, c, id, key);
        self.lemma_phase_deltas(start_id, n, d);
        if c.add_attrs.contains(d) {
            let j = choose|j: int|
                0 <= j < n && #[trigger] self.vertex_outcome(start_id, j).add.contains(d);
            self.lemma_outcome_ids(start_id, j, d);
            if self.carried(j) {
                assert(self.old_vertices()[j].id == id);
            } else {
                lemma_fresh_grows(self, j, n);
            }
        }
        if c.rem_attrs.contains(d) {
            let j = choose|j: int|
                0 <= j < n && #[trigger] self.vertex_outcome(start_id, j).rem.contains(d);
            self.lemma_outcome_ids(start_id, j, d);
            assert(self.old_vertices()[j].id == id);
        }
    }

    /// A vertex that was loaded and is gone is filed nowhere after the
    /// commit, where its id is its own.
    pub proof fn lemma_deleted_vertex_is_filed_nowhere(
        self,
        idx: Indexes,
        start_id: u64,
        graph_id: u64,
        p: int,
    )
        requires
            self.wf(),
            start_id + self.fresh <= u64::MAX,
            self.separate_ids(start_id),
            0 <= p < self.old_vertices().len(),
            !self.carried(p),
            forall|key: Key|
                #[trigger] filed(idx, self.old_vertices()[p].id, key) <==> keys_of(
                    self.old_vertices()[p].attrs,
                ).contains(key),
        ensures
            forall|key: Key|
                !#[trigger] filed(
                    idx.commit(self.commit(start_id, graph_id)),
                    self.old_vertices()[p].id,
                    key,
                ),
    {
        let n = self.vertices.slots.len() as int;
        let c = self.commit(start_id, graph_id);
        let before = self.old_vertices()[p];
        let id = before.id;
        self.lemma_commit_ids(start_id, graph_id);
        assert forall|key: Key| !#[trigger] filed(idx.commit(c), id, key) by {
            let d = (id, key.0, key.1);
            lemma_commit_membership(idx, c, id, key);
            self.lemma_phase_deltas(start_id, n, d);
            if c.add_attrs.contains(d) {
                let j = choose|j: int|
                    0 <= j < n && #[trigger] self.vertex_outcome(start_id, j).add.contains(d);
                self.lemma_outcome_ids(start_id, j, d);
                if self.carried(j) {
                    if j < p {
                        assert(self.old_vertices()[j].id != self.old_vertices()[p].id);
                    } else {
                        assert(self.old_vertices()[p].id != self.old_vertices()[j].id);
                    }
                } else {
                    lemma_fresh_grows(self, j, n);
                    assert(!(start_id <= self.old_vertices()[p].id < start_id + self.fresh));
                }
            }
            if keys_of(before.attrs).contains(key) {
                lemma_tagged(id, keys_of(before.attrs), d);
                assert(self.vertex_outcome(start_id, p).rem.contains(d));
            }
        }
    }
}

/// The new id of a fresh slot is one of the ids that the commit hands out.
proof fn lemma_fresh_grows(g: Graph, i: int, n: int)
    requires
        g.wf(),
        n == g.vertices.slots.len(),
        0 <= i < n,
        g.vertices.occupied(i),
        !g.carried(i),
    ensures
        fresh_before(g.vertices.slots, i) < g.fresh,
{
    lemma_fresh_before_grows(g.vertices.slots, i + 1, n);
    assert(is_fresh(g.vertices.slots[i]));
}

/// What is in the join of two lists is in one of them.
pub proof fn lemma_contains_add<T>(a: Seq<T>, b: Seq<T>, d: T)
    ensures
        (a + b).contains(d) <==> a.contains(d) || b.contains(d),
{
    let both = a + b;
    if both.contains(d) {
        let k = choose|k: int| 0 <= k < both.len() && both[k] == d;
        if k < a.len() {
            assert(a[k] == d);
        } else {
            assert(b[k - a.len()] == d);
        }
    }
    if a.contains(d) {
        let k = choose|k: int| 0 <= k < a.len() && a[k] == d;
        assert(both[k] == d);
    }
    if b.contains(d) {
        let k = choose|k: int| 0 <= k < b.len() && b[k] == d;
        assert(both[a.len() + k] == d);
    }
}

/// The order of keys, a key counted as not behind itself.
pub open spec fn key_le() -> spec_fn(Key, Key) -> bool {
    |a: Key, b: Key| !key_lt(b, a)
}

/// The order of keys is a total order.
pub proof fn lemma_key_order()
    ensures
        total_ordering(key_le()),
{
    let leq = key_le();
    assert forall|a: Key, b: Key| #[trigger] leq(a, b) && leq(b, a) implies a == b by {
        assert(a.0 == b.0 && a.1 == b.1);
    }
    assert(vstd::relations::reflexive(leq));
    assert(vstd::relations::antisymmetric(leq));
    assert(vstd::relations::transitive(leq));
    assert(vstd::relations::strongly_connected(leq));
}

/// Putting an attribute into a list that is sorted by key gives a list that
/// is sorted by key, with the key of the attribute among its keys once more.
pub proof fn lemma_insert_by_key(sorted: Seq<Attribute>, a: Attribute)
    requires
        sorted_by(keys_of(sorted), key_le()),
    ensures
        sorted_by(keys_of(insert_by_key(sorted, a)), key_le()),
        keys_of(insert_by_key(sorted, a)).to_multiset() == keys_of(sorted).to_multiset().insert(
            key_of(a),
        ),
    decreases sorted.len(),
{
    let leq = key_le();
    let r = insert_by_key(sorted, a);
    if sorted.len() == 0 {
        assert(keys_of(r) =~= Seq::<Key>::empty().push(key_of(a)));
        assert(keys_of(sorted) =~= Seq::<Key>::empty());
    } else if key_lt(key_of(a), key_of(sorted.last())) {
        let front = sorted.drop_last();
        let last = sorted.last();
        assert(keys_of(front) =~= keys_of(sorted).drop_last());
        assert forall|i: int, j: int| 0 <= i < j < keys_of(front).len() implies #[trigger] leq(
            keys_of(front)[i],
            keys_of(front)[j],
        ) by {
            assert(leq(keys_of(sorted)[i], keys_of(sorted)[j]));
        }
        lemma_insert_by_key(front, a);
        let inner = insert_by_key(front, a);
        assert(keys_of(r) =~= keys_of(inner).push(key_of(last)));
        assert(keys_of(sorted) =~= keys_of(front).push(key_of(last)));
        assert(keys_of(inner).to_multiset().insert(key_of(last)) =~= keys_of(
            front,
        ).to_multiset().insert(key_of(last)).insert(key_of(a)));
        // every key before the last one is a key of the front or the new key
        assert forall|i: int, j: int| 0 <= i < j < keys_of(r).len() implies #[trigger] leq(
            keys_of(r)[i],
            keys_of(r)[j],
        ) by {
            if j < keys_of(inner).len() {
                assert(leq(keys_of(inner)[i], keys_of(inner)[j]));
            } else {
                let k = keys_of(inner)[i];
                assert(keys_of(inner).to_multiset().count(k) > 0);
                if k != key_of(a) {
                    assert(keys_of(front).to_multiset().count(k) > 0);
                    assert(keys_of(front).contains(k));
                    let m = choose|m: int| 0 <= m < keys_of(front).len() && keys_of(front)[m] == k;
                    assert(leq(keys_of(sorted)[m], keys_of(sorted)[sorted.len() - 1]));
                }
            }
        }
    } else {
        assert(keys_of(r) =~= keys_of(sorted).push(key_of(a)));
        assert forall|i: int, j: int| 0 <= i < j < keys_of(r).len() implies #[trigger] leq(
            keys_of(r)[i],
            keys_of(r)[j],
        ) by {
            if j < keys_of(sorted).len() {
                assert(leq(keys_of(sorted)[i], keys_of(sorted)[j]));
            } else if i < sorted.len() - 1 {
                assert(leq(keys_of(sorted)[i], keys_of(sorted)[sorted.len() - 1]));
            }
        }
    }
}

/// Sorting by key gives a list that is sorted by key and has the keys of
/// the list that was sorted, each as often.
pub proof fn lemma_sorted_by_key(attrs: Seq<Attribute>)
    ensures
        sorted_by(keys_of(sorted_by_key(attrs)), key_le()),
        keys_of(sorted_by_key(attrs)).to_multiset() == keys_of(attrs).to_multiset(),
    decreases attrs.len(),
{
    if attrs.len() == 0 {
        assert(keys_of(attrs) =~= keys_of(sorted_by_key(attrs)));
    } else {
        let front = attrs.drop_last();
        lemma_sorted_by_key(front);
        lemma_insert_by_key(sorted_by_key(front), attrs.last());
        assert(keys_of(attrs) =~= keys_of(front).push(key_of(attrs.last())));
    }
}

/// A walk over a list of keys and itself removes nothing and adds nothing.
pub proof fn lemma_walk_over_same(keys: Seq<Key>, i: int)
    requires
        0 <= i <= keys.len(),
    ensures
        removed_from(keys, keys, i, i) == Seq::<Key>::empty(),
        added_from(keys, keys, i, i) == Seq::<Key>::empty(),
    decreases keys.len() - i,
{
    if i < keys.len() {
        lemma_walk_over_same(keys, i + 1);
    }
}

/// A vertex whose attributes have the keys of the attributes it was loaded
/// with, each as often, gives no update of the index, in whatever order its
/// attributes stand: once they are sorted, the walk over the old and the
/// new keys removes nothing and adds nothing. This is stated for old
/// attributes that are sorted by key, as persisted attributes are.
pub proof fn lemma_same_keys_give_no_update(old: Seq<Attribute>, new: Seq<Attribute>)
    requires
        sorted_by(keys_of(old), key_le()),
        keys_of(new).to_multiset() == keys_of(old).to_multiset(),
    ensures
        removed_from(keys_of(old), keys_of(sorted_by_key(new)), 0, 0) == Seq::<Key>::empty(),
        added_from(keys_of(old), keys_of(sorted_by_key(new)), 0, 0) == Seq::<Key>::empty(),
{
    lemma_key_order();
    lemma_sorted_by_key(new);
    lemma_sorted_unique(keys_of(old), keys_of(sorted_by_key(new)), key_le());
    lemma_walk_over_same(keys_of(old), 0);
}

impl Graph {
    /// Persisted attributes are sorted by key: where those of every loaded
    /// vertex are, those of every vertex that a commit persists are.
    pub proof fn lemma_commit_sorts_attributes(self, start_id: u64, graph_id: u64)
        requires
            self.wf(),
            forall|p: int|
                0 <= p < self.old_vertices().len() ==> sorted_by(
                    keys_of((#[trigger] self.old_vertices()[p]).attrs),
                    key_le(),
                ),
        ensures
            forall|k: int|
                0 <= k < self.commit(start_id, graph_id).prepared.vertices.len() ==> sorted_by(
                    keys_of((#[trigger] self.commit(start_id, graph_id).prepared.vertices[k]).attrs),
                    key_le(),
                ),
    {
        let n = self.vertices.slots.len() as int;
        let c = self.commit(start_id, graph_id);
        self.lemma_records_have_slots(start_id, n);
        assert forall|k: int| 0 <= k < c.prepared.vertices.len() implies sorted_by(
            keys_of((#[trigger] c.prepared.vertices[k]).attrs),
            key_le(),
        ) by {
            let r = c.prepared.vertices[k];
            let i = choose|i: int|
                0 <= i < n && self.vertex_outcome(start_id, i).record == Some(r);
            let slot = self.vertices.slots[i];
            lemma_sorted_by_key(slot.item->0.attributes);
            if i < self.old_vertices().len() {
                assert(sorted_by(keys_of(self.old_vertices()[i].attrs), key_le()));
            }
        }
    }
}

} // verus!
