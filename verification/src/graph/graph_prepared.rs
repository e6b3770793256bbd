use crate::graph::graph_builder::{
    fresh_before, is_fresh, lemma_fresh_before_grows, vertex_arena, vertex_slot, EdgeData,
    GlobalVertexId, Graph, GraphBuilder, GraphId, Vertex, VertexData,
};
use crate::props::properties::PropertyHandle;
use crate::utils::generational_vector::{GenVec, Handle, Slot};
use crate::utils::values::{Primitive, Scalar};
use std::collections::HashMap;
use vstd::prelude::*;

verus! {

broadcast use vstd::std_specs::hash::group_hash_axioms;

/// A persisted vertex: its global id and its attributes.
#[derive(Debug)]
pub struct PreparedVertex {
    pub id: GlobalVertexId,
    pub attrs: Vec<(PropertyHandle, Primitive)>,
}

/// A persisted edge, by the global ids of its ends.
#[derive(Clone, Copy, Debug, PartialEq, Eq, Structural)]
pub struct PreparedEdge {
    pub from: GlobalVertexId,
    pub label: PropertyHandle,
    pub to: GlobalVertexId,
}

/// A persisted graph: what is stored of a committed graph.
#[derive(Debug)]
pub struct PreparedGraph {
    pub id: GraphId,
    pub vertices: Vec<PreparedVertex>,
    pub edges: Vec<PreparedEdge>,
}

/// An attribute by its content: the property and the value it holds.
pub type Attribute = (PropertyHandle, Scalar);

/// A list of attributes, by content.
pub open spec fn attributes_of(attrs: Seq<(PropertyHandle, Primitive)>) -> Seq<Attribute> {
    attrs.map_values(|a: (PropertyHandle, Primitive)| (a.0, a.1@))
}

/// The content of a persisted vertex.
pub struct VertexRecord {
    pub id: GlobalVertexId,
    pub attrs: Seq<Attribute>,
}

/// The content of a persisted graph.
pub struct GraphRecord {
    pub id: GraphId,
    pub vertices: Seq<VertexRecord>,
    pub edges: Seq<PreparedEdge>,
}

impl View for PreparedVertex {
    type V = VertexRecord;

    open spec fn view(&self) -> VertexRecord {
        VertexRecord { id: self.id, attrs: attributes_of(self.attrs@) }
    }
}

impl View for PreparedGraph {
    type V = GraphRecord;

    open spec fn view(&self) -> GraphRecord {
        GraphRecord {
            id: self.id,
            vertices: self.vertices@.map_values(|v: PreparedVertex| v@),
            edges: self.edges@,
        }
    }
}

impl GraphRecord {
    /// The last position before `n` at which a vertex with the id `id` stands.
    pub open spec fn position_before(self, id: GlobalVertexId, n: int) -> Option<int>
        decreases n,
    {
        if n <= 0 {
            None
        } else if n <= self.vertices.len() && self.vertices[n - 1].id == id {
            Some(n - 1)
        } else {
            self.position_before(id, n - 1)
        }
    }

    /// The position of the vertex that the id `id` names: the last one, where
    /// several vertices share the id.
    pub open spec fn position_of(self, id: GlobalVertexId) -> Option<int> {
        self.position_before(id, self.vertices.len() as int)
    }

    /// Both ends of every edge are vertices of the graph.
    pub open spec fn linked(self) -> bool {
        forall|k: int|
            0 <= k < self.edges.len() ==> self.position_of((#[trigger] self.edges[k]).from) is Some
                && self.position_of(self.edges[k].to) is Some
    }

    /// A position found for an id is in range and holds a vertex with that id.
    pub proof fn lemma_position_before(self, id: GlobalVertexId, n: int)
        ensures
            self.position_before(id, n) matches Some(p) ==> 0 <= p < n && p < self.vertices.len()
                && self.vertices[p].id == id,
        decreases n,
    {
        if n > 0 {
            self.lemma_position_before(id, n - 1);
        }
    }
}

/// The key under which the scalar index files an attribute: property id and value hash.
pub type Key = (u64, u64);

/// One index update: a vertex id with a key, or the two ends of an edge
/// around its label.
pub type Delta = (u64, u64, u64);

/// The index key of an attribute.
pub open spec fn key_of(a: Attribute) -> Key {
    (a.0.0, a.1.fingerprint())
}

/// The index keys of a list of attributes, in the order of the list.
pub open spec fn keys_of(attrs: Seq<Attribute>) -> Seq<Key> {
    attrs.map_values(|a: Attribute| key_of(a))
}

/// The updates that file the vertex `id` under each of `keys`.
pub open spec fn tagged(id: u64, keys: Seq<Key>) -> Seq<Delta> {
    keys.map_values(|k: Key| (id, k.0, k.1))
}

/// The lexicographic order of keys.
pub open spec fn key_lt(a: Key, b: Key) -> bool {
    a.0 < b.0 || (a.0 == b.0 && a.1 < b.1)
}

/// `a` put into the sorted list `sorted`, behind every attribute whose key is not greater.
pub open spec fn insert_by_key(sorted: Seq<Attribute>, a: Attribute) -> Seq<Attribute>
    decreases sorted.len(),
{
    if sorted.len() == 0 {
        seq![a]
    } else if key_lt(key_of(a), key_of(sorted.last())) {
        insert_by_key(sorted.drop_last(), a).push(sorted.last())
    } else {
        sorted.push(a)
    }
}

/// The attributes in ascending order of key, attributes of one key in the
/// order in which they stood.
pub open spec fn sorted_by_key(attrs: Seq<Attribute>) -> Seq<Attribute>
    decreases attrs.len(),
{
    if attrs.len() == 0 {
        Seq::empty()
    } else {
        insert_by_key(sorted_by_key(attrs.drop_last()), attrs.last())
    }
}

/// The key `k` alone, unless `other` holds it.
pub open spec fn unless_in(k: Key, other: Seq<Key>) -> Seq<Key> {
    if other.contains(k) {
        Seq::empty()
    } else {
        seq![k]
    }
}

/// The keys that a walk over both lists, from `old[i]` and `new[j]` on,
/// finds in `old` without a partner in `new`, those left out that `new`
/// holds elsewhere: the keys that are present only in `old`.
pub open spec fn removed_from(old: Seq<Key>, new: Seq<Key>, i: int, j: int) -> Seq<Key>
    decreases old.len() - i + new.len() - j,
{
    if i < 0 || j < 0 || i >= old.len() || j > new.len() {
        Seq::empty()
    } else if j == new.len() {
        unless_in(old[i], new) + removed_from(old, new, i + 1, j)
    } else if old[i] == new[j] {
        removed_from(old, new, i + 1, j + 1)
    } else if key_lt(old[i], new[j]) {
        unless_in(old[i], new) + removed_from(old, new, i + 1, j)
    } else {
        removed_from(old, new, i, j + 1)
    }
}

/// The keys that a walk over both lists, from `old[i]` and `new[j]` on,
/// finds in `new` without a partner in `old`, those left out that `old`
/// holds elsewhere: the keys that are present only in `new`.
pub open spec fn added_from(old: Seq<Key>, new: Seq<Key>, i: int, j: int) -> Seq<Key>
    decreases old.len() - i + new.len() - j,
{
    if i < 0 || j < 0 || j >= new.len() || i > old.len() {
        Seq::empty()
    } else if i == old.len() {
        unless_in(new[j], old) + added_from(old, new, i, j + 1)
    } else if old[i] == new[j] {
        added_from(old, new, i + 1, j + 1)
    } else if key_lt(old[i], new[j]) {
        added_from(old, new, i + 1, j)
    } else {
        unless_in(new[j], old) + added_from(old, new, i, j + 1)
    }
}

/// What the diff makes of one vertex slot.
pub struct VertexOutcome {
    /// The vertex as it is persisted, if the slot holds one.
    pub record: Option<VertexRecord>,
    pub add: Seq<Delta>,
    pub rem: Seq<Delta>,
    pub deleted: Seq<u64>,
}

/// What the diff makes of one edge slot.
pub struct EdgeOutcome {
    /// The edge as it is persisted, if the slot holds one.
    pub record: Option<PreparedEdge>,
    pub add: Seq<Delta>,
    pub rem: Seq<Delta>,
}

/// What the diff has made of the vertex slots it has gone through.
pub struct VertexPhase {
    pub records: Seq<VertexRecord>,
    pub add: Seq<Delta>,
    pub rem: Seq<Delta>,
    pub deleted: Seq<u64>,
}

/// What the diff has made of the edge slots it has gone through.
pub struct EdgePhase {
    pub records: Seq<PreparedEdge>,
    pub add: Seq<Delta>,
    pub rem: Seq<Delta>,
}

/// What a commit writes: the graph as it is persisted, and the updates of the indexes.
pub struct CommitRecord {
    pub graph_id: u64,
    pub prepared: GraphRecord,
    pub add_attrs: Seq<Delta>,
    pub rem_attrs: Seq<Delta>,
    pub add_edges: Seq<Delta>,
    pub rem_edges: Seq<Delta>,
    pub deleted_vertices: Seq<u64>,
}

/// The index update that stands for an edge.
pub open spec fn triple(e: PreparedEdge) -> Delta {
    (e.from, e.label.0, e.to)
}

impl Graph {
    /// The vertices of the graph that the builder was loaded from.
    pub open spec fn old_vertices(self) -> Seq<VertexRecord> {
        match self.loaded {
            Some(g) => g.vertices,
            None => Seq::empty(),
        }
    }

    /// The edges of the graph that the builder was loaded from.
    pub open spec fn old_edges(self) -> Seq<PreparedEdge> {
        match self.loaded {
            Some(g) => g.edges,
            None => Seq::empty(),
        }
    }

    /// Both ends of every staged edge point at an occupied vertex slot.
    pub open spec fn resolvable(self) -> bool {
        forall|k: int|
            0 <= k < self.edges.slots.len() && (#[trigger] self.edges.slots[k]).item is Some ==> {
                &&& self.vertices.occupied(self.edges.slots[k].item->0.from.0.index as int)
                &&& self.vertices.occupied(self.edges.slots[k].item->0.to.0.index as int)
            }
    }

    /// The global id that a commit from `start_id` on gives to a new vertex in slot `i`.
    pub open spec fn new_id(self, start_id: u64, i: int) -> u64 {
        (start_id + fresh_before(self.vertices.slots, i)) as u64
    }

    /// The global id under which the vertex in slot `i` is persisted.
    pub open spec fn global_of(self, start_id: u64, i: int) -> u64 {
        if self.carried(i) {
            self.vertices.slots[i].item->0.global_id->0
        } else {
            self.new_id(start_id, i)
        }
    }

    /// What the diff makes of vertex slot `i`.
    /// * A loaded vertex that is still there keeps its id. With the
    ///   attributes it was loaded with it gives no update; else its
    ///   attributes are sorted and compared with the old ones by a walk over
    ///   both lists: a key that is present only in the old ones is removed,
    ///   a key that is present only in the new ones is added.
    /// * A loaded vertex that is gone is deleted, with all its old attributes.
    /// * A vertex that was not loaded gets the next new id, and every one of
    ///   its attributes is added.
    pub open spec fn vertex_outcome(self, start_id: u64, i: int) -> VertexOutcome {
        let slot = self.vertices.slots[i];
        let was_loaded = i < self.old_vertices().len();
        let before = self.old_vertices()[i];
        if was_loaded && slot.generation == 0 && slot.item is Some {
            let v = slot.item->0;
            let id = v.global_id->0;
            if v.attributes == before.attrs {
                VertexOutcome {
                    record: Some(VertexRecord { id, attrs: before.attrs }),
                    add: Seq::empty(),
                    rem: Seq::empty(),
                    deleted: Seq::empty(),
                }
            } else {
                let sorted = sorted_by_key(v.attributes);
                VertexOutcome {
                    record: Some(VertexRecord { id, attrs: sorted }),
                    add: tagged(id, added_from(keys_of(before.attrs), keys_of(sorted), 0, 0)),
                    rem: tagged(id, removed_from(keys_of(before.attrs), keys_of(sorted), 0, 0)),
                    deleted: Seq::empty(),
                }
            }
        } else {
            let rem = if was_loaded {
                tagged(before.id, keys_of(before.attrs))
            } else {
                Seq::empty()
            };
            let deleted = if was_loaded {
                seq![before.id]
            } else {
                Seq::empty()
            };
            if slot.item is Some {
                let id = self.new_id(start_id, i);
                let sorted = sorted_by_key(slot.item->0.attributes);
                VertexOutcome {
                    record: Some(VertexRecord { id, attrs: sorted }),
                    add: tagged(id, keys_of(sorted)),
                    rem,
                    deleted,
                }
            } else {
                VertexOutcome { record: None, add: Seq::empty(), rem, deleted }
            }
        }
    }

    /// What the diff makes of the first `n` vertex slots.
    pub open spec fn vertex_phase(self, start_id: u64, n: int) -> VertexPhase
        decreases n,
    {
        if n <= 0 {
            VertexPhase {
                records: Seq::empty(),
                add: Seq::empty(),
                rem: Seq::empty(),
                deleted: Seq::empty(),
            }
        } else {
            let p = self.vertex_phase(start_id, n - 1);
            let o = self.vertex_outcome(start_id, n - 1);
            VertexPhase {
                records: match o.record {
                    Some(r) => p.records.push(r),
                    None => p.records,
                },
                add: p.add + o.add,
                rem: p.rem + o.rem,
                deleted: p.deleted + o.deleted,
            }
        }
    }

    /// The staged edge `e` by the global ids of its ends.
    pub open spec fn resolve(self, start_id: u64, e: EdgeData) -> PreparedEdge {
        PreparedEdge {
            from: self.global_of(start_id, e.from.0.index as int),
            label: e.label,
            to: self.global_of(start_id, e.to.0.index as int),
        }
    }

    /// What the diff makes of edge slot `k`.
    /// * A loaded edge that is still there, between the same ends under the
    ///   same label, gives no update; with another end or label the old
    ///   edge is removed and the new one added.
    /// * A loaded edge that is gone is removed.
    /// * An edge that was not loaded is added.
    pub open spec fn edge_outcome(self, start_id: u64, k: int) -> EdgeOutcome {
        let slot = self.edges.slots[k];
        let was_loaded = k < self.old_edges().len();
        let before = self.old_edges()[k];
        if was_loaded && slot.generation == 0 && slot.item is Some {
            let now = self.resolve(start_id, slot.item->0);
            if triple(now) == triple(before) {
                EdgeOutcome { record: Some(before), add: Seq::empty(), rem: Seq::empty() }
            } else {
                EdgeOutcome { record: Some(now), add: seq![triple(now)], rem: seq![triple(before)] }
            }
        } else {
            let rem = if was_loaded {
                seq![triple(before)]
            } else {
                Seq::empty()
            };
            if slot.item is Some {
                let now = self.resolve(start_id, slot.item->0);
                EdgeOutcome { record: Some(now), add: seq![triple(now)], rem }
            } else {
                EdgeOutcome { record: None, add: Seq::empty(), rem }
            }
        }
    }

    /// What the diff makes of the first `n` edge slots.
    pub open spec fn edge_phase(self, start_id: u64, n: int) -> EdgePhase
        decreases n,
    {
        if n <= 0 {
            EdgePhase { records: Seq::empty(), add: Seq::empty(), rem: Seq::empty() }
        } else {
            let p = self.edge_phase(start_id, n - 1);
            let o = self.edge_outcome(start_id, n - 1);
            EdgePhase {
                records: match o.record {
                    Some(r) => p.records.push(r),
                    None => p.records,
                },
                add: p.add + o.add,
                rem: p.rem + o.rem,
            }
        }
    }

    /// What a commit of the builder writes, where new vertices get the ids
    /// from `start_id` on and the graph is persisted as `graph_id`: the
    /// vertices and edges slot by slot, in ascending order of slot.
    pub open spec fn commit(self, start_id: u64, graph_id: u64) -> CommitRecord {
        let vp = self.vertex_phase(start_id, self.vertices.slots.len() as int);
        let ep = self.edge_phase(start_id, self.edges.slots.len() as int);
        CommitRecord {
            graph_id,
            prepared: GraphRecord { id: graph_id, vertices: vp.records, edges: ep.records },
            add_attrs: vp.add,
            rem_attrs: vp.rem,
            add_edges: ep.add,
            rem_edges: ep.rem,
            deleted_vertices: vp.deleted,
        }
    }
}

/// What a commit writes.
#[derive(Debug)]
pub struct GraphCommitData {
    pub graph_id: u64,
    /// The graph as it is persisted.
    pub prepared_graph: PreparedGraph,
    /// (vertex id, prop id, value hash)
    pub add_attrs: Vec<(u64, u64, u64)>,
    pub rem_attrs: Vec<(u64, u64, u64)>,
    /// (from, label, to)
    pub add_edges: Vec<(u64, u64, u64)>,
    pub rem_edges: Vec<(u64, u64, u64)>,
    /// vertex id
    pub deleted_vertices: Vec<u64>,
}

impl View for GraphCommitData {
    type V = CommitRecord;

    open spec fn view(&self) -> CommitRecord {
        CommitRecord {
            graph_id: self.graph_id,
            prepared: self.prepared_graph@,
            add_attrs: self.add_attrs@,
            rem_attrs: self.rem_attrs@,
            add_edges: self.add_edges@,
            rem_edges: self.rem_edges@,
            deleted_vertices: self.deleted_vertices@,
        }
    }
}

/// The persisted vertices by content.
pub open spec fn records_of(vertices: Seq<PreparedVertex>) -> Seq<VertexRecord> {
    vertices.map_values(|v: PreparedVertex| v@)
}

/// What `insert_by_key` gives where the place of the attribute is known: it
/// stands at `j` where the keys from `j` on are greater than its key and the
/// key before `j` is not.
proof fn lemma_insert_by_key_at(sorted: Seq<Attribute>, a: Attribute, j: int)
    requires
        0 <= j <= sorted.len(),
        forall|k: int| j <= k < sorted.len() ==> key_lt(key_of(a), key_of(sorted[k])),
        j > 0 ==> !key_lt(key_of(a), key_of(sorted[j - 1])),
    ensures
        insert_by_key(sorted, a) == sorted.take(j).push(a) + sorted.skip(j),
    decreases sorted.len() - j,
{
    if j == sorted.len() {
        assert(sorted.take(j).push(a) + sorted.skip(j) =~= sorted.push(a));
    } else {
        let front = sorted.drop_last();
        assert(key_lt(key_of(a), key_of(sorted[sorted.len() - 1])));
        lemma_insert_by_key_at(front, a, j);
        assert((front.take(j).push(a) + front.skip(j)).push(sorted.last()) =~= sorted.take(
            j,
        ).push(a) + sorted.skip(j));
    }
}

/// The attributes in ascending order of key (property id, then value hash),
/// attributes of one key in the order in which they stood. Each attribute
/// is hashed once, and put behind the attributes whose key is not greater.
fn sorted_attributes(attrs: Vec<(PropertyHandle, Primitive)>) -> (out: Vec<
    (PropertyHandle, Primitive),
>)
    ensures
        attributes_of(out@) == sorted_by_key(attributes_of(attrs@)),
{
    let ghost all = attributes_of(attrs@);
    let mut attrs = attrs;
    let mut out: Vec<(PropertyHandle, Primitive)> = Vec::new();
    let mut keys: Vec<(u64, u64)> = Vec::new();
    let n = attrs.len();
    let mut i: usize = 0;
    proof {
        assert(all.take(0) =~= Seq::empty());
        assert(attributes_of(out@) =~= Seq::empty());
        assert(keys@ =~= keys_of(attributes_of(out@)));
    }
    while i < n
        invariant
            i <= n,
            n == attrs@.len(),
            n == all.len(),
            forall|k: int| i <= k < n ==> attributes_of(attrs@)[k] == all[k],
            attributes_of(out@) == sorted_by_key(all.take(i as int)),
            keys@ == keys_of(attributes_of(out@)),
            out@.len() == i,
        decreases n - i,
    {
        let ghost before = attributes_of(out@);
        let ghost held = attrs@;
        let mut x = (PropertyHandle(0), Primitive::UInt(0));
        assert(attributes_of(held)[i as int] == all[i as int]);
        std::mem::swap(&mut x, &mut attrs[i]);
        assert(x == held[i as int]);
        let key = (x.0.0, x.1.hash());
        assert(key == key_of(all[i as int]));
        let mut j: usize = keys.len();
        while j > 0 && (key.0 < keys[j - 1].0 || (key.0 == keys[j - 1].0 && key.1 < keys[j - 1].1))
            invariant
                j <= keys@.len(),
                forall|k: int| j <= k < keys@.len() ==> key_lt(key, keys@[k]),
            decreases j,
        {
            j -= 1;
        }
        proof {
            assert forall|k: int| j <= k < before.len() implies key_lt(
                key_of(all[i as int]),
                key_of(before[k]),
            ) by {
                assert(keys@[k] == key_of(before[k]));
            }
            if j > 0 {
                assert(keys@[j - 1] == key_of(before[j - 1]));
            }
            lemma_insert_by_key_at(before, all[i as int], j as int);
            assert(all.take(i + 1).drop_last() =~= all.take(i as int));
        }
        out.insert(j, x);
        keys.insert(j, key);
        proof {
            let after = attributes_of(out@);
            assert(after =~= before.take(j as int).push(all[i as int]) + before.skip(j as int));
            assert(keys@ =~= keys_of(after));
            assert forall|k: int| i + 1 <= k < n implies attributes_of(attrs@)[k] == all[k] by {
                assert(attrs@[k] == held[k]);
                assert(attributes_of(held)[k] == all[k]);
            }
        }
        i += 1;
    }
    assert(all.take(n as int) =~= all);
    out
}

/// Whether both lists hold the same attributes in the same order.
fn same_attributes(a: &Vec<(PropertyHandle, Primitive)>, b: &Vec<(PropertyHandle, Primitive)>) -> (r:
    bool)
    ensures
        r == (attributes_of(a@) == attributes_of(b@)),
{
    if a.len() != b.len() {
        assert(attributes_of(a@).len() != attributes_of(b@).len());
        return false;
    }
    let mut i: usize = 0;
    while i < a.len()
        invariant
            i <= a.len(),
            a.len() == b.len(),
            forall|j: int| 0 <= j < i ==> attributes_of(a@)[j] == attributes_of(b@)[j],
        decreases a.len() - i,
    {
        if !(a[i].0 == b[i].0 && a[i].1 == b[i].1) {
            assert(attributes_of(a@)[i as int] != attributes_of(b@)[i as int]);
            return false;
        }
        i += 1;
    }
    assert(attributes_of(a@) =~= attributes_of(b@));
    true
}

/// Appends to `out` one update of the vertex `id` for each attribute.
fn push_tagged(out: &mut Vec<(u64, u64, u64)>, id: u64, attrs: &Vec<(PropertyHandle, Primitive)>)
    ensures
        final(out)@ == old(out)@ + tagged(id, keys_of(attributes_of(attrs@))),
{
    let ghost keys = keys_of(attributes_of(attrs@));
    let mut i: usize = 0;
    assert(out@ =~= old(out)@ + tagged(id, keys.take(0)));
    while i < attrs.len()
        invariant
            i <= attrs.len(),
            keys == keys_of(attributes_of(attrs@)),
            out@ == old(out)@ + tagged(id, keys.take(i as int)),
        decreases attrs.len() - i,
    {
        let h = attrs[i].1.hash();
        out.push((id, attrs[i].0.0, h));
        proof {
            assert(keys[i as int] == (attrs@[i as int].0.0, h));
            assert(out@ =~= old(out)@ + tagged(id, keys.take(i + 1)));
        }
        i += 1;
    }
    assert(keys.take(i as int) =~= keys);
}

/// The index keys of the attributes, each attribute hashed once.
fn keys_of_attributes(attrs: &Vec<(PropertyHandle, Primitive)>) -> (keys: Vec<(u64, u64)>)
    ensures
        keys@ == keys_of(attributes_of(attrs@)),
{
    let mut keys: Vec<(u64, u64)> = Vec::new();
    let mut i: usize = 0;
    while i < attrs.len()
        invariant
            i <= attrs.len(),
            keys@ == keys_of(attributes_of(attrs@)).take(i as int),
        decreases attrs.len() - i,
    {
        keys.push((attrs[i].0.0, attrs[i].1.hash()));
        assert(keys@ =~= keys_of(attributes_of(attrs@)).take(i + 1));
        i += 1;
    }
    assert(keys_of(attributes_of(attrs@)).take(i as int) =~= keys_of(attributes_of(attrs@)));
    keys
}

/// Whether the list holds the key.
fn holds_key(keys: &Vec<(u64, u64)>, k: (u64, u64)) -> (r: bool)
    ensures
        r == keys@.contains(k),
{
    let mut i: usize = 0;
    while i < keys.len()
        invariant
            i <= keys.len(),
            forall|j: int| 0 <= j < i ==> keys@[j] != k,
        decreases keys.len() - i,
    {
        if keys[i].0 == k.0 && keys[i].1 == k.1 {
            assert(keys@[i as int] == k);
            return true;
        }
        i += 1;
    }
    false
}

/// Walks over the old and the new attributes of the vertex `id`, both in
/// ascending order of key, and appends what is present on one side only:
/// to `rem` from the old ones, to `add` from the new ones.
fn merge_attributes(
    id: u64,
    old_attrs: &Vec<(PropertyHandle, Primitive)>,
    new_attrs: &Vec<(PropertyHandle, Primitive)>,
    add: &mut Vec<(u64, u64, u64)>,
    rem: &mut Vec<(u64, u64, u64)>,
)
    ensures
        final(add)@ == old(add)@ + tagged(
            id,
            added_from(keys_of(attributes_of(old_attrs@)), keys_of(attributes_of(new_attrs@)), 0, 0),
        ),
        final(rem)@ == old(rem)@ + tagged(
            id,
            removed_from(
                keys_of(attributes_of(old_attrs@)),
                keys_of(attributes_of(new_attrs@)),
                0,
                0,
            ),
        ),
{
    let old_keys = keys_of_attributes(old_attrs);
    let new_keys = keys_of_attributes(new_attrs);
    let ghost ok = old_keys@;
    let ghost nk = new_keys@;
    let ghost all_add = tagged(id, added_from(ok, nk, 0, 0));
    let ghost all_rem = tagged(id, removed_from(ok, nk, 0, 0));
    let mut i: usize = 0;
    let mut j: usize = 0;
    while i < old_keys.len() || j < new_keys.len()
        invariant
            i <= old_keys.len(),
            j <= new_keys.len(),
            ok == old_keys@,
            nk == new_keys@,
            all_add == tagged(id, added_from(ok, nk, 0, 0)),
            all_rem == tagged(id, removed_from(ok, nk, 0, 0)),
            add@ + tagged(id, added_from(ok, nk, i as int, j as int)) == old(add)@ + all_add,
            rem@ + tagged(id, removed_from(ok, nk, i as int, j as int)) == old(rem)@ + all_rem,
        decreases old_keys.len() - i + new_keys.len() - j,
    {
        let ghost add0 = add@;
        let ghost rem0 = rem@;
        let ghost i0 = i as int;
        let ghost j0 = j as int;
        // which side moves on: the old one where its key is the smaller or
        // the new side is done, the new one where its key is the smaller or
        // the old side is done, both where the keys are the same
        let from_old = j >= new_keys.len() || (i < old_keys.len() && (old_keys[i].0 < new_keys[j].0
            || (old_keys[i].0 == new_keys[j].0 && old_keys[i].1 < new_keys[j].1)));
        let same = i < old_keys.len() && j < new_keys.len() && old_keys[i].0 == new_keys[j].0
            && old_keys[i].1 == new_keys[j].1;
        if same {
            // the attr was unchanged
            assert(ok[i0] == nk[j0]);
            i += 1;
            j += 1;
        } else if from_old {
            // the old attr has no match here: it was removed unless it is still there
            let k = old_keys[i];
            if !holds_key(&new_keys, k) {
                rem.push((id, k.0, k.1));
            }
            i += 1;
            proof {
                assert(rem@ + tagged(id, removed_from(ok, nk, i0 + 1, j0)) =~= rem0 + tagged(
                    id,
                    removed_from(ok, nk, i0, j0),
                ));
                assert(added_from(ok, nk, i0 + 1, j0) =~= added_from(ok, nk, i0, j0));
            }
        } else {
            // the new attr has no match here: it was added unless it was there before
            let k = new_keys[j];
            if !holds_key(&old_keys, k) {
                add.push((id, k.0, k.1));
            }
            j += 1;
            proof {
                assert(add@ + tagged(id, added_from(ok, nk, i0, j0 + 1)) =~= add0 + tagged(
                    id,
                    added_from(ok, nk, i0, j0),
                ));
                assert(removed_from(ok, nk, i0, j0 + 1) =~= removed_from(ok, nk, i0, j0));
            }
        }
    }
    proof {
        assert(add@ + tagged(id, added_from(ok, nk, i as int, j as int)) =~= add@);
        assert(rem@ + tagged(id, removed_from(ok, nk, i as int, j as int)) =~= rem@);
    }
}

/// Sorts the attributes of a vertex that is persisted under the new id `id`,
/// records the vertex, and adds each of its attributes to the index updates.
fn emit_new_vertex(
    v: &mut VertexData,
    id: u64,
    out: &mut Vec<PreparedVertex>,
    add: &mut Vec<(u64, u64, u64)>,
)
    ensures
        final(v).global_id == old(v).global_id,
        final(v).incoming_edges == old(v).incoming_edges,
        final(v).outgoing_edges == old(v).outgoing_edges,
        records_of(final(out)@) == records_of(old(out)@).push(
            VertexRecord { id, attrs: sorted_by_key(old(v)@.attributes) },
        ),
        final(add)@ == old(add)@ + tagged(id, keys_of(sorted_by_key(old(v)@.attributes))),
{
    let mut taken: Vec<(PropertyHandle, Primitive)> = Vec::new();
    std::mem::swap(&mut taken, &mut v.attributes);
    let new_attrs = sorted_attributes(taken);
    push_tagged(add, id, &new_attrs);  // add all new attributes
    let record = PreparedVertex { id, attrs: new_attrs };
    let ghost before = out@;
    out.push(record);
    assert(records_of(out@) =~= records_of(before).push(record@));
}

/// Compares a loaded vertex that is still there with what it was loaded
/// as, records it under its old id, and appends the index updates.
fn emit_continued_vertex(
    v: &mut VertexData,
    id: u64,
    before: &PreparedVertex,
    out: &mut Vec<PreparedVertex>,
    add: &mut Vec<(u64, u64, u64)>,
    rem: &mut Vec<(u64, u64, u64)>,
)
    ensures
        final(v).global_id == old(v).global_id,
        final(v).incoming_edges == old(v).incoming_edges,
        final(v).outgoing_edges == old(v).outgoing_edges,
        old(v)@.attributes == before@.attrs ==> {
            &&& records_of(final(out)@) == records_of(old(out)@).push(
                VertexRecord { id, attrs: before@.attrs },
            )
            &&& final(add)@ == old(add)@
            &&& final(rem)@ == old(rem)@
        },
        old(v)@.attributes != before@.attrs ==> {
            let sorted = sorted_by_key(old(v)@.attributes);
            &&& records_of(final(out)@) == records_of(old(out)@).push(
                VertexRecord { id, attrs: sorted },
            )
            &&& final(add)@ == old(add)@ + tagged(
                id,
                added_from(keys_of(before@.attrs), keys_of(sorted), 0, 0),
            )
            &&& final(rem)@ == old(rem)@ + tagged(
                id,
                removed_from(keys_of(before@.attrs), keys_of(sorted), 0, 0),
            )
        },
{
    let unchanged = same_attributes(&v.attributes, &before.attrs);
    let mut taken: Vec<(PropertyHandle, Primitive)> = Vec::new();
    std::mem::swap(&mut taken, &mut v.attributes);
    let new_attrs = if unchanged {
        taken
    } else {
        // vertex was changed
        let sorted = sorted_attributes(taken);  // sort by attribute id
        // find which attributes were changed
        merge_attributes(id, &before.attrs, &sorted, add, rem);
        sorted
    };
    let record = PreparedVertex { id, attrs: new_attrs };
    let ghost was = out@;
    out.push(record);
    assert(records_of(out@) =~= records_of(was).push(record@));
}

/// Goes through the vertex slots in ascending order: records what is
/// persisted of each, gathers the updates of the scalar index and the
/// deleted vertices, and maps each occupied slot to its global id.
fn diff_vertices(
    vertices: &mut GenVec<VertexData>,
    old_vertices: &Vec<PreparedVertex>,
    start_id: u64,
    Ghost(g): Ghost<Graph>,
) -> (r: (
    Vec<PreparedVertex>,
    HashMap<usize, u64>,
    Vec<(u64, u64, u64)>,
    Vec<(u64, u64, u64)>,
    Vec<u64>,
))
    requires
        g.wf(),
        vertex_arena(old(vertices)@) == g.vertices,
        records_of(old_vertices@) == g.old_vertices(),
        start_id + g.fresh <= u64::MAX,
    ensures
        ({
            let vp = g.vertex_phase(start_id, g.vertices.slots.len() as int);
            &&& records_of(r.0@) == vp.records
            &&& r.2@ == vp.add
            &&& r.3@ == vp.rem
            &&& r.4@ == vp.deleted
        }),
        forall|i: usize|
            #![trigger r.1@.contains_key(i)]
            r.1@.contains_key(i) <==> g.vertices.occupied(i as int),
        forall|i: usize|
            #![trigger r.1@.contains_key(i)]
            r.1@.contains_key(i) ==> r.1@[i] == g.global_of(start_id, i as int),
{
    let mut out: Vec<PreparedVertex> = Vec::new();
    let mut ids: HashMap<usize, u64> = HashMap::new();
    let mut add: Vec<(u64, u64, u64)> = Vec::new();
    let mut rem: Vec<(u64, u64, u64)> = Vec::new();
    let mut deleted: Vec<u64> = Vec::new();
    let mut cursor = start_id;
    let n = vertices.slot_count();
    let mut idx: usize = 0;
    proof {
        assert(records_of(out@) =~= Seq::empty());
    }
    while idx < n
        invariant
            idx <= n,
            n == g.vertices.slots.len(),
            vertices@.slots.len() == n,
            g.wf(),
            records_of(old_vertices@) == g.old_vertices(),
            start_id + g.fresh <= u64::MAX,
            forall|k: int| idx <= k < n ==> vertex_slot(#[trigger] vertices@.slots[k]) == g.vertices.slots[k],
            cursor == start_id + fresh_before(g.vertices.slots, idx as int),
            records_of(out@) == g.vertex_phase(start_id, idx as int).records,
            add@ == g.vertex_phase(start_id, idx as int).add,
            rem@ == g.vertex_phase(start_id, idx as int).rem,
            deleted@ == g.vertex_phase(start_id, idx as int).deleted,
            forall|i: usize|
                #![trigger ids@.contains_key(i)]
                ids@.contains_key(i) <==> i < idx && g.vertices.occupied(i as int),
            forall|i: usize|
                #![trigger ids@.contains_key(i)]
                ids@.contains_key(i) ==> ids@[i] == g.global_of(start_id, i as int),
        decreases n - idx,
    {
        let ghost a0 = vertices@;
        let ghost slot = g.vertices.slots[idx as int];
        let ghost o = g.vertex_outcome(start_id, idx as int);
        let ghost p = g.vertex_phase(start_id, idx as int);
        let ghost ids0 = ids@;
        proof {
            assert(vertex_slot(a0.slots[idx as int]) == slot);
            assert(g.old_vertices().len() == old_vertices@.len());
            lemma_fresh_before_grows(g.vertices.slots, idx + 1, n as int);
            if g.carried(idx as int) {
                assert(g.vertices.slots[idx as int].item is Some);
            }
        }
        let was_loaded = idx < old_vertices.len();
        let mut continued = false;
        if was_loaded {
            let before = &old_vertices[idx];
            assert(before@ == g.old_vertices()[idx as int]);
            // a vertex that might be continued from the old graph
            match vertices.get_mut(Handle { generation: 0, index: idx }) {
                Some(v) => {
                    // vertex was not deleted
                    continued = true;
                    assert(g.carried(idx as int));
                    assert(v@ == slot.item->0);
                    let id = match v.global_id {
                        Some(id) => id,
                        None => 0,
                    };
                    emit_continued_vertex(v, id, before, &mut out, &mut add, &mut rem);
                    ids.insert(idx, id);
                },
                None => {
                    // vertex was deleted
                    deleted.push(before.id);
                    push_tagged(&mut rem, before.id, &before.attrs);  // remove all old attributes
                },
            }
        }
        let ghost a1 = vertices@;
        let ghost ids1 = ids@;
        proof {
            if continued {
                assert(slot.item is Some);
                assert(ids1.contains_key(idx));
                assert(forall|i: usize| i != idx ==> ids1.contains_key(i) == ids0.contains_key(i));
                assert(forall|i: usize| i != idx && ids0.contains_key(i) ==> ids1[i] == ids0[i]);
            } else {
                assert(ids1 == ids0);
            }
            assert(a1.slots.len() == n);
            assert(forall|k: int| idx < k < n ==> a1.slots[k] == a0.slots[k]);
            if !continued {
                assert(a1.slots[idx as int] == a0.slots[idx as int]);
            }
        }
        if !continued {
            match vertices.get_mut_index(idx) {
                Some(v) => {
                    // a vertex that was never persisted
                    assert(v@ == slot.item->0);
                    assert(!g.carried(idx as int));
                    assert(is_fresh(slot));
                    emit_new_vertex(v, cursor, &mut out, &mut add);
                    ids.insert(idx, cursor);
                    cursor += 1;  // next new vertex will have a new global id
                },
                None => {},
            }
        }
        proof {
            let a2 = vertices@;
            if continued || slot.item is None {
                assert(ids@ == ids1);
            } else {
                assert(ids@.contains_key(idx));
                assert(forall|i: usize| i != idx ==> ids@.contains_key(i) == ids1.contains_key(i));
                assert(forall|i: usize| i != idx && ids1.contains_key(i) ==> ids@[i] == ids1[i]);
            }
            assert(a2.slots.len() == n);
            assert(forall|k: int| idx < k < n ==> a2.slots[k] == a1.slots[k]);
            let q = g.vertex_phase(start_id, idx + 1);
            assert(records_of(out@) =~= q.records);
            assert(add@ =~= q.add);
            assert(rem@ =~= q.rem);
            assert(deleted@ =~= q.deleted);
            assert forall|i: usize| ids@.contains_key(i) <==> i < idx + 1 && g.vertices.occupied(
                i as int,
            ) by {
                assert(ids0.contains_key(i) <==> i < idx && g.vertices.occupied(i as int));
                if i != idx {
                    assert(ids1.contains_key(i) == ids0.contains_key(i));
                    assert(ids@.contains_key(i) == ids1.contains_key(i));
                } else {
                    assert(g.vertices.occupied(idx as int) == (slot.item is Some));
                    assert(!ids0.contains_key(idx));
                }
            }
            assert forall|i: usize| ids@.contains_key(i) implies ids@[i] == g.global_of(
                start_id,
                i as int,
            ) by {
                if i != idx {
                    assert(ids1.contains_key(i));
                    assert(ids0.contains_key(i));
                    assert(ids@[i] == ids0[i]);
                }
            }
        }
        idx += 1;
    }
    (out, ids, add, rem, deleted)
}

/// The global id that the vertex phase gave to the vertex slot `index`.
fn global_id_of(ids: &HashMap<usize, u64>, index: usize) -> (id: u64)
    requires
        ids@.contains_key(index),
    ensures
        id == ids@[index],
{
    match ids.get(&index) {
        Some(id) => *id,
        None => 0,
    }
}

/// Goes through the edge slots in ascending order: records what is persisted
/// of each, and gathers the updates of the edge indexes.
fn diff_edges(
    edges: &GenVec<EdgeData>,
    old_edges: &Vec<PreparedEdge>,
    ids: &HashMap<usize, u64>,
    start_id: u64,
    Ghost(g): Ghost<Graph>,
) -> (r: (Vec<PreparedEdge>, Vec<(u64, u64, u64)>, Vec<(u64, u64, u64)>))
    requires
        g.resolvable(),
        edges@ == g.edges,
        old_edges@ == g.old_edges(),
        forall|i: usize|
            #![trigger ids@.contains_key(i)]
            ids@.contains_key(i) <==> g.vertices.occupied(i as int),
        forall|i: usize|
            #![trigger ids@.contains_key(i)]
            ids@.contains_key(i) ==> ids@[i] == g.global_of(start_id, i as int),
    ensures
        ({
            let ep = g.edge_phase(start_id, g.edges.slots.len() as int);
            &&& r.0@ == ep.records
            &&& r.1@ == ep.add
            &&& r.2@ == ep.rem
        }),
{
    let mut out: Vec<PreparedEdge> = Vec::new();
    let mut add: Vec<(u64, u64, u64)> = Vec::new();
    let mut rem: Vec<(u64, u64, u64)> = Vec::new();
    let n = edges.slot_count();
    let mut k: usize = 0;
    while k < n
        invariant
            k <= n,
            n == g.edges.slots.len(),
            g.resolvable(),
            edges@ == g.edges,
            old_edges@ == g.old_edges(),
            forall|i: usize|
                #![trigger ids@.contains_key(i)]
                ids@.contains_key(i) <==> g.vertices.occupied(i as int),
            forall|i: usize|
                #![trigger ids@.contains_key(i)]
                ids@.contains_key(i) ==> ids@[i] == g.global_of(start_id, i as int),
            out@ == g.edge_phase(start_id, k as int).records,
            add@ == g.edge_phase(start_id, k as int).add,
            rem@ == g.edge_phase(start_id, k as int).rem,
        decreases n - k,
    {
        let ghost slot = g.edges.slots[k as int];
        let ghost add0 = add@;
        let ghost out0 = out@;
        let was_loaded = k < old_edges.len();
        let mut continued = false;
        if was_loaded {
            let before = old_edges[k];
            // an edge that might be continued from the old graph
            match edges.get(Handle { generation: 0, index: k }) {
                Some(e) => {
                    continued = true;
                    assert(*e == slot.item->0);
                    // get global ids
                    let from = global_id_of(ids, e.from.0.index);
                    let to = global_id_of(ids, e.to.0.index);
                    let current_label = e.label.0;
                    // compare global ids
                    let unchanged = from == before.from && current_label == before.label.0 && to
                        == before.to;
                    let ghost now = g.resolve(start_id, slot.item->0);
                    assert(ids@.contains_key(e.from.0.index) && ids@.contains_key(e.to.0.index));
                    assert(now == PreparedEdge { from, label: e.label, to });
                    assert(unchanged == (triple(now) == triple(before)));
                    if unchanged {
                        // edge was unchanged
                        out.push(PreparedEdge { from: before.from, label: before.label, to: before.to });
                        assert(out@ == out0.push(before));
                    } else {
                        // edge was changed
                        rem.push((before.from, before.label.0, before.to));  // remove old edge
                        add.push((from, current_label, to));  // add new edge
                        out.push(PreparedEdge { from, label: e.label, to });
                        assert(add@ == add0.push(triple(now)));
                        assert(out@ == out0.push(now));
                    }
                },
                None => {
                    // edge was deleted
                    rem.push((before.from, before.label.0, before.to));
                },
            }
        }
        if !continued {
            match edges.get_index(k) {
                Some(e) => {
                    // an edge that was never persisted
                    assert(*e == slot.item->0);
                    let from = global_id_of(ids, e.from.0.index);
                    let to = global_id_of(ids, e.to.0.index);
                    let ghost now = g.resolve(start_id, slot.item->0);
                    assert(ids@.contains_key(e.from.0.index) && ids@.contains_key(e.to.0.index));
                    assert(now == PreparedEdge { from, label: e.label, to });
                    add.push((from, e.label.0, to));
                    out.push(PreparedEdge { from, label: e.label, to });
                    assert(add@ == add0.push(triple(now)));
                    assert(out@ == out0.push(now));
                },
                None => {
                    assert(slot.item is None);
                    assert(add@ == add0);
                    assert(out@ == out0);
                },
            }
        }
        proof {
            let q = g.edge_phase(start_id, k + 1);
            assert(out@ =~= q.records);
            assert(add@ =~= q.add);
            assert(rem@ =~= q.rem);
        }
        k += 1;
    }
    (out, add, rem)
}

impl PreparedGraph {
    /// Compares a staged graph with the graph it was loaded from, slot by
    /// slot, and returns what a commit writes: the graph as it is persisted
    /// under `graph_id`, and the updates of the indexes. New vertices get
    /// the global ids from `start_id` on, in ascending order of slot.
    pub fn commit_data_from_builder(graph: GraphBuilder, start_id: u64, graph_id: u64) -> (data:
        GraphCommitData)
        requires
            graph@.wf(),
            graph@.resolvable(),
            start_id + graph@.fresh <= u64::MAX,
        ensures
            data@ == graph@.commit(start_id, graph_id),
    {
        let ghost g = graph@;
        let (mut vertices, edges, old_graph_data) = graph.into_parts();
        let (old_vertices, old_edges) = match old_graph_data {
            Some(ogd) => (ogd.graph.vertices, ogd.graph.edges),
            None => (Vec::new(), Vec::new()),
        };
        proof {
            assert(records_of(old_vertices@) =~= g.old_vertices());
            assert(old_edges@ =~= g.old_edges());
        }
        // maps each vertex slot to its global id
        let (proc_vertices, idx_to_global, add_attrs, rem_attrs, deleted_vertices) = diff_vertices(
            &mut vertices,
            &old_vertices,
            start_id,
            Ghost(g),
        );
        let (proc_edges, add_edges, rem_edges) = diff_edges(
            &edges,
            &old_edges,
            &idx_to_global,
            start_id,
            Ghost(g),
        );
        // return computed changes
        GraphCommitData {
            graph_id,
            prepared_graph: PreparedGraph { id: graph_id, vertices: proc_vertices, edges: proc_edges },
            add_attrs,
            rem_attrs,
            add_edges,
            rem_edges,
            deleted_vertices,
        }
    }

    /// Whether both ends of every edge are vertices of the graph.
    pub fn is_linked(&self) -> (r: bool)
        ensures
            r == self@.linked(),
    {
        let mut known: HashMap<u64, usize> = HashMap::new();
        let mut i: usize = 0;
        while i < self.vertices.len()
            invariant
                i <= self.vertices.len(),
                forall|id: u64|
                    #![trigger known@.contains_key(id)]
                    known@.contains_key(id) <==> self@.position_before(id, i as int) is Some,
            decreases self.vertices.len() - i,
        {
            let ghost before = known@;
            known.insert(self.vertices[i].id, i);
            proof {
                assert(self@.vertices[i as int].id == self.vertices@[i as int].id);
                assert forall|id: u64|
                    #![trigger known@.contains_key(id)]
                    known@.contains_key(id) <==> self@.position_before(id, i + 1) is Some by {
                    assert(before.contains_key(id) <==> self@.position_before(id, i as int) is Some);
                }
            }
            i += 1;
        }
        let mut k: usize = 0;
        while k < self.edges.len()
            invariant
                k <= self.edges.len(),
                forall|id: u64|
                    #![trigger known@.contains_key(id)]
                    known@.contains_key(id) <==> self@.position_of(id) is Some,
                forall|j: int|
                    0 <= j < k ==> self@.position_of((#[trigger] self@.edges[j]).from) is Some
                        && self@.position_of(self@.edges[j].to) is Some,
            decreases self.edges.len() - k,
        {
            let e = &self.edges[k];
            if !known.contains_key(&e.from) || !known.contains_key(&e.to) {
                assert(self@.edges[k as int] == *e);
                return false;
            }
            k += 1;
        }
        true
    }
}

/// The vertex phase of a builder that was loaded from `g` and not changed
/// since records the first `n` vertices of `g` and nothing else.
proof fn lemma_reloaded_vertices(g: GraphRecord, start_id: u64, n: int)
    requires
        0 <= n <= g.vertices.len() <= usize::MAX,
    ensures
        Graph::from_record(g).vertex_phase(start_id, n) == (VertexPhase {
            records: g.vertices.take(n),
            add: Seq::empty(),
            rem: Seq::empty(),
            deleted: Seq::empty(),
        }),
    decreases n,
{
    let b = Graph::from_record(g);
    if n > 0 {
        lemma_reloaded_vertices(g, start_id, n - 1);
        let o = b.vertex_outcome(start_id, n - 1);
        assert(o.record == Some(g.vertices[n - 1]));
        let p = b.vertex_phase(start_id, n - 1);
        let q = b.vertex_phase(start_id, n);
        assert(q.records =~= g.vertices.take(n));
        assert(q.add =~= Seq::empty());
        assert(q.rem =~= Seq::empty());
        assert(q.deleted =~= Seq::empty());
    } else {
        assert(g.vertices.take(0) =~= Seq::empty());
    }
}

/// The edge phase of a builder that was loaded from `g` and not changed
/// since records the first `n` edges of `g` and nothing else.
proof fn lemma_reloaded_edges(g: GraphRecord, start_id: u64, n: int)
    requires
        g.linked(),
        g.vertices.len() <= usize::MAX,
        0 <= n <= g.edges.len() <= usize::MAX,
    ensures
        Graph::from_record(g).edge_phase(start_id, n) == (EdgePhase {
            records: g.edges.take(n),
            add: Seq::empty(),
            rem: Seq::empty(),
        }),
    decreases n,
{
    let b = Graph::from_record(g);
    if n > 0 {
        lemma_reloaded_edges(g, start_id, n - 1);
        let e = g.edges[n - 1];
        g.lemma_position_before(e.from, g.vertices.len() as int);
        g.lemma_position_before(e.to, g.vertices.len() as int);
        let pf = g.position_of(e.from)->0;
        let pt = g.position_of(e.to)->0;
        assert(b.carried(pf));
        assert(b.carried(pt));
        let now = b.resolve(start_id, b.edges.slots[n - 1].item->0);
        assert(now == e);
        let q = b.edge_phase(start_id, n);
        assert(q.records =~= g.edges.take(n));
        assert(q.add =~= Seq::empty());
        assert(q.rem =~= Seq::empty());
    } else {
        assert(g.edges.take(0) =~= Seq::empty());
    }
}

/// A builder that is loaded from a persisted graph and committed as it is
/// adds nothing, removes nothing and deletes nothing, and persists the graph
/// it was loaded from.
pub proof fn lemma_reloaded_commit_is_empty(g: GraphRecord, start_id: u64, graph_id: u64)
    requires
        g.linked(),
        g.vertices.len() <= usize::MAX,
        g.edges.len() <= usize::MAX,
    ensures
        ({
            let c = Graph::from_record(g).commit(start_id, graph_id);
            &&& c.add_attrs == Seq::<Delta>::empty()
            &&& c.rem_attrs == Seq::<Delta>::empty()
            &&& c.add_edges == Seq::<Delta>::empty()
            &&& c.rem_edges == Seq::<Delta>::empty()
            &&& c.deleted_vertices == Seq::<u64>::empty()
            &&& c.prepared.vertices == g.vertices
            &&& c.prepared.edges == g.edges
        }),
{
    lemma_reloaded_vertices(g, start_id, g.vertices.len() as int);
    lemma_reloaded_edges(g, start_id, g.edges.len() as int);
    assert(g.vertices.take(g.vertices.len() as int) =~= g.vertices);
    assert(g.edges.take(g.edges.len() as int) =~= g.edges);
}

impl Graph {
    /// Every vertex that the first `n` slots persist stands in one of them.
    pub proof fn lemma_records_have_slots(self, start_id: u64, n: int)
        requires
            0 <= n,
        ensures
            forall|k: int|
                0 <= k < self.vertex_phase(start_id, n).records.len() ==> exists|i: int|
                    0 <= i < n && self.vertex_outcome(start_id, i).record == Some(
                        #[trigger] self.vertex_phase(start_id, n).records[k],
                    ),
        decreases n,
    {
        if n > 0 {
            self.lemma_records_have_slots(start_id, n - 1);
            let p = self.vertex_phase(start_id, n - 1);
            let q = self.vertex_phase(start_id, n);
            assert forall|k: int| 0 <= k < q.records.len() implies exists|i: int|
                0 <= i < n && self.vertex_outcome(start_id, i).record == Some(
                    #[trigger] q.records[k],
                ) by {
                if k < p.records.len() {
                    assert(q.records[k] == p.records[k]);
                    let i = choose|i: int|
                        0 <= i < n - 1 && self.vertex_outcome(start_id, i).record == Some(
                            p.records[k],
                        );
                    assert(0 <= i < n);
                } else {
                    assert(self.vertex_outcome(start_id, n - 1).record == Some(q.records[k]));
                }
            }
        }
    }

    /// The ids of a commit: each vertex that is persisted either keeps the
    /// id of the loaded vertex at its position, or has one of the new ids,
    /// which are those from `start_id` on, as many as there are new
    /// vertices; and two new vertices have two ids.
    pub proof fn lemma_commit_ids(self, start_id: u64, graph_id: u64)
        requires
            self.wf(),
            start_id + self.fresh <= u64::MAX,
        ensures
            forall|k: int|
                0 <= k < self.commit(start_id, graph_id).prepared.vertices.len() ==> {
                    let id = (#[trigger] self.commit(start_id, graph_id).prepared.vertices[k]).id;
                    ||| start_id <= id < start_id + self.fresh
                    ||| exists|i: int| self.carried(i) && self.old_vertices()[i].id == id
                },
            forall|i: int, j: int|
                0 <= i < j < self.vertices.slots.len() && is_fresh(self.vertices.slots[i])
                    && is_fresh(self.vertices.slots[j]) ==> #[trigger] self.new_id(start_id, i)
                    < #[trigger] self.new_id(start_id, j),
    {
        let n = self.vertices.slots.len() as int;
        let c = self.commit(start_id, graph_id);
        self.lemma_records_have_slots(start_id, n);
        assert forall|k: int| 0 <= k < c.prepared.vertices.len() implies {
            let id = (#[trigger] c.prepared.vertices[k]).id;
            ||| start_id <= id < start_id + self.fresh
            ||| exists|i: int| self.carried(i) && self.old_vertices()[i].id == id
        } by {
            let r = c.prepared.vertices[k];
            let i = choose|i: int|
                0 <= i < n && self.vertex_outcome(start_id, i).record == Some(r);
            let slot = self.vertices.slots[i];
            assert(slot.item is Some);
            if self.carried(i) {
                assert(r.id == self.old_vertices()[i].id);
            } else {
                assert(is_fresh(slot));
                lemma_fresh_before_grows(self.vertices.slots, i + 1, n);
                assert(r.id == self.new_id(start_id, i));
            }
        }
        assert forall|i: int, j: int|
            0 <= i < j < n && is_fresh(self.vertices.slots[i]) && is_fresh(
                self.vertices.slots[j],
            ) implies #[trigger] self.new_id(start_id, i) < #[trigger] self.new_id(start_id, j) by {
            lemma_fresh_before_grows(self.vertices.slots, i + 1, j);
            lemma_fresh_before_grows(self.vertices.slots, j + 1, n);
        }
    }
}

impl Graph {
    /// The vertices that the first `n` slots delete are the loaded vertices
    /// of these slots that are gone.
    pub proof fn lemma_phase_deletes(self, start_id: u64, n: int, id: u64)
        requires
            self.wf(),
            0 <= n <= self.vertices.slots.len(),
        ensures
            self.vertex_phase(start_id, n).deleted.contains(id) <==> exists|p: int|
                0 <= p < n && p < self.old_vertices().len() && !self.carried(p) && (
                #[trigger] self.old_vertices()[p]).id == id,
        decreases n,
    {
        if n > 0 {
            self.lemma_phase_deletes(start_id, n - 1, id);
            let prev = self.vertex_phase(start_id, n - 1).deleted;
            let o = self.vertex_outcome(start_id, n - 1);
            let all = self.vertex_phase(start_id, n).deleted;
            if self.carried(n - 1) {
                assert(self.vertices.slots[n - 1].item is Some);
            }
            if all.contains(id) {
                let k = choose|k: int| 0 <= k < all.len() && all[k] == id;
                if k < prev.len() {
                    assert(prev[k] == id);
                    assert(prev.contains(id));
                    let p = choose|p: int|
                        0 <= p < n - 1 && p < self.old_vertices().len() && !self.carried(p) && (
                        #[trigger] self.old_vertices()[p]).id == id;
                    assert(0 <= p < n && self.old_vertices()[p].id == id);
                } else {
                    assert(o.deleted[k - prev.len()] == id);
                    assert(self.old_vertices()[n - 1].id == id);
                }
            }
            if exists|p: int|
                0 <= p < n && p < self.old_vertices().len() && !self.carried(p) && (
                #[trigger] self.old_vertices()[p]).id == id {
                let p = choose|p: int|
                    0 <= p < n && p < self.old_vertices().len() && !self.carried(p) && (
                    #[trigger] self.old_vertices()[p]).id == id;
                if p < n - 1 {
                    assert(prev.contains(id));
                    let k = choose|k: int| 0 <= k < prev.len() && prev[k] == id;
                    assert(all[k] == id);
                } else {
                    assert(o.deleted[0] == id);
                    assert(all[prev.len() as int] == id);
                }
            }
        }
    }

    /// A commit deletes the loaded vertices that are gone, and no other:
    /// where the loaded vertices have ids of their own, no vertex that is
    /// persisted under its old id is deleted.
    pub proof fn lemma_commit_deletes(self, start_id: u64, graph_id: u64, i: int)
        requires
            self.wf(),
            0 <= i < self.old_vertices().len(),
            forall|p: int, q: int|
                0 <= p < q < self.old_vertices().len() ==> (#[trigger] self.old_vertices()[p]).id
                    != (#[trigger] self.old_vertices()[q]).id,
        ensures
            self.commit(start_id, graph_id).deleted_vertices.contains(self.old_vertices()[i].id)
                <==> !self.carried(i),
    {
        let n = self.vertices.slots.len() as int;
        let id = self.old_vertices()[i].id;
        self.lemma_phase_deletes(start_id, n, id);
        if self.commit(start_id, graph_id).deleted_vertices.contains(id) {
            let p = choose|p: int|
                0 <= p < n && p < self.old_vertices().len() && !self.carried(p) && (
                #[trigger] self.old_vertices()[p]).id == id;
            if p < i {
                assert(self.old_vertices()[p].id != self.old_vertices()[i].id);
            } else if i < p {
                assert(self.old_vertices()[i].id != self.old_vertices()[p].id);
            }
        }
    }
}

} // verus!
