use crate::errors::LatticeError;
use crate::graph::graph_links::lemma_loaded_is_listed;
use crate::graph::graph_prepared::{attributes_of, Attribute, GraphRecord, PreparedGraph};
use crate::props::properties::PropertyHandle;
use crate::utils::generational_vector::{Arena, GenVec, Handle, Slot};
use crate::utils::values::{Primitive, Value};
use std::collections::HashMap;
use vstd::prelude::*;

verus! {

broadcast use vstd::std_specs::hash::group_hash_axioms;

/// The id under which a vertex is persisted.
pub type GlobalVertexId = u64;

/// The id under which a graph is persisted.
pub type GraphId = u64;

/// The handle of a staged vertex.
#[derive(Clone, Copy, Debug, PartialEq, Eq, Hash, Structural)]
pub struct VertexHandle(pub Handle);

/// The handle of a staged edge.
#[derive(Clone, Copy, Debug, PartialEq, Eq, Structural)]
pub struct EdgeHandle(pub Handle);

/// A staged vertex.
#[derive(Debug)]
pub struct VertexData {
    pub global_id: Option<GlobalVertexId>,
    pub attributes: Vec<(PropertyHandle, Primitive)>,
    pub incoming_edges: Vec<EdgeHandle>,
    pub outgoing_edges: Vec<EdgeHandle>,
}

/// A staged edge.
#[derive(Debug)]
pub struct EdgeData {
    pub from: VertexHandle,
    pub to: VertexHandle,
    pub label: PropertyHandle,
}

/// The persisted graph that a builder was loaded from.
pub struct OldGraphData {
    pub id: GraphId,
    pub graph: PreparedGraph,
}

/// The content of a staged vertex.
pub struct Vertex {
    pub global_id: Option<GlobalVertexId>,
    pub attributes: Seq<Attribute>,
    pub incoming: Seq<EdgeHandle>,
    pub outgoing: Seq<EdgeHandle>,
}

impl View for VertexData {
    type V = Vertex;

    open spec fn view(&self) -> Vertex {
        Vertex {
            global_id: self.global_id,
            attributes: attributes_of(self.attributes@),
            incoming: self.incoming_edges@,
            outgoing: self.outgoing_edges@,
        }
    }
}

impl Vertex {
    /// A vertex that was just created: no id, no attribute, no edge.
    pub open spec fn fresh() -> Vertex {
        Vertex {
            global_id: None,
            attributes: Seq::empty(),
            incoming: Seq::empty(),
            outgoing: Seq::empty(),
        }
    }
}

/// The slot of a staged vertex, by its content.
pub open spec fn vertex_slot(s: Slot<VertexData>) -> Slot<Vertex> {
    Slot {
        item: match s.item {
            Some(v) => Some(v@),
            None => None,
        },
        generation: s.generation,
    }
}

/// The vertex arena, by the content of its vertices.
pub open spec fn vertex_arena(a: Arena<VertexData>) -> Arena<Vertex> {
    Arena { slots: a.slots.map_values(|s: Slot<VertexData>| vertex_slot(s)), free: a.free }
}

/// `list` without the first occurrence of `e`, the last handle moved into its place.
pub open spec fn detach(list: Seq<EdgeHandle>, e: EdgeHandle) -> Seq<EdgeHandle> {
    match list.index_of_first(e) {
        Some(p) => list.update(p, list.last()).drop_last(),
        None => list,
    }
}

/// Whether a slot holds a vertex without a global id.
pub open spec fn is_fresh(s: Slot<Vertex>) -> bool {
    s.item is Some && s.item->0.global_id is None
}

/// The number of vertices without a global id among the first `n` slots.
pub open spec fn fresh_before(slots: Seq<Slot<Vertex>>, n: int) -> nat
    decreases n,
{
    if n <= 0 {
        0
    } else {
        let rest = fresh_before(slots, n - 1);
        if n <= slots.len() && is_fresh(slots[n - 1]) {
            rest + 1
        } else {
            rest
        }
    }
}

/// The count of fresh vertices depends on the counted slots alone.
pub proof fn lemma_fresh_before_same(a: Seq<Slot<Vertex>>, b: Seq<Slot<Vertex>>, n: int)
    requires
        n <= a.len(),
        n <= b.len(),
        forall|i: int| 0 <= i < n ==> is_fresh(a[i]) == is_fresh(b[i]),
    ensures
        fresh_before(a, n) == fresh_before(b, n),
        fresh_before(a, n) <= n || n < 0,
    decreases n,
{
    if n > 0 {
        lemma_fresh_before_same(a, b, n - 1);
    }
}

/// Where every counted vertex has a global id, none is fresh.
pub proof fn lemma_no_fresh(slots: Seq<Slot<Vertex>>, n: int)
    requires
        n <= slots.len(),
        forall|i: int| 0 <= i < n ==> !is_fresh(#[trigger] slots[i]),
    ensures
        fresh_before(slots, n) == 0,
    decreases n,
{
    if n > 0 {
        lemma_no_fresh(slots, n - 1);
    }
}

/// What a change of one slot does to the count of fresh vertices.
pub proof fn lemma_fresh_before_update(slots: Seq<Slot<Vertex>>, i: int, s: Slot<Vertex>, n: int)
    requires
        0 <= i < slots.len(),
        0 <= n <= slots.len(),
    ensures
        i >= n ==> fresh_before(slots.update(i, s), n) == fresh_before(slots, n),
        i < n ==> fresh_before(slots.update(i, s), n) + (if is_fresh(slots[i]) {
            1int
        } else {
            0int
        }) == fresh_before(slots, n) + (if is_fresh(s) {
            1int
        } else {
            0int
        }),
        i < n && is_fresh(slots[i]) ==> fresh_before(slots, n) >= 1,
    decreases n,
{
    if n > 0 {
        lemma_fresh_before_update(slots, i, s, n - 1);
    }
}

/// The handle under which the vertex or edge at position `i` of a loaded graph is staged.
pub open spec fn loaded_handle(i: int) -> Handle {
    Handle { generation: 0, index: i as usize }
}

/// The handles of the edges among the first `n` of `g` that end at the vertex at position `i`.
pub open spec fn edges_into(g: GraphRecord, i: int, n: int) -> Seq<EdgeHandle>
    decreases n,
{
    if n <= 0 {
        Seq::empty()
    } else {
        let rest = edges_into(g, i, n - 1);
        if n <= g.edges.len() && g.position_of(g.edges[n - 1].to) == Some(i) {
            rest.push(EdgeHandle(loaded_handle(n - 1)))
        } else {
            rest
        }
    }
}

/// The handles of the edges among the first `n` of `g` that start at the vertex at position `i`.
pub open spec fn edges_out_of(g: GraphRecord, i: int, n: int) -> Seq<EdgeHandle>
    decreases n,
{
    if n <= 0 {
        Seq::empty()
    } else {
        let rest = edges_out_of(g, i, n - 1);
        if n <= g.edges.len() && g.position_of(g.edges[n - 1].from) == Some(i) {
            rest.push(EdgeHandle(loaded_handle(n - 1)))
        } else {
            rest
        }
    }
}

/// The vertex at position `i` of `g` as it is staged once the first `n` edges are linked.
pub open spec fn loaded_vertex(g: GraphRecord, i: int, n: int) -> Vertex {
    Vertex {
        global_id: Some(g.vertices[i].id),
        attributes: g.vertices[i].attrs,
        incoming: edges_into(g, i, n),
        outgoing: edges_out_of(g, i, n),
    }
}

/// The edge at position `k` of `g` as it is staged.
pub open spec fn loaded_edge(g: GraphRecord, k: int) -> EdgeData {
    EdgeData {
        from: VertexHandle(loaded_handle(g.position_of(g.edges[k].from)->0)),
        to: VertexHandle(loaded_handle(g.position_of(g.edges[k].to)->0)),
        label: g.edges[k].label,
    }
}

/// The vertex arena once the first `nv` vertices of `g` are staged and the first `ne` edges linked.
pub open spec fn loaded_vertices(g: GraphRecord, nv: int, ne: int) -> Arena<Vertex> {
    Arena {
        slots: Seq::new(
            nv as nat,
            |i: int| Slot { item: Some(loaded_vertex(g, i, ne)), generation: 0 },
        ),
        free: Seq::empty(),
    }
}

/// The edge arena once the first `ne` edges of `g` are staged.
pub open spec fn loaded_edges(g: GraphRecord, ne: int) -> Arena<EdgeData> {
    Arena {
        slots: Seq::new(ne as nat, |k: int| Slot { item: Some(loaded_edge(g, k)), generation: 0 }),
        free: Seq::empty(),
    }
}

/// The count of fresh vertices grows with the number of slots counted.
pub proof fn lemma_fresh_before_grows(slots: Seq<Slot<Vertex>>, m: int, n: int)
    requires
        m <= n,
    ensures
        fresh_before(slots, m) <= fresh_before(slots, n),
    decreases n - m,
{
    if m < n {
        lemma_fresh_before_grows(slots, m, n - 1);
    }
}

/// The content of a graph builder.
pub struct Graph {
    /// The number of staged vertices that were never persisted.
    pub fresh: nat,
    /// The graph that the builder was loaded from, if any.
    pub loaded: Option<GraphRecord>,
    /// The id under which the builder keeps that graph.
    pub loaded_id: Option<GraphId>,
    pub vertices: Arena<Vertex>,
    pub edges: Arena<EdgeData>,
}

impl Graph {
    /// Slot `i` is in its first generation and stands for a vertex of the loaded graph.
    pub open spec fn carried(self, i: int) -> bool {
        &&& self.loaded is Some
        &&& 0 <= i < self.loaded->0.vertices.len()
        &&& i < self.vertices.slots.len()
        &&& self.vertices.slots[i].generation == 0
    }

    /// The builder's invariant.
    /// * Both arenas are well formed.
    /// * `fresh` counts the staged vertices without a global id.
    /// * A slot of the loaded graph that is still in generation 0 holds the
    ///   vertex it was loaded with, under the id it was loaded with.
    /// * No other vertex has a global id.
    pub open spec fn wf(self) -> bool {
        &&& self.vertices.wf()
        &&& self.edges.wf()
        &&& self.fresh == fresh_before(self.vertices.slots, self.vertices.slots.len() as int)
        &&& self.loaded matches Some(g) ==> g.vertices.len() <= self.vertices.slots.len()
            && g.edges.len() <= self.edges.slots.len()
        &&& self.loaded_id == match self.loaded {
            Some(g) => Some(g.id),
            None => None,
        }
        &&& forall|i: int|
            0 <= i < self.vertices.slots.len() && (#[trigger] self.vertices.slots[i]).item is Some
                && !self.carried(i) ==> self.vertices.slots[i].item->0.global_id is None
        &&& forall|i: int|
            self.carried(i) ==> (#[trigger] self.vertices.slots[i]).item is Some
                && self.vertices.slots[i].item->0.global_id == Some(self.loaded->0.vertices[i].id)
    }

    /// The builder that a persisted graph is loaded into: vertex and edge
    /// `i` stand in slot `i`, and each vertex lists its edges in their
    /// persisted order.
    pub open spec fn from_record(g: GraphRecord) -> Graph {
        Graph {
            fresh: 0,
            loaded: Some(g),
            loaded_id: Some(g.id),
            vertices: loaded_vertices(g, g.vertices.len() as int, g.edges.len() as int),
            edges: loaded_edges(g, g.edges.len() as int),
        }
    }

    /// A loaded builder meets the invariant.
    pub proof fn lemma_from_record(g: GraphRecord)
        requires
            g.vertices.len() <= usize::MAX,
            g.edges.len() <= usize::MAX,
        ensures
            Graph::from_record(g).wf(),
    {
        let post = Graph::from_record(g);
        lemma_no_fresh(post.vertices.slots, post.vertices.slots.len() as int);
    }

    /// The builder that holds nothing.
    pub open spec fn empty() -> Graph {
        Graph {
            fresh: 0,
            loaded: None,
            loaded_id: None,
            vertices: Arena::empty(),
            edges: Arena::empty(),
        }
    }

    /// Both builders hold the same.
    pub open spec fn agrees(self, other: Graph) -> bool {
        &&& self.fresh == other.fresh
        &&& self.loaded == other.loaded
        &&& self.loaded_id == other.loaded_id
        &&& self.vertices.agrees(other.vertices)
        &&& self.edges.agrees(other.edges)
    }

    /// Builders that hold the same are the same.
    pub proof fn lemma_agrees(self, other: Graph)
        requires
            self.agrees(other),
        ensures
            self == other,
    {
        assert(self.vertices =~= other.vertices);
        assert(self.edges =~= other.edges);
    }

    /// The vertex handle resolves.
    pub open spec fn has_vertex(self, h: VertexHandle) -> bool {
        self.vertices.live(h.0)
    }

    /// The edge handle resolves.
    pub open spec fn has_edge(self, h: EdgeHandle) -> bool {
        self.edges.live(h.0)
    }

    /// The vertex that a handle resolves to.
    pub open spec fn vertex(self, h: VertexHandle) -> Vertex {
        self.vertices.value(h.0)
    }

    /// The edge that a handle resolves to.
    pub open spec fn edge(self, h: EdgeHandle) -> EdgeData {
        self.edges.value(h.0)
    }

    /// The handle that the next new vertex gets.
    pub open spec fn next_vertex(self) -> VertexHandle {
        VertexHandle(self.vertices.next_handle())
    }

    /// The handle that the next new edge gets.
    pub open spec fn next_edge(self) -> EdgeHandle {
        EdgeHandle(self.edges.next_handle())
    }

    /// The builder with `v` in place of the vertex `h`.
    pub open spec fn with_vertex(self, h: VertexHandle, v: Vertex) -> Graph {
        Graph { vertices: self.vertices.replace(h.0, v), ..self }
    }

    /// The builder with `e` in place of the edge `h`.
    pub open spec fn with_edge(self, h: EdgeHandle, e: EdgeData) -> Graph {
        Graph { edges: self.edges.replace(h.0, e), ..self }
    }

    /// The builder after a vertex was created.
    pub open spec fn new_vertex(self) -> Graph {
        Graph { fresh: self.fresh + 1, vertices: self.vertices.insert(Vertex::fresh()), ..self }
    }

    /// The builder with the attributes `attrs` on the vertex `h`.
    pub open spec fn with_attributes(self, h: VertexHandle, attrs: Seq<Attribute>) -> Graph {
        self.with_vertex(h, Vertex { attributes: attrs, ..self.vertex(h) })
    }

    /// The builder with `e` listed last among the incoming edges of `v`.
    pub open spec fn push_incoming(self, v: VertexHandle, e: EdgeHandle) -> Graph {
        self.with_vertex(v, Vertex { incoming: self.vertex(v).incoming.push(e), ..self.vertex(v) })
    }

    /// The builder with `e` listed last among the outgoing edges of `v`.
    pub open spec fn push_outgoing(self, v: VertexHandle, e: EdgeHandle) -> Graph {
        self.with_vertex(v, Vertex { outgoing: self.vertex(v).outgoing.push(e), ..self.vertex(v) })
    }

    /// The builder with `e` taken off the incoming edges of `v`.
    pub open spec fn drop_incoming(self, v: VertexHandle, e: EdgeHandle) -> Graph {
        self.with_vertex(
            v,
            Vertex { incoming: detach(self.vertex(v).incoming, e), ..self.vertex(v) },
        )
    }

    /// The builder with `e` taken off the outgoing edges of `v`.
    pub open spec fn drop_outgoing(self, v: VertexHandle, e: EdgeHandle) -> Graph {
        self.with_vertex(
            v,
            Vertex { outgoing: detach(self.vertex(v).outgoing, e), ..self.vertex(v) },
        )
    }

    /// The builder after an edge from `from` to `to` was created: unchanged
    /// unless both ends resolve, else the edge is listed with both ends.
    pub open spec fn new_edge(self, from: VertexHandle, label: PropertyHandle, to: VertexHandle)
        -> Graph {
        if self.has_vertex(from) && self.has_vertex(to) {
            let e = self.next_edge();
            Graph {
                edges: self.edges.insert(EdgeData { from, to, label }),
                ..self
            }.push_incoming(to, e).push_outgoing(from, e)
        } else {
            self
        }
    }

    /// The builder after the edge `e` was given the source `from`:
    /// unchanged unless the edge and the vertex resolve, else the edge
    /// leaves the outgoing edges of its old source and is listed last
    /// among those of `from`.
    pub open spec fn set_source(self, e: EdgeHandle, from: VertexHandle) -> Graph {
        if self.has_edge(e) && self.has_vertex(from) {
            let was = self.edge(e);
            self.with_edge(e, EdgeData { from, ..was }).drop_outgoing(was.from, e).push_outgoing(
                from,
                e,
            )
        } else {
            self
        }
    }

    /// The builder after the edge `e` was given the destination `to`:
    /// unchanged unless the edge and the vertex resolve, else the edge
    /// leaves the incoming edges of its old destination and is listed last
    /// among those of `to`.
    pub open spec fn set_destination(self, e: EdgeHandle, to: VertexHandle) -> Graph {
        if self.has_edge(e) && self.has_vertex(to) {
            let was = self.edge(e);
            self.with_edge(e, EdgeData { to, ..was }).drop_incoming(was.to, e).push_incoming(to, e)
        } else {
            self
        }
    }

    /// The builder after the edge `h` was removed: unchanged unless `h`
    /// resolves, else the edge leaves the arena and the lists of both its ends.
    pub open spec fn remove_edge(self, h: EdgeHandle) -> Graph {
        if self.has_edge(h) {
            let e = self.edge(h);
            Graph { edges: self.edges.remove(h.0), ..self }.drop_outgoing(e.from, h).drop_incoming(
                e.to,
                h,
            )
        } else {
            self
        }
    }

    /// The builder after the edges of `list` were removed, first to last.
    pub open spec fn remove_edges(self, list: Seq<EdgeHandle>) -> Graph
        decreases list.len(),
    {
        if list.len() == 0 {
            self
        } else {
            self.remove_edges(list.drop_last()).remove_edge(list.last())
        }
    }

    /// The builder after the vertex `h` was removed: unchanged unless `h`
    /// resolves, else the vertex leaves the arena, and after it each edge
    /// that it listed, incoming before outgoing.
    pub open spec fn remove_vertex(self, h: VertexHandle) -> Graph {
        if self.has_vertex(h) {
            let v = self.vertex(h);
            Graph {
                fresh: if v.global_id is None {
                    (self.fresh - 1) as nat
                } else {
                    self.fresh
                },
                vertices: self.vertices.remove(h.0),
                ..self
            }.remove_edges(v.incoming + v.outgoing)
        } else {
            self
        }
    }

    /// No edge that `list` names is in its last generation.
    pub open spec fn can_remove_edges(self, list: Seq<EdgeHandle>) -> bool {
        forall|k: int|
            0 <= k < list.len() && self.has_edge(#[trigger] list[k]) ==> list[k].0.generation
                < u32::MAX
    }

    /// Neither the vertex `h` nor an edge that it lists is in its last generation.
    pub open spec fn can_remove_vertex(self, h: VertexHandle) -> bool {
        self.has_vertex(h) ==> h.0.generation < u32::MAX && self.can_remove_edges(
            self.vertex(h).incoming + self.vertex(h).outgoing,
        )
    }

    /// Replacing a vertex by one with the same global id keeps the invariant.
    pub proof fn lemma_with_vertex(self, h: VertexHandle, v: Vertex)
        requires
            self.wf(),
            self.has_vertex(h) ==> v.global_id == self.vertex(h).global_id,
        ensures
            self.with_vertex(h, v).wf(),
            forall|g: VertexHandle| self.with_vertex(h, v).has_vertex(g) == self.has_vertex(g),
            forall|g: VertexHandle|
                g != h ==> self.with_vertex(h, v).vertices.lookup(g.0) == self.vertices.lookup(g.0),
    {
        self.vertices.lemma_replace(h.0, v);
        if self.has_vertex(h) {
            let post = self.with_vertex(h, v);
            let s = Slot { item: Some(v), generation: h.0.generation };
            lemma_fresh_before_update(
                self.vertices.slots,
                h.0.index as int,
                s,
                self.vertices.slots.len() as int,
            );
            assert forall|i: int|
                0 <= i < post.vertices.slots.len() && (#[trigger] post.vertices.slots[i]).item is Some
                    && !post.carried(i) implies post.vertices.slots[i].item->0.global_id is None by {
                assert(self.vertices.slots[i].item is Some);
                assert(self.carried(i) == post.carried(i));
            }
            assert forall|i: int| post.carried(i) implies (#[trigger] post.vertices.slots[i]).item is Some
                && post.vertices.slots[i].item->0.global_id == Some(
                post.loaded->0.vertices[i].id,
            ) by {
                assert(self.carried(i));
                assert(self.vertices.slots[i].item is Some);
            }
        }
    }

    /// Replacing an edge keeps the invariant.
    pub proof fn lemma_with_edge(self, h: EdgeHandle, e: EdgeData)
        requires
            self.wf(),
        ensures
            self.with_edge(h, e).wf(),
            forall|g: EdgeHandle| self.with_edge(h, e).has_edge(g) == self.has_edge(g),
    {
        self.edges.lemma_replace(h.0, e);
    }

    /// Creating a vertex keeps the invariant.
    pub proof fn lemma_new_vertex(self)
        requires
            self.wf(),
            self.vertices.slots.len() < usize::MAX || self.vertices.free.len() > 0,
        ensures
            self.new_vertex().wf(),
            self.new_vertex().has_vertex(self.next_vertex()),
            self.new_vertex().vertex(self.next_vertex()) == Vertex::fresh(),
            self.new_vertex().fresh <= usize::MAX,
    {
        let post = self.new_vertex();
        let h = self.vertices.next_handle();
        let n = self.vertices.slots.len() as int;
        self.vertices.lemma_insert(Vertex::fresh());
        if self.vertices.free.len() > 0 {
            let s = Slot { item: Some(Vertex::fresh()), generation: h.generation };
            assert(self.vertices.free[self.vertices.free.len() - 1] == h.index);
            lemma_fresh_before_update(self.vertices.slots, h.index as int, s, n);
            lemma_fresh_before_same(post.vertices.slots, post.vertices.slots, n);
            assert(self.vertices.slots[h.index as int].item is None);
            assert(!self.carried(h.index as int));
        } else {
            lemma_fresh_before_same(self.vertices.slots, post.vertices.slots, n);
            lemma_fresh_before_same(post.vertices.slots, post.vertices.slots, n + 1);
        }
        assert forall|i: int|
            0 <= i < post.vertices.slots.len() && (#[trigger] post.vertices.slots[i]).item is Some
                && !post.carried(i) implies post.vertices.slots[i].item->0.global_id is None by {
            if i != h.index {
                assert(self.vertices.slots[i].item is Some);
                assert(self.carried(i) == post.carried(i));
            }
        }
        assert forall|i: int| post.carried(i) implies (#[trigger] post.vertices.slots[i]).item is Some
            && post.vertices.slots[i].item->0.global_id == Some(post.loaded->0.vertices[i].id) by {
            assert(self.carried(i));
            assert(self.vertices.slots[i].item is Some);
        }
    }

    /// Removing an edge keeps the invariant, and brings no edge to life.
    pub proof fn lemma_remove_edge(self, h: EdgeHandle)
        requires
            self.wf(),
            self.has_edge(h) ==> h.0.generation < u32::MAX,
        ensures
            self.remove_edge(h).wf(),
            self.remove_edge(h).fresh == self.fresh,
            self.remove_edge(h).loaded == self.loaded,
            forall|g: EdgeHandle| self.remove_edge(h).has_edge(g) ==> self.has_edge(g),
            forall|g: VertexHandle| self.remove_edge(h).has_vertex(g) == self.has_vertex(g),
    {
        if self.has_edge(h) {
            let e = self.edge(h);
            self.edges.lemma_remove(h.0);
            let g1 = Graph { edges: self.edges.remove(h.0), ..self };
            assert(g1.wf());
            let v1 = Vertex { outgoing: detach(g1.vertex(e.from).outgoing, h), ..g1.vertex(e.from) };
            g1.lemma_with_vertex(e.from, v1);
            let g2 = g1.drop_outgoing(e.from, h);
            let v2 = Vertex { incoming: detach(g2.vertex(e.to).incoming, h), ..g2.vertex(e.to) };
            g2.lemma_with_vertex(e.to, v2);
            assert forall|g: EdgeHandle| self.remove_edge(h).has_edge(g) implies self.has_edge(
                g,
            ) by {
                assert(self.edges.remove(h.0).lookup(g.0) is Some);
            }
        }
    }

    /// Removing a list of edges keeps the invariant, and brings no edge to life.
    pub proof fn lemma_remove_edges(self, list: Seq<EdgeHandle>)
        requires
            self.wf(),
            self.can_remove_edges(list),
        ensures
            self.remove_edges(list).wf(),
            self.remove_edges(list).fresh == self.fresh,
            self.remove_edges(list).loaded == self.loaded,
            forall|g: EdgeHandle| self.remove_edges(list).has_edge(g) ==> self.has_edge(g),
            forall|g: VertexHandle| self.remove_edges(list).has_vertex(g) == self.has_vertex(g),
        decreases list.len(),
    {
        if list.len() > 0 {
            let front = list.drop_last();
            assert forall|k: int| 0 <= k < front.len() && self.has_edge(#[trigger] front[k])
                implies front[k].0.generation < u32::MAX by {
                assert(front[k] == list[k]);
            }
            self.lemma_remove_edges(front);
            let mid = self.remove_edges(front);
            assert(list[list.len() - 1] == list.last());
            mid.lemma_remove_edge(list.last());
        }
    }

    /// Removing a vertex keeps the invariant.
    pub proof fn lemma_remove_vertex(self, h: VertexHandle)
        requires
            self.wf(),
            self.can_remove_vertex(h),
        ensures
            self.remove_vertex(h).wf(),
            !self.remove_vertex(h).has_vertex(h),
            self.has_vertex(h) && self.vertex(h).global_id is None ==> self.fresh >= 1,
    {
        if self.has_vertex(h) {
            let v = self.vertex(h);
            let g1 = self.without_vertex(h);
            self.lemma_without_vertex(h);
            g1.lemma_remove_edges(v.incoming + v.outgoing);
        }
    }

    /// The builder after the vertex `h` left the arena, its edges still in place.
    pub open spec fn without_vertex(self, h: VertexHandle) -> Graph {
        Graph {
            fresh: if self.vertex(h).global_id is None {
                (self.fresh - 1) as nat
            } else {
                self.fresh
            },
            vertices: self.vertices.remove(h.0),
            ..self
        }
    }

    /// Taking a vertex out of the arena keeps the invariant.
    pub proof fn lemma_without_vertex(self, h: VertexHandle)
        requires
            self.wf(),
            self.has_vertex(h),
            h.0.generation < u32::MAX,
        ensures
            self.without_vertex(h).wf(),
            !self.without_vertex(h).has_vertex(h),
            self.without_vertex(h).edges == self.edges,
            self.vertex(h).global_id is None ==> self.fresh >= 1,
    {
        let post = self.without_vertex(h);
        let s = Slot::<Vertex> { item: None, generation: (h.0.generation + 1) as u32 };
        self.vertices.lemma_remove(h.0);
        lemma_fresh_before_update(
            self.vertices.slots,
            h.0.index as int,
            s,
            self.vertices.slots.len() as int,
        );
        assert forall|i: int|
            0 <= i < post.vertices.slots.len() && (#[trigger] post.vertices.slots[i]).item is Some
                && !post.carried(i) implies post.vertices.slots[i].item->0.global_id is None by {
            assert(self.vertices.slots[i].item is Some);
            assert(self.carried(i) == post.carried(i));
        }
        assert forall|i: int| post.carried(i) implies (#[trigger] post.vertices.slots[i]).item is Some
            && post.vertices.slots[i].item->0.global_id == Some(post.loaded->0.vertices[i].id) by {
            assert(self.carried(i));
            assert(self.vertices.slots[i].item is Some);
        }
    }

    /// Creating an edge keeps the invariant.
    pub proof fn lemma_new_edge(self, from: VertexHandle, label: PropertyHandle, to: VertexHandle)
        requires
            self.wf(),
            self.edges.slots.len() < usize::MAX || self.edges.free.len() > 0,
        ensures
            self.new_edge(from, label, to).wf(),
            forall|g: VertexHandle|
                self.new_edge(from, label, to).has_vertex(g) == self.has_vertex(g),
            self.has_vertex(from) && self.has_vertex(to) ==> self.new_edge(
                from,
                label,
                to,
            ).has_edge(self.next_edge()),
    {
        if self.has_vertex(from) && self.has_vertex(to) {
            let e = self.next_edge();
            self.edges.lemma_insert(EdgeData { from, to, label });
            let g1 = Graph { edges: self.edges.insert(EdgeData { from, to, label }), ..self };
            assert(g1.wf());
            let v1 = Vertex { incoming: g1.vertex(to).incoming.push(e), ..g1.vertex(to) };
            g1.lemma_with_vertex(to, v1);
            let g2 = g1.push_incoming(to, e);
            let v2 = Vertex { outgoing: g2.vertex(from).outgoing.push(e), ..g2.vertex(from) };
            g2.lemma_with_vertex(from, v2);
        }
    }
}

/// What the view of the vertex arena makes of the arena's operations.
pub proof fn lemma_vertex_arena(a: Arena<VertexData>, h: Handle, v: VertexData)
    ensures
        vertex_arena(a.replace(h, v)).agrees(vertex_arena(a).replace(h, v@)),
        a.wf() ==> vertex_arena(a.insert(v)).agrees(vertex_arena(a).insert(v@)),
        vertex_arena(a.remove(h)).agrees(vertex_arena(a).remove(h)),
        vertex_arena(a).live(h) == a.live(h),
        a.live(h) ==> vertex_arena(a).value(h) == a.value(h)@,
        a.wf() ==> vertex_arena(a).next_handle() == a.next_handle(),
        vertex_arena(a).wf() == a.wf(),
{
    let va = vertex_arena(a);
    if va.wf() {
        assert forall|i: int| 0 <= i < a.slots.len() && (#[trigger] a.slots[i]).item is None
            implies a.free.contains(i as usize) by {
            assert(va.slots[i].item is None);
        }
        assert forall|k: int| 0 <= k < a.free.len() implies (#[trigger] a.free[k]) < a.slots.len()
            && a.slots[a.free[k] as int].item is None by {
            assert(va.free[k] < va.slots.len());
            assert(va.slots[va.free[k] as int].item is None);
        }
    }
    if a.wf() {
        if a.free.len() > 0 {
            assert(a.free[a.free.len() - 1] < a.slots.len());
        }
        assert forall|i: int| 0 <= i < va.slots.len() && (#[trigger] va.slots[i]).item is None
            implies va.free.contains(i as usize) by {
            assert(a.slots[i].item is None);
        }
        assert forall|k: int| 0 <= k < va.free.len() implies (#[trigger] va.free[k])
            < va.slots.len() && va.slots[va.free[k] as int].item is None by {
            assert(a.free[k] < a.slots.len());
        }
    }
}

/// A copy of a list of attributes.
pub fn clone_attributes(attrs: &Vec<(PropertyHandle, Primitive)>) -> (r: Vec<
    (PropertyHandle, Primitive),
>)
    ensures
        attributes_of(r@) == attributes_of(attrs@),
{
    let mut out: Vec<(PropertyHandle, Primitive)> = Vec::new();
    let mut i: usize = 0;
    while i < attrs.len()
        invariant
            i <= attrs.len(),
            out@.len() == i,
            attributes_of(out@) == attributes_of(attrs@.take(i as int)),
        decreases attrs.len() - i,
    {
        let value = attrs[i].1.clone();
        let ghost prev = out@;
        out.push((attrs[i].0, value));
        proof {
            let want = attributes_of(attrs@.take(i + 1));
            assert forall|j: int| 0 <= j < want.len() implies attributes_of(out@)[j] == want[j] by {
                if j < i {
                    assert(out@[j] == prev[j]);
                    assert(attributes_of(prev)[j] == attributes_of(attrs@.take(i as int))[j]);
                    assert(attrs@.take(i as int)[j] == attrs@[j]);
                    assert(attrs@.take(i + 1)[j] == attrs@[j]);
                } else {
                    assert(out@[j] == (attrs@[i as int].0, value));
                    assert(attrs@.take(i + 1)[j] == attrs@[j]);
                }
            }
            assert(attributes_of(out@) =~= want);
        }
        i += 1;
    }
    assert(attrs@.take(i as int) =~= attrs@);
    out
}

/// The position of the first `e` in `list`, if there is one.
fn position(list: &Vec<EdgeHandle>, e: EdgeHandle) -> (r: Option<usize>)
    ensures
        match r {
            Some(p) => list@.index_of_first(e) == Some(p as int) && p < list@.len(),
            None => list@.index_of_first(e) is None,
        },
{
    let mut i: usize = 0;
    while i < list.len()
        invariant
            i <= list.len(),
            forall|j: int| 0 <= j < i ==> list@[j] != e,
        decreases list.len() - i,
    {
        if list[i] == e {
            proof {
                list@.index_of_first_ensures(e);
            }
            return Some(i);
        }
        i += 1;
    }
    proof {
        list@.index_of_first_ensures(e);
    }
    None
}

/// Takes the first `e` off `list`, moving the last handle into its place.
fn detach_edge(list: &mut Vec<EdgeHandle>, e: EdgeHandle)
    ensures
        final(list)@ == detach(old(list)@, e),
{
    if let Some(idx) = position(list, e) {
        list.swap_remove(idx);
    }
}

/// A graph that is staged for a commit: created empty, or loaded from a
/// persisted graph, and changed in memory.
pub struct GraphBuilder {
    new_vertex_count: u64,
    old_graph_data: Option<OldGraphData>,
    vertices: GenVec<VertexData>,
    edges: GenVec<EdgeData>,
}

impl View for GraphBuilder {
    type V = Graph;

    closed spec fn view(&self) -> Graph {
        Graph {
            fresh: self.new_vertex_count as nat,
            loaded: match self.old_graph_data {
                Some(d) => Some(d.graph@),
                None => None,
            },
            loaded_id: match self.old_graph_data {
                Some(d) => Some(d.id),
                None => None,
            },
            vertices: vertex_arena(self.vertices@),
            edges: self.edges@,
        }
    }
}

impl GraphBuilder {
    /// A builder that holds nothing and was not loaded.
    pub fn new() -> (g: Self)
        ensures
            g@ == Graph::empty(),
            g@.wf(),
            g@.listed(),
    {
        proof {
            Graph::lemma_empty_is_listed();
        }
        let g = Self {
            new_vertex_count: 0,
            old_graph_data: None,
            vertices: GenVec::new(),
            edges: GenVec::new(),
        };
        assert(g@.vertices.slots =~= Seq::empty());
        g
    }

    /// The number of staged vertices that were never persisted.
    pub fn count_new_vertices(&self) -> (n: u64)
        ensures
            n == self@.fresh,
    {
        self.new_vertex_count
    }

    /// Creates a vertex without attributes or edges, and returns a builder to edit it.
    pub fn new_vertex<'a>(&'a mut self) -> (vb: VertexBuilder<'a>)
        requires
            old(self)@.wf(),
        ensures
            vb.graph@ == old(self)@.new_vertex(),
            vb.handle == old(self)@.next_vertex().0,
            vb.wf(),
            *final(self) == *final(vb.graph),
            old(self)@.listed() ==> vb.graph@.listed(),
    {
        let ghost pre = self.vertices@;
        let data = VertexData {
            global_id: None,
            attributes: Vec::new(),
            incoming_edges: Vec::new(),
            outgoing_edges: Vec::new(),
        };
        proof {
            lemma_vertex_arena(pre, pre.next_handle(), data);
            assert(data@.attributes =~= Seq::empty());
            assert(data@ == Vertex::fresh());
        }
        let handle = self.vertices.add(data);
        proof {
            lemma_fresh_before_same(
                old(self)@.vertices.slots,
                old(self)@.vertices.slots,
                old(self)@.vertices.slots.len() as int,
            );
            assert(self.vertices@.slots.len() <= usize::MAX);
            old(self)@.lemma_new_vertex();
            if old(self)@.listed() {
                old(self)@.lemma_new_vertex_keeps_links();
            }
        }
        self.new_vertex_count += 1;
        assert(self@.vertices.agrees(old(self)@.new_vertex().vertices));
        VertexBuilder::new(self, handle)
    }

    /// Removes a vertex and all attached edges.
    pub fn remove_vertex(&mut self, handle: VertexHandle) -> (r: Result<(), LatticeError>)
        requires
            old(self)@.wf(),
            old(self)@.can_remove_vertex(handle),
        ensures
            final(self)@ == old(self)@.remove_vertex(handle),
            final(self)@.wf(),
            r is Ok <==> old(self)@.has_vertex(handle),
            r matches Err(e) ==> e is VertexNotFound,
            old(self)@.listed() ==> final(self)@.listed(),
            old(self)@.listed() && old(self)@.has_vertex(handle) ==> forall|e: EdgeHandle|
                #[trigger] final(self)@.has_edge(e) ==> old(self)@.has_edge(e) && old(self)@.edge(
                    e,
                ).from != handle && old(self)@.edge(e).to != handle,
    {
        let ghost pre = self.vertices@;
        proof {
            lemma_vertex_arena(pre, handle.0, arbitrary());
            if self@.listed() {
                self@.lemma_remove_vertex_keeps_links(handle);
            }
        }
        let removed = match self.vertices.remove(handle.0) {
            Some(v) => v,
            None => {
                assert(self@.vertices.agrees(old(self)@.vertices));
                return Err(LatticeError::VertexNotFound);
            },
        };
        proof {
            old(self)@.lemma_without_vertex(handle);
        }
        if removed.global_id.is_none() {
            self.new_vertex_count -= 1;
        }  // removing a new vertex decreases new vertex count

        let ghost base = old(self)@.without_vertex(handle);
        let ghost incoming = removed.incoming_edges@;
        let ghost outgoing = removed.outgoing_edges@;
        let ghost all = incoming + outgoing;
        assert(self@.vertices.agrees(base.vertices));
        assert(self@ == base);
        proof {
            base.lemma_remove_edges(Seq::empty());
            assert(incoming.take(0) =~= Seq::empty());
        }

        // remove all edges, ignore errors from self loop edges
        let mut i: usize = 0;
        while i < removed.incoming_edges.len()
            invariant
                i <= incoming.len(),
                incoming == removed.incoming_edges@,
                all == incoming + outgoing,
                base.wf(),
                base.can_remove_edges(all),
                self@ == base.remove_edges(incoming.take(i as int)),
                self@.wf(),
                forall|g: EdgeHandle| self@.has_edge(g) ==> base.has_edge(g),
            decreases incoming.len() - i,
        {
            let edge = removed.incoming_edges[i];
            proof {
                assert(all[i as int] == edge);
                assert(incoming.take(i + 1).drop_last() =~= incoming.take(i as int));
                self@.lemma_remove_edge(edge);
            }
            let _ = self.remove_edge(edge);
            i += 1;
        }
        assert(incoming.take(i as int) =~= incoming);
        assert(incoming + outgoing.take(0) =~= incoming);
        let mut j: usize = 0;
        while j < removed.outgoing_edges.len()
            invariant
                j <= outgoing.len(),
                outgoing == removed.outgoing_edges@,
                all == incoming + outgoing,
                base.wf(),
                base.can_remove_edges(all),
                self@ == base.remove_edges(incoming + outgoing.take(j as int)),
                self@.wf(),
                forall|g: EdgeHandle| self@.has_edge(g) ==> base.has_edge(g),
            decreases outgoing.len() - j,
        {
            let edge = removed.outgoing_edges[j];
            proof {
                assert(all[incoming.len() + j] == edge);
                assert((incoming + outgoing.take(j + 1)).drop_last() =~= incoming + outgoing.take(
                    j as int,
                ));
                self@.lemma_remove_edge(edge);
            }
            let _ = self.remove_edge(edge);
            j += 1;
        }
        assert(incoming + outgoing.take(j as int) =~= all);
        Ok(())
    }

    /// Return a VertexBuilder to edit the vertex.
    pub fn edit_vertex<'a>(&'a mut self, handle: VertexHandle) -> (r: Result<
        VertexBuilder<'a>,
        LatticeError,
    >)
        requires
            old(self)@.wf(),
        ensures
            match r {
                Ok(vb) => {
                    &&& old(self)@.has_vertex(handle)
                    &&& *vb.graph == *old(self)
                    &&& vb.handle == handle.0
                    &&& vb.wf()
                    &&& *final(self) == *final(vb.graph)
                },
                Err(e) => {
                    &&& !old(self)@.has_vertex(handle)
                    &&& e is VertexNotFound
                    &&& *final(self) == *old(self)
                },
            },
    {
        proof {
            lemma_vertex_arena(self.vertices@, handle.0, arbitrary());
        }
        if self.vertices.get(handle.0).is_none() {
            return Err(LatticeError::VertexNotFound);
        }
        Ok(VertexBuilder::new(self, handle.0))
    }

    /// Get vertex data.
    pub fn get_vertex(&self, handle: VertexHandle) -> (r: Option<&VertexData>)
        ensures
            match r {
                Some(v) => self@.has_vertex(handle) && v@ == self@.vertex(handle),
                None => !self@.has_vertex(handle),
            },
    {
        proof {
            lemma_vertex_arena(self.vertices@, handle.0, arbitrary());
        }
        self.vertices.get(handle.0)
    }

    /// Create a new edge to link vertices.
    pub fn new_edge(&mut self, from: VertexHandle, label: PropertyHandle, to: VertexHandle) -> (r:
        Result<&mut Self, LatticeError>)
        requires
            old(self)@.wf(),
        ensures
            match r {
                Ok(s) => {
                    &&& old(self)@.has_vertex(from) && old(self)@.has_vertex(to)
                    &&& s@ == old(self)@.new_edge(from, label, to)
                    &&& s@.wf()
                    &&& *final(self) == *final(s)
                    &&& old(self)@.listed() ==> s@.listed()
                },
                Err(e) => {
                    &&& !(old(self)@.has_vertex(from) && old(self)@.has_vertex(to))
                    &&& e is VertexNotFound
                    &&& *final(self) == *old(self)
                },
            },
    {
        proof {
            lemma_vertex_arena(self.vertices@, from.0, arbitrary());
            lemma_vertex_arena(self.vertices@, to.0, arbitrary());
        }
        if self.vertices.get(from.0).is_none() {
            return Err(LatticeError::VertexNotFound);
        }  // confirm 'from' exists
        if self.vertices.get(to.0).is_none() {
            return Err(LatticeError::VertexNotFound);
        }
        self.link(from, label, to);
        proof {
            if old(self)@.listed() {
                old(self)@.lemma_new_edge_keeps_links(from, label, to);
            }
        }
        Ok(self)
    }

    /// Creates the edge and lists it with both its ends.
    fn link(&mut self, from: VertexHandle, label: PropertyHandle, to: VertexHandle)
        requires
            old(self)@.wf(),
            old(self)@.has_vertex(from),
            old(self)@.has_vertex(to),
        ensures
            final(self)@ == old(self)@.new_edge(from, label, to),
            final(self)@.wf(),
            forall|g: VertexHandle| final(self)@.has_vertex(g) == old(self)@.has_vertex(g),
    {
        let ghost g0 = self@;
        // create edge
        let edge_handle = EdgeHandle(self.edges.add(EdgeData { from, label, to }));
        proof {
            assert(self.edges@.slots.len() <= usize::MAX);
            g0.lemma_new_edge(from, label, to);
        }
        let ghost g1 = self@;
        assert(g1 == Graph { edges: g0.edges.insert(EdgeData { from, to, label }), ..g0 });

        // add edge
        let ghost a1 = self.vertices@;
        if let Some(to_vertex) = self.vertices.get_mut(to.0) {
            to_vertex.incoming_edges.push(edge_handle);
        }
        proof {
            lemma_vertex_arena(a1, to.0, self.vertices@.value(to.0));
            assert(self@.vertices.agrees(g1.push_incoming(to, edge_handle).vertices));
        }
        let ghost g2 = self@;
        assert(g2 == g1.push_incoming(to, edge_handle));
        let ghost a2 = self.vertices@;
        proof {
            lemma_vertex_arena(a2, from.0, arbitrary());
        }
        if let Some(from_vertex) = self.vertices.get_mut(from.0) {
            from_vertex.outgoing_edges.push(edge_handle);
        }
        proof {
            lemma_vertex_arena(a2, from.0, self.vertices@.value(from.0));
            assert(self@.vertices.agrees(g2.push_outgoing(from, edge_handle).vertices));
        }
    }

    /// Takes the edge off one of the edge lists of the vertex.
    fn unlist(&mut self, v: VertexHandle, e: EdgeHandle, outgoing: bool)
        requires
            old(self)@.wf(),
        ensures
            final(self)@ == if outgoing {
                old(self)@.drop_outgoing(v, e)
            } else {
                old(self)@.drop_incoming(v, e)
            },
            final(self)@.wf(),
    {
        let ghost g0 = self@;
        let ghost a0 = self.vertices@;
        proof {
            lemma_vertex_arena(a0, v.0, arbitrary());
        }
        if let Some(data) = self.vertices.get_mut(v.0) {
            if outgoing {
                detach_edge(&mut data.outgoing_edges, e);
            } else {
                detach_edge(&mut data.incoming_edges, e);
            }
        }
        proof {
            let want = if outgoing {
                g0.drop_outgoing(v, e)
            } else {
                g0.drop_incoming(v, e)
            };
            if a0.live(v.0) {
                lemma_vertex_arena(a0, v.0, self.vertices@.value(v.0));
                g0.lemma_with_vertex(v, self.vertices@.value(v.0)@);
            }
            assert(self@.vertices.agrees(want.vertices));
        }
    }

    /// Lists the edge last in one of the edge lists of the vertex.
    fn list(&mut self, v: VertexHandle, e: EdgeHandle, outgoing: bool)
        requires
            old(self)@.wf(),
        ensures
            final(self)@ == if outgoing {
                old(self)@.push_outgoing(v, e)
            } else {
                old(self)@.push_incoming(v, e)
            },
            final(self)@.wf(),
    {
        let ghost g0 = self@;
        let ghost a0 = self.vertices@;
        proof {
            lemma_vertex_arena(a0, v.0, arbitrary());
        }
        if let Some(data) = self.vertices.get_mut(v.0) {
            if outgoing {
                data.outgoing_edges.push(e);
            } else {
                data.incoming_edges.push(e);
            }
        }
        proof {
            let want = if outgoing {
                g0.push_outgoing(v, e)
            } else {
                g0.push_incoming(v, e)
            };
            if a0.live(v.0) {
                lemma_vertex_arena(a0, v.0, self.vertices@.value(v.0));
                g0.lemma_with_vertex(v, self.vertices@.value(v.0)@);
            }
            assert(self@.vertices.agrees(want.vertices));
        }
    }

    /// Removes an edge from the graph.
    pub fn remove_edge(&mut self, handle: EdgeHandle) -> (r: Result<(), LatticeError>)
        requires
            old(self)@.wf(),
            old(self)@.has_edge(handle) ==> handle.0.generation < u32::MAX,
        ensures
            final(self)@ == old(self)@.remove_edge(handle),
            final(self)@.wf(),
            r is Ok <==> old(self)@.has_edge(handle),
            r matches Err(e) ==> e is EdgeNotFound,
            old(self)@.listed() ==> final(self)@.listed(),
    {
        let ghost g0 = self@;
        proof {
            g0.lemma_remove_edge(handle);
            if g0.listed() {
                g0.lemma_remove_edge_keeps_links(handle, None);
            }
        }
        let edge = match self.edges.remove(handle.0) {
            Some(e) => e,
            None => {
                assert(self@.edges.agrees(g0.edges));
                return Err(LatticeError::EdgeNotFound);
            },
        };
        let ghost g1 = self@;
        assert(g1 == Graph { edges: g0.edges.remove(handle.0), ..g0 });

        // detach from source
        let ghost a1 = self.vertices@;
        proof {
            lemma_vertex_arena(a1, edge.from.0, arbitrary());
        }
        if let Some(from) = self.vertices.get_mut(edge.from.0) {
            detach_edge(&mut from.outgoing_edges, handle);
        }
        proof {
            if a1.live(edge.from.0) {
                lemma_vertex_arena(a1, edge.from.0, self.vertices@.value(edge.from.0));
            }
            assert(self@.vertices.agrees(g1.drop_outgoing(edge.from, handle).vertices));
        }
        let ghost g2 = self@;
        assert(g2 == g1.drop_outgoing(edge.from, handle));

        // detach from destination
        let ghost a2 = self.vertices@;
        proof {
            lemma_vertex_arena(a2, edge.to.0, arbitrary());
        }
        if let Some(to) = self.vertices.get_mut(edge.to.0) {
            detach_edge(&mut to.incoming_edges, handle);
        }
        proof {
            if a2.live(edge.to.0) {
                lemma_vertex_arena(a2, edge.to.0, self.vertices@.value(edge.to.0));
            }
            assert(self@.vertices.agrees(g2.drop_incoming(edge.to, handle).vertices));
        }
        Ok(())
    }

    /// Get edge data.
    pub fn get_edge(&self, handle: EdgeHandle) -> (r: Option<&EdgeData>)
        ensures
            match r {
                Some(e) => self@.has_edge(handle) && *e == self@.edge(handle),
                None => !self@.has_edge(handle),
            },
    {
        self.edges.get(handle.0)
    }

    /// Return an EdgeBuilder to edit the edge.
    pub fn edit_edge<'a>(&'a mut self, handle: EdgeHandle) -> (r: Result<
        EdgeBuilder<'a>,
        LatticeError,
    >)
        requires
            old(self)@.wf(),
        ensures
            match r {
                Ok(eb) => {
                    &&& old(self)@.has_edge(handle)
                    &&& *eb.graph == *old(self)
                    &&& eb.handle == handle.0
                    &&& eb.wf()
                    &&& *final(self) == *final(eb.graph)
                },
                Err(e) => {
                    &&& !old(self)@.has_edge(handle)
                    &&& e is EdgeNotFound
                    &&& *final(self) == *old(self)
                },
            },
    {
        if self.edges.get(handle.0).is_none() {
            return Err(LatticeError::EdgeNotFound);
        }
        Ok(EdgeBuilder::new(self, handle.0))
    }

    /// The global id under which the vertex was loaded, if it was loaded.
    pub fn get_vertex_global_id(&self, handle: VertexHandle) -> (r: Result<
        Option<GlobalVertexId>,
        LatticeError,
    >)
        ensures
            match r {
                Ok(id) => self@.has_vertex(handle) && id == self@.vertex(handle).global_id,
                Err(e) => !self@.has_vertex(handle) && e is VertexNotFound,
            },
    {
        match self.get_vertex(handle) {
            Some(v) => Ok(v.global_id),
            None => Err(LatticeError::VertexNotFound),
        }
    }

    /// The attributes of the vertex, to read and to change.
    pub fn get_mut_attributes(&mut self, handle: VertexHandle) -> (r: Result<
        &mut Vec<(PropertyHandle, Primitive)>,
        LatticeError,
    >)
        ensures
            match r {
                Ok(attrs) => {
                    &&& old(self)@.has_vertex(handle)
                    &&& attributes_of(attrs@) == old(self)@.vertex(handle).attributes
                    &&& final(self)@.agrees(
                        old(self)@.with_attributes(handle, attributes_of(final(attrs)@)),
                    )
                    &&& old(self)@.wf() ==> final(self)@.wf()
                    &&& old(self)@.listed() ==> final(self)@.listed()
                },
                Err(e) => {
                    &&& !old(self)@.has_vertex(handle)
                    &&& e is VertexNotFound
                    &&& final(self)@.agrees(old(self)@)
                },
            },
    {
        proof {
            lemma_vertex_arena(self.vertices@, handle.0, arbitrary());
            let now = self@;
            let arena = self.vertices@;
            let was = arena.value(handle.0);
            // whatever the vertex is replaced by, with other attributes only,
            // the builder is the one with these attributes, and stays well formed
            assert forall|after: Arena<VertexData>, v: VertexData| #[trigger]
                after.agrees(arena.replace(handle.0, v)) && arena.live(handle.0) && v.global_id
                    == was.global_id && v.incoming_edges == was.incoming_edges && v.outgoing_edges
                    == was.outgoing_edges implies ({
                let g = Graph { vertices: vertex_arena(after), ..now };
                &&& g.agrees(now.with_attributes(handle, attributes_of(v.attributes@)))
                &&& now.wf() ==> g.wf()
                &&& now.listed() ==> g.listed()
            }) by {
                let g = Graph { vertices: vertex_arena(after), ..now };
                let want = now.with_attributes(handle, attributes_of(v.attributes@));
                lemma_vertex_arena(arena, handle.0, v);
                assert(after =~= arena.replace(handle.0, v));
                assert(v@ == Vertex { attributes: attributes_of(v.attributes@), ..now.vertex(handle) });
                assert(g.agrees(want));
                g.lemma_agrees(want);
                if now.wf() {
                    now.lemma_with_vertex(handle, v@);
                }
                if now.listed() {
                    now.lemma_with_attributes_keeps_links(handle, attributes_of(v.attributes@));
                }
            }
        }
        match self.vertices.get_mut(handle.0) {
            Some(v) => Ok(&mut v.attributes),
            None => Err(LatticeError::VertexNotFound),
        }
    }

    /// The edges that end at the vertex.
    pub fn get_incoming_edges(&self, handle: VertexHandle) -> (r: Result<
        &Vec<EdgeHandle>,
        LatticeError,
    >)
        ensures
            match r {
                Ok(list) => self@.has_vertex(handle) && list@ == self@.vertex(handle).incoming,
                Err(e) => !self@.has_vertex(handle) && e is VertexNotFound,
            },
    {
        match self.get_vertex(handle) {
            Some(v) => Ok(&v.incoming_edges),
            None => Err(LatticeError::VertexNotFound),
        }
    }

    /// The edges that start at the vertex.
    pub fn get_outgoing_edges(&self, handle: VertexHandle) -> (r: Result<
        &Vec<EdgeHandle>,
        LatticeError,
    >)
        ensures
            match r {
                Ok(list) => self@.has_vertex(handle) && list@ == self@.vertex(handle).outgoing,
                Err(e) => !self@.has_vertex(handle) && e is VertexNotFound,
            },
    {
        match self.get_vertex(handle) {
            Some(v) => Ok(&v.outgoing_edges),
            None => Err(LatticeError::VertexNotFound),
        }
    }

    /// Iterate through all graph vertices.
    pub fn iter_vertices(&self) -> (r: Vec<(Handle, &VertexData)>)
        ensures
            r@.len() == self@.vertices.handles_from(0).len(),
            forall|k: int|
                0 <= k < r@.len() ==> (#[trigger] r@[k]).0 == self@.vertices.handles_from(0)[k]
                    && r@[k].1@ == self@.vertices.value(r@[k].0),
    {
        let r = self.vertices.iter();
        proof {
            let a = self.vertices@;
            self.vertices.lemma_slots_bounded();
            lemma_vertex_arena_handles(a, 0, a.slots.len() as int);
            a.lemma_handles_between(0, a.slots.len() as int);
            assert forall|k: int| 0 <= k < r@.len() implies (#[trigger] r@[k]).0
                == self@.vertices.handles_from(0)[k] && r@[k].1@ == self@.vertices.value(
                r@[k].0,
            ) by {
                let h = a.handles_from(0)[k];
                assert(a.live(h));
                lemma_vertex_arena(a, h, arbitrary());
            }
        }
        r
    }

    /// Iterate through all graph edges.
    pub fn iter_edges(&self) -> (r: Vec<(Handle, &EdgeData)>)
        ensures
            r@.len() == self@.edges.handles_from(0).len(),
            forall|k: int|
                0 <= k < r@.len() ==> (#[trigger] r@[k]).0 == self@.edges.handles_from(0)[k]
                    && *r@[k].1 == self@.edges.value(r@[k].0),
    {
        self.edges.iter()
    }

    /// Stages a persisted graph for editing: vertex and edge `i` of `graph`
    /// stand in slot `i` of the builder.
    pub fn from_prepared(graph: PreparedGraph) -> (b: Self)
        requires
            graph@.linked(),
        ensures
            b@ == Graph::from_record(graph@),
            b@.wf(),
            b@.listed(),
    {
        let ghost g = graph@;
        let mut builder = Self::new();
        let mut id_map: HashMap<u64, VertexHandle> = HashMap::new();

        // populate vertices
        let mut i: usize = 0;
        while i < graph.vertices.len()
            invariant
                i <= graph.vertices.len(),
                g == graph@,
                builder.new_vertex_count == 0,
                builder.old_graph_data is None,
                builder.edges@ == Arena::<EdgeData>::empty(),
                builder.vertices@.wf(),
                vertex_arena(builder.vertices@).agrees(loaded_vertices(g, i as int, 0)),
                forall|id: u64|
                    id_map@.contains_key(id) <==> (#[trigger] g.position_before(id, i as int)) is Some,
                forall|id: u64|
                    id_map@.contains_key(id) ==> (#[trigger] id_map@[id]) == VertexHandle(
                        loaded_handle(g.position_before(id, i as int)->0),
                    ),
            decreases graph.vertices.len() - i,
        {
            let v = &graph.vertices[i];
            let data = VertexData {
                global_id: Some(v.id),
                attributes: clone_attributes(&v.attrs),
                incoming_edges: Vec::new(),
                outgoing_edges: Vec::new(),
            };
            let ghost before = builder.vertices@;
            proof {
                lemma_vertex_arena(before, before.next_handle(), data);
                assert(g.vertices[i as int] == v@);
                assert(data@ == loaded_vertex(g, i as int, 0));
            }
            let handle = builder.vertices.add(data);
            let ghost map_before = id_map@;
            id_map.insert(v.id, VertexHandle(handle));
            proof {
                assert(vertex_arena(builder.vertices@).slots =~= loaded_vertices(
                    g,
                    i + 1,
                    0,
                ).slots);
                assert forall|id: u64|
                    id_map@.contains_key(id) <==> (#[trigger] g.position_before(
                        id,
                        i + 1,
                    )) is Some by {
                    assert(g.position_before(id, i as int) is Some <==> map_before.contains_key(
                        id,
                    ));
                }
                assert forall|id: u64| id_map@.contains_key(id) implies (#[trigger] id_map@[id])
                    == VertexHandle(loaded_handle(g.position_before(id, i + 1)->0)) by {
                    if id != v.id {
                        assert(map_before.contains_key(id));
                        assert(map_before[id] == VertexHandle(
                            loaded_handle(g.position_before(id, i as int)->0),
                        ));
                    }
                }
            }
            i += 1;
        }

        // populate edges
        let mut k: usize = 0;
        while k < graph.edges.len()
            invariant
                k <= graph.edges.len(),
                i == graph.vertices.len(),
                g == graph@,
                g.linked(),
                builder.new_vertex_count == 0,
                builder.old_graph_data is None,
                builder.edges@.wf(),
                builder.edges@.agrees(loaded_edges(g, k as int)),
                builder.vertices@.wf(),
                vertex_arena(builder.vertices@).agrees(loaded_vertices(g, i as int, k as int)),
                forall|id: u64| id_map@.contains_key(id) <==> (#[trigger] g.position_of(id)) is Some,
                forall|id: u64|
                    id_map@.contains_key(id) ==> (#[trigger] id_map@[id]) == VertexHandle(
                        loaded_handle(g.position_of(id)->0),
                    ),
            decreases graph.edges.len() - k,
        {
            let e = &graph.edges[k];
            proof {
                assert(g.edges[k as int] == *e);
                g.lemma_position_before(e.from, g.vertices.len() as int);
                g.lemma_position_before(e.to, g.vertices.len() as int);
            }
            let from = match id_map.get(&e.from) {
                Some(h) => *h,
                None => VertexHandle(Handle { generation: 0, index: 0 }),
            };
            let to = match id_map.get(&e.to) {
                Some(h) => *h,
                None => VertexHandle(Handle { generation: 0, index: 0 }),
            };
            let ghost pf = g.position_of(e.from)->0;
            let ghost pt = g.position_of(e.to)->0;
            assert(from == VertexHandle(loaded_handle(pf)));
            assert(to == VertexHandle(loaded_handle(pt)));
            let handle = builder.edges.add(EdgeData { from, to, label: e.label });
            assert(handle == loaded_handle(k as int));
            assert(builder.edges@.slots =~= loaded_edges(g, k + 1).slots);
            let ghost a1 = builder.vertices@;
            proof {
                lemma_vertex_arena(a1, from.0, arbitrary());
            }
            if let Some(v) = builder.vertices.get_mut(from.0) {
                v.outgoing_edges.push(EdgeHandle(handle));
            }
            let ghost a2 = builder.vertices@;
            proof {
                lemma_vertex_arena(a1, from.0, a2.value(from.0));
                a1.lemma_replace(from.0, a2.value(from.0));
                lemma_vertex_arena(a2, to.0, arbitrary());
            }
            if let Some(v) = builder.vertices.get_mut(to.0) {
                v.incoming_edges.push(EdgeHandle(handle));
            }
            proof {
                let a3 = builder.vertices@;
                lemma_vertex_arena(a2, to.0, a3.value(to.0));
                a2.lemma_replace(to.0, a3.value(to.0));
                let want = loaded_vertices(g, i as int, k + 1);
                let have = vertex_arena(a3);
                assert forall|j: int| 0 <= j < want.slots.len() implies have.slots[j]
                    == want.slots[j] by {
                    let w = loaded_vertex(g, j, k + 1);
                    let p = loaded_vertex(g, j, k as int);
                    assert(vertex_arena(a1).slots[j].item == Some(p));
                    assert(have.slots[j].item->0.incoming =~= w.incoming);
                    assert(have.slots[j].item->0.outgoing =~= w.outgoing);
                }
                assert(have.slots =~= want.slots);
            }
            k += 1;
        }

        proof {
            builder.vertices.lemma_slots_bounded();
            builder.edges.lemma_slots_bounded();
            Graph::lemma_from_record(g);
            lemma_loaded_is_listed(g);
        }
        builder.old_graph_data = Some(OldGraphData { id: graph.id, graph });
        assert(builder@.vertices.agrees(Graph::from_record(g).vertices));
        assert(builder@.edges.agrees(Graph::from_record(g).edges));
        builder
    }

    /// The id of the graph that the builder was loaded from, if it was loaded.
    pub fn loaded_graph_id(&self) -> (r: Option<GraphId>)
        ensures
            r == self@.loaded_id,
    {
        match &self.old_graph_data {
            Some(d) => Some(d.id),
            None => None,
        }
    }

    /// Whether both ends of every staged edge point at an occupied vertex slot.
    pub fn endpoints_resolve(&self) -> (r: bool)
        ensures
            r == self@.resolvable(),
    {
        let n = self.edges.slot_count();
        let mut k: usize = 0;
        proof {
            self.vertices.lemma_slots_bounded();
        }
        while k < n
            invariant
                k <= n,
                n == self@.edges.slots.len(),
                forall|j: int|
                    0 <= j < k && (#[trigger] self@.edges.slots[j]).item is Some ==> {
                        &&& self@.vertices.occupied(self@.edges.slots[j].item->0.from.0.index as int)
                        &&& self@.vertices.occupied(self@.edges.slots[j].item->0.to.0.index as int)
                    },
            decreases n - k,
        {
            if let Some(e) = self.edges.get_index(k) {
                if self.vertices.get_index(e.from.0.index).is_none() || self.vertices.get_index(
                    e.to.0.index,
                ).is_none() {
                    assert(self@.edges.slots[k as int].item is Some);
                    return false;
                }
            }
            k += 1;
        }
        true
    }

    /// Takes the builder apart: the vertex arena, the edge arena, and the
    /// graph that the builder was loaded from.
    pub fn into_parts(self) -> (parts: (GenVec<VertexData>, GenVec<EdgeData>, Option<OldGraphData>))
        ensures
            vertex_arena(parts.0@) == self@.vertices,
            parts.1@ == self@.edges,
            match parts.2 {
                Some(d) => self@.loaded == Some(d.graph@) && self@.loaded_id == Some(d.id),
                None => self@.loaded is None && self@.loaded_id is None,
            },
    {
        (self.vertices, self.edges, self.old_graph_data)
    }
}

impl Default for GraphBuilder {
    fn default() -> (g: Self)
        ensures
            g@ == Graph::empty(),
            g@.wf(),
    {
        Self::new()
    }
}

/// The view of the vertex arena lists the same handles as the arena.
pub proof fn lemma_vertex_arena_handles(a: Arena<VertexData>, start: int, end: int)
    requires
        0 <= start,
        end <= a.slots.len(),
    ensures
        vertex_arena(a).handles_between(start, end) == a.handles_between(start, end),
    decreases end - start,
{
    if end > start {
        lemma_vertex_arena_handles(a, start, end - 1);
    }
}

/// Edits one vertex of a graph builder.
pub struct VertexBuilder<'a> {
    pub graph: &'a mut GraphBuilder,
    pub handle: Handle,
}

impl<'a> VertexBuilder<'a> {
    /// The graph is well formed and the vertex resolves in it.
    pub open spec fn wf(&self) -> bool {
        self.graph@.wf() && self.graph@.has_vertex(VertexHandle(self.handle))
    }

    fn new(graph: &'a mut GraphBuilder, handle: Handle) -> (vb: Self)
        ensures
            *vb.graph == *old(graph),
            vb.handle == handle,
            *final(graph) == *final(vb.graph),
    {
        Self { graph, handle }
    }

    /// Returns the vertex handle.
    pub fn handle(&self) -> (h: VertexHandle)
        ensures
            h == VertexHandle(self.handle),
    {
        VertexHandle(self.handle)
    }

    /// Create a new attribute with a value.
    /// * A value that cannot be stored is refused, and nothing changes.
    pub fn new_attribute<V: Value>(&mut self, attr: PropertyHandle, value: V) -> (r: Result<
        &mut Self,
        LatticeError,
    >)
        requires
            old(self).wf(),
        ensures
            match r {
                Ok(s) => {
                    &&& value.scalar().storable()
                    &&& s.graph@ == old(self).graph@.with_attributes(
                        VertexHandle(old(self).handle),
                        old(self).graph@.vertex(VertexHandle(old(self).handle)).attributes.push(
                            (attr, value.scalar()),
                        ),
                    )
                    &&& s.handle == old(self).handle
                    &&& s.wf()
                    &&& *final(s.graph) == *final(old(self).graph)
                    &&& *final(self) == *final(s)
                    &&& old(self).graph@.listed() ==> s.graph@.listed()
                },
                Err(e) => {
                    &&& !value.scalar().storable()
                    &&& e is NumberTooBig
                    &&& *final(self) == *old(self)
                },
            },
    {
        proof {
            if self.graph@.listed() {
                self.graph@.lemma_with_attributes_keeps_links(
                    VertexHandle(self.handle),
                    self.graph@.vertex(VertexHandle(self.handle)).attributes.push(
                        (attr, value.scalar()),
                    ),
                );
            }
        }
        let v = value.to_primitive();
        match v.verify() {
            Ok(()) => {},
            Err(e) => {
                return Err(e);
            },
        }
        let ghost g0 = self.graph@;
        let ghost a0 = self.graph.vertices@;
        let ghost h = VertexHandle(self.handle);
        proof {
            lemma_vertex_arena(a0, self.handle, arbitrary());
        }
        if let Some(data) = self.graph.vertices.get_mut(self.handle) {
            data.attributes.push((attr, v));
        }
        proof {
            let after = self.graph.vertices@.value(self.handle);
            lemma_vertex_arena(a0, self.handle, after);
            assert(after@.attributes =~= g0.vertex(h).attributes.push((attr, value.scalar())));
            assert(self.graph@.vertices.agrees(
                g0.with_attributes(h, g0.vertex(h).attributes.push((attr, value.scalar()))).vertices,
            ));
            g0.lemma_with_vertex(h, after@);
        }
        Ok(self)
    }

    /// Create a new edge to link vertices.
    pub fn new_edge(&mut self, label: PropertyHandle, handle: VertexHandle) -> (r: Result<
        &mut Self,
        LatticeError,
    >)
        requires
            old(self).wf(),
        ensures
            match r {
                Ok(s) => {
                    &&& old(self).graph@.has_vertex(handle)
                    &&& s.graph@ == old(self).graph@.new_edge(
                        VertexHandle(old(self).handle),
                        label,
                        handle,
                    )
                    &&& s.handle == old(self).handle
                    &&& s.wf()
                    &&& *final(s.graph) == *final(old(self).graph)
                    &&& *final(self) == *final(s)
                    &&& old(self).graph@.listed() ==> s.graph@.listed()
                },
                Err(e) => {
                    &&& !old(self).graph@.has_vertex(handle)
                    &&& e is VertexNotFound
                    &&& *final(self) == *old(self)
                },
            },
    {
        proof {
            lemma_vertex_arena(self.graph.vertices@, handle.0, arbitrary());
        }
        if self.graph.vertices.get(handle.0).is_none() {
            return Err(LatticeError::VertexNotFound);
        }
        self.graph.link(VertexHandle(self.handle), label, handle);
        proof {
            if old(self).graph@.listed() {
                old(self).graph@.lemma_new_edge_keeps_links(
                    VertexHandle(self.handle),
                    label,
                    handle,
                );
            }
        }
        Ok(self)
    }
}

/// Edits one edge of a graph builder.
pub struct EdgeBuilder<'a> {
    pub graph: &'a mut GraphBuilder,
    pub handle: Handle,
}

impl<'a> EdgeBuilder<'a> {
    /// The graph is well formed and the edge resolves in it.
    pub open spec fn wf(&self) -> bool {
        self.graph@.wf() && self.graph@.has_edge(EdgeHandle(self.handle))
    }

    /// The edge that is edited.
    pub open spec fn edge(&self) -> EdgeData {
        self.graph@.edge(EdgeHandle(self.handle))
    }

    fn new(graph: &'a mut GraphBuilder, handle: Handle) -> (eb: Self)
        ensures
            *eb.graph == *old(graph),
            eb.handle == handle,
            *final(graph) == *final(eb.graph),
    {
        Self { graph, handle }
    }

    /// Puts `data` in place of the edge.
    fn set_self(&mut self, data: EdgeData)
        requires
            old(self).wf(),
        ensures
            final(self).graph@ == old(self).graph@.with_edge(EdgeHandle(old(self).handle), data),
            final(self).handle == old(self).handle,
            final(self).wf(),
            *final(final(self).graph) == *final(old(self).graph),
    {
        let ghost g0 = self.graph@;
        proof {
            g0.lemma_with_edge(EdgeHandle(self.handle), data);
        }
        if let Some(e) = self.graph.edges.get_mut(self.handle) {
            *e = data;
        }  // must exist to be using the fn

        assert(self.graph@.edges.agrees(g0.with_edge(EdgeHandle(self.handle), data).edges));
    }

    /// Change the source (from) of the edge.
    /// * Fails with `VertexNotFound` unless the vertex resolves.
    /// * The edge moves from the outgoing edges of its old source to those
    ///   of the new one.
    pub fn set_source(&mut self, handle: VertexHandle) -> (r: Result<&mut Self, LatticeError>)
        requires
            old(self).wf(),
        ensures
            match r {
                Ok(s) => {
                    &&& old(self).graph@.has_vertex(handle)
                    &&& s.graph@ == old(self).graph@.set_source(
                        EdgeHandle(old(self).handle),
                        handle,
                    )
                    &&& s.handle == old(self).handle
                    &&& s.wf()
                    &&& *final(s.graph) == *final(old(self).graph)
                    &&& *final(self) == *final(s)
                    &&& old(self).graph@.listed() ==> s.graph@.listed()
                },
                Err(e) => {
                    &&& !old(self).graph@.has_vertex(handle)
                    &&& e is VertexNotFound
                    &&& *final(self) == *old(self)
                },
            },
    {
        if self.graph.get_vertex(handle).is_none() {
            return Err(LatticeError::VertexNotFound);
        }
        let me = EdgeHandle(self.handle);
        let (from, to, label) = match self.graph.edges.get(self.handle) {
            Some(e) => (e.from, e.to, e.label),
            None => (handle, handle, PropertyHandle(0)),
        };
        proof {
            if self.graph@.listed() {
                self.graph@.lemma_set_source_keeps_links(me, handle);
            }
        }
        self.set_self(EdgeData { from: handle, to, label });
        self.graph.unlist(from, me, true);
        self.graph.list(handle, me, true);
        Ok(self)
    }

    /// Change the destination (to) of the edge.
    /// * Fails with `VertexNotFound` unless the vertex resolves.
    /// * The edge moves from the incoming edges of its old destination to
    ///   those of the new one.
    pub fn set_destination(&mut self, handle: VertexHandle) -> (r: Result<
        &mut Self,
        LatticeError,
    >)
        requires
            old(self).wf(),
        ensures
            match r {
                Ok(s) => {
                    &&& old(self).graph@.has_vertex(handle)
                    &&& s.graph@ == old(self).graph@.set_destination(
                        EdgeHandle(old(self).handle),
                        handle,
                    )
                    &&& s.handle == old(self).handle
                    &&& s.wf()
                    &&& *final(s.graph) == *final(old(self).graph)
                    &&& *final(self) == *final(s)
                    &&& old(self).graph@.listed() ==> s.graph@.listed()
                },
                Err(e) => {
                    &&& !old(self).graph@.has_vertex(handle)
                    &&& e is VertexNotFound
                    &&& *final(self) == *old(self)
                },
            },
    {
        if self.graph.get_vertex(handle).is_none() {
            return Err(LatticeError::VertexNotFound);
        }
        let me = EdgeHandle(self.handle);
        let (from, to, label) = match self.graph.edges.get(self.handle) {
            Some(e) => (e.from, e.to, e.label),
            None => (handle, handle, PropertyHandle(0)),
        };
        proof {
            if self.graph@.listed() {
                self.graph@.lemma_set_destination_keeps_links(me, handle);
            }
        }
        self.set_self(EdgeData { from, to: handle, label });
        self.graph.unlist(to, me, false);
        self.graph.list(handle, me, false);
        Ok(self)
    }

    /// Change the edge label.
    pub fn set_label(&mut self, label: PropertyHandle) -> (r: Result<&mut Self, LatticeError>)
        requires
            old(self).wf(),
        ensures
            match r {
                Ok(s) => {
                    &&& s.graph@ == old(self).graph@.with_edge(
                        EdgeHandle(old(self).handle),
                        EdgeData { label, ..old(self).edge() },
                    )
                    &&& s.handle == old(self).handle
                    &&& s.wf()
                    &&& *final(s.graph) == *final(old(self).graph)
                    &&& *final(self) == *final(s)
                    &&& old(self).graph@.listed() ==> s.graph@.listed()
                },
                Err(_) => false,
            },
    {
        proof {
            if self.graph@.listed() {
                self.graph@.lemma_set_label_keeps_links(EdgeHandle(self.handle), label);
            }
        }
        let (from, to) = match self.graph.edges.get(self.handle) {
            Some(e) => (e.from, e.to),
            None => (VertexHandle(self.handle), VertexHandle(self.handle)),
        };
        self.set_self(EdgeData { from, to, label });
        Ok(self)
    }
}

} // verus!
