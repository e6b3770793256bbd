use crate::graph::graph_builder::{
    detach, edges_into, edges_out_of, loaded_edge, loaded_handle, loaded_vertex, EdgeData,
    EdgeHandle, Graph, Vertex, VertexHandle,
};
use crate::graph::graph_prepared::{Attribute, GraphRecord};
use crate::props::properties::PropertyHandle;
use vstd::prelude::*;

verus! {

/// Taking a handle off a list keeps every other handle of the list.
pub proof fn lemma_detach_keeps(list: Seq<EdgeHandle>, e: EdgeHandle, x: EdgeHandle)
    requires
        list.contains(x),
        x != e,
    ensures
        detach(list, e).contains(x),
{
    list.index_of_first_ensures(e);
    match list.index_of_first(e) {
        Some(p) => {
            let k = choose|k: int| 0 <= k < list.len() && list[k] == x;
            let after = detach(list, e);
            if k == list.len() - 1 {
                assert(after[p] == x);
            } else {
                assert(after[k] == x);
            }
        },
        None => {},
    }
}

/// A handle that is put last on a list is on it, with every handle that was.
pub proof fn lemma_push_keeps(list: Seq<EdgeHandle>, e: EdgeHandle, x: EdgeHandle)
    requires
        list.contains(x) || x == e,
    ensures
        list.push(e).contains(x),
{
    if x == e {
        assert(list.push(e)[list.len() as int] == e);
    } else {
        let k = choose|k: int| 0 <= k < list.len() && list[k] == x;
        assert(list.push(e)[k] == x);
    }
}

impl Graph {
    /// Whether the edge `e` is listed with its ends: among the outgoing
    /// edges of its source and among the incoming edges of its
    /// destination, both of which resolve. An end that is `hole` is passed
    /// over.
    pub open spec fn attached_but(self, e: EdgeHandle, hole: Option<VertexHandle>) -> bool {
        let d = self.edge(e);
        &&& Some(d.from) != hole ==> self.has_vertex(d.from) && self.vertex(d.from).outgoing.contains(
            e,
        )
        &&& Some(d.to) != hole ==> self.has_vertex(d.to) && self.vertex(d.to).incoming.contains(e)
    }

    /// Whether every edge is listed with its ends, but for ends that are `hole`.
    pub open spec fn listed_but(self, hole: Option<VertexHandle>) -> bool {
        forall|e: EdgeHandle| self.has_edge(e) ==> #[trigger] self.attached_but(e, hole)
    }

    /// Whether every edge is listed with both its ends, so that the lists
    /// of a vertex hold every edge that is attached to it.
    pub open spec fn listed(self) -> bool {
        self.listed_but(None)
    }

    /// What a replaced vertex changes: the vertex itself, where it resolves,
    /// and no other.
    pub proof fn lemma_with_vertex_changes(self, v: VertexHandle, to: Vertex, f: VertexHandle)
        ensures
            self.with_vertex(v, to).has_vertex(f) == self.has_vertex(f),
            self.with_vertex(v, to).edges == self.edges,
            self.has_vertex(f) && f != v ==> self.with_vertex(v, to).vertex(f) == self.vertex(f),
            self.has_vertex(v) ==> self.with_vertex(v, to).vertex(v) == to,
            !self.has_vertex(v) ==> self.with_vertex(v, to) == self,
    {
        if self.has_vertex(f) && f != v && self.has_vertex(v) {
            assert(f.0.index != v.0.index);
        }
    }

    /// Removing an edge keeps the other edges listed.
    pub proof fn lemma_remove_edge_keeps_links(self, h: EdgeHandle, hole: Option<VertexHandle>)
        requires
            self.listed_but(hole),
        ensures
            self.remove_edge(h).listed_but(hole),
            !self.remove_edge(h).has_edge(h),
            forall|e: EdgeHandle|
                #[trigger] self.remove_edge(h).has_edge(e) ==> self.has_edge(e)
                    && self.remove_edge(h).edge(e) == self.edge(e),
            forall|f: VertexHandle| #[trigger] self.remove_edge(h).has_vertex(f) == self.has_vertex(f),
    {
        if self.has_edge(h) {
            let d = self.edge(h);
            let g1 = Graph { edges: self.edges.remove(h.0), ..self };
            let v1 = Vertex { outgoing: detach(g1.vertex(d.from).outgoing, h), ..g1.vertex(d.from) };
            let g2 = g1.with_vertex(d.from, v1);
            let v2 = Vertex { incoming: detach(g2.vertex(d.to).incoming, h), ..g2.vertex(d.to) };
            let g3 = g2.with_vertex(d.to, v2);
            assert(g3 == self.remove_edge(h));
            assert forall|e: EdgeHandle| #[trigger] g3.has_edge(e) implies self.has_edge(e)
                && g3.edge(e) == self.edge(e) && e != h by {
                g1.lemma_with_vertex_changes(d.from, v1, d.from);
                g2.lemma_with_vertex_changes(d.to, v2, d.to);
                if e.0.index == h.0.index {
                    assert(false);
                }
            }
            assert forall|f: VertexHandle| #[trigger] g3.has_vertex(f) == self.has_vertex(f) by {
                g1.lemma_with_vertex_changes(d.from, v1, f);
                g2.lemma_with_vertex_changes(d.to, v2, f);
            }
            assert forall|e: EdgeHandle| g3.has_edge(e) implies #[trigger] g3.attached_but(
                e,
                hole,
            ) by {
                assert(self.attached_but(e, hole));
                let x = self.edge(e);
                g1.lemma_with_vertex_changes(d.from, v1, x.from);
                g2.lemma_with_vertex_changes(d.to, v2, x.from);
                g1.lemma_with_vertex_changes(d.from, v1, x.to);
                g2.lemma_with_vertex_changes(d.to, v2, x.to);
                g1.lemma_with_vertex_changes(d.from, v1, d.to);
                if Some(x.from) != hole {
                    let out = self.vertex(x.from).outgoing;
                    if x.from == d.from {
                        lemma_detach_keeps(out, h, e);
                    }
                }
                if Some(x.to) != hole {
                    let inc = self.vertex(x.to).incoming;
                    if x.to == d.to {
                        lemma_detach_keeps(inc, h, e);
                    }
                }
            }
        }
    }

    /// Removing a list of edges keeps the other edges listed, and leaves
    /// none of the list in the builder.
    pub proof fn lemma_remove_edges_keeps_links(
        self,
        list: Seq<EdgeHandle>,
        hole: Option<VertexHandle>,
    )
        requires
            self.listed_but(hole),
        ensures
            self.remove_edges(list).listed_but(hole),
            forall|k: int| 0 <= k < list.len() ==> !self.remove_edges(list).has_edge(#[trigger] list[k]),
            forall|e: EdgeHandle|
                #[trigger] self.remove_edges(list).has_edge(e) ==> self.has_edge(e)
                    && self.remove_edges(list).edge(e) == self.edge(e),
            forall|f: VertexHandle|
                #[trigger] self.remove_edges(list).has_vertex(f) == self.has_vertex(f),
        decreases list.len(),
    {
        if list.len() > 0 {
            let front = list.drop_last();
            self.lemma_remove_edges_keeps_links(front, hole);
            let mid = self.remove_edges(front);
            mid.lemma_remove_edge_keeps_links(list.last(), hole);
            let after = mid.remove_edge(list.last());
            assert forall|k: int| 0 <= k < list.len() implies !after.has_edge(#[trigger] list[k]) by {
                if k < front.len() {
                    assert(front[k] == list[k]);
                    assert(!mid.has_edge(front[k]));
                }
            }
            assert forall|e: EdgeHandle| #[trigger] after.has_edge(e) implies self.has_edge(e)
                && after.edge(e) == self.edge(e) by {
                assert(mid.has_edge(e));
            }
            assert forall|f: VertexHandle| #[trigger] after.has_vertex(f) == self.has_vertex(f) by {
                assert(mid.has_vertex(f) == self.has_vertex(f));
            }
        }
    }

    /// Removing a vertex removes every edge that is attached to it, and
    /// keeps the other edges listed with their ends.
    pub proof fn lemma_remove_vertex_keeps_links(self, h: VertexHandle)
        requires
            self.listed(),
        ensures
            self.remove_vertex(h).listed(),
            !self.remove_vertex(h).has_vertex(h),
            forall|e: EdgeHandle|
                #[trigger] self.remove_vertex(h).has_edge(e) ==> self.has_edge(e)
                    && self.remove_vertex(h).edge(e) == self.edge(e),
            self.has_vertex(h) ==> forall|e: EdgeHandle|
                #[trigger] self.remove_vertex(h).has_edge(e) ==> self.edge(e).from != h
                    && self.edge(e).to != h,
    {
        if self.has_vertex(h) {
            let v = self.vertex(h);
            let list = v.incoming + v.outgoing;
            let g1 = self.without_vertex(h);
            let after = g1.remove_edges(list);
            assert(after == self.remove_vertex(h));
            assert(!g1.has_vertex(h));
            assert forall|e: EdgeHandle| g1.has_edge(e) implies #[trigger] g1.attached_but(
                e,
                Some(h),
            ) by {
                assert(self.attached_but(e, None));
                let d = self.edge(e);
                if d.from != h {
                    assert(d.from.0.index != h.0.index);
                }
                if d.to != h {
                    assert(d.to.0.index != h.0.index);
                }
            }
            g1.lemma_remove_edges_keeps_links(list, Some(h));
            assert forall|e: EdgeHandle| #[trigger] after.has_edge(e) implies self.edge(e).from != h
                && self.edge(e).to != h by {
                assert(g1.has_edge(e));
                assert(self.attached_but(e, None));
                let d = self.edge(e);
                if d.from == h {
                    let k = choose|k: int| 0 <= k < v.outgoing.len() && v.outgoing[k] == e;
                    assert(list[v.incoming.len() + k] == e);
                }
                if d.to == h {
                    let k = choose|k: int| 0 <= k < v.incoming.len() && v.incoming[k] == e;
                    assert(list[k] == e);
                }
            }
            assert forall|e: EdgeHandle| after.has_edge(e) implies #[trigger] after.attached_but(
                e,
                None,
            ) by {
                assert(after.attached_but(e, Some(h)));
                assert(after.edge(e) == self.edge(e));
            }
        }
    }

    /// Creating a vertex keeps the edges listed.
    pub proof fn lemma_new_vertex_keeps_links(self)
        requires
            self.wf(),
            self.vertices.slots.len() < usize::MAX || self.vertices.free.len() > 0,
            self.listed(),
        ensures
            self.new_vertex().listed(),
    {
        self.vertices.lemma_insert(Vertex::fresh());
        let after = self.new_vertex();
        assert forall|e: EdgeHandle| after.has_edge(e) implies #[trigger] after.attached_but(
            e,
            None,
        ) by {
            assert(self.attached_but(e, None));
            let d = self.edge(e);
            assert(after.vertices.lookup(d.from.0) == self.vertices.lookup(d.from.0));
            assert(after.vertices.lookup(d.to.0) == self.vertices.lookup(d.to.0));
        }
    }

    /// Creating an edge lists it with its ends, and keeps the other edges listed.
    pub proof fn lemma_new_edge_keeps_links(
        self,
        from: VertexHandle,
        label: PropertyHandle,
        to: VertexHandle,
    )
        requires
            self.wf(),
            self.edges.slots.len() < usize::MAX || self.edges.free.len() > 0,
            self.listed(),
        ensures
            self.new_edge(from, label, to).listed(),
    {
        if self.has_vertex(from) && self.has_vertex(to) {
            let e0 = self.next_edge();
            let d0 = EdgeData { from, to, label };
            self.edges.lemma_insert(d0);
            let g1 = Graph { edges: self.edges.insert(d0), ..self };
            let v1 = Vertex { incoming: g1.vertex(to).incoming.push(e0), ..g1.vertex(to) };
            let g2 = g1.with_vertex(to, v1);
            let v2 = Vertex { outgoing: g2.vertex(from).outgoing.push(e0), ..g2.vertex(from) };
            let g3 = g2.with_vertex(from, v2);
            assert(g3 == self.new_edge(from, label, to));
            assert forall|e: EdgeHandle| g3.has_edge(e) implies #[trigger] g3.attached_but(
                e,
                None,
            ) by {
                let x = g3.edge(e);
                g1.lemma_with_vertex_changes(to, v1, x.from);
                g2.lemma_with_vertex_changes(from, v2, x.from);
                g1.lemma_with_vertex_changes(to, v1, x.to);
                g2.lemma_with_vertex_changes(from, v2, x.to);
                g1.lemma_with_vertex_changes(to, v1, from);
                g1.lemma_with_vertex_changes(to, v1, to);
                g2.lemma_with_vertex_changes(from, v2, from);
                if e == e0 {
                    assert(x == d0);
                    lemma_push_keeps(g2.vertex(from).outgoing, e0, e0);
                    lemma_push_keeps(g1.vertex(to).incoming, e0, e0);
                } else {
                    assert(self.edges.lookup(e.0) == g1.edges.lookup(e.0));
                    assert(self.has_edge(e));
                    assert(self.attached_but(e, None));
                    assert(x == self.edge(e));
                    if x.from == from {
                        lemma_push_keeps(g2.vertex(from).outgoing, e0, e);
                    }
                    if x.to == to {
                        lemma_push_keeps(g1.vertex(to).incoming, e0, e);
                    }
                }
            }
        }
    }

    /// Changing the attributes of a vertex keeps the edges listed.
    pub proof fn lemma_with_attributes_keeps_links(
        self,
        h: VertexHandle,
        attrs: Seq<Attribute>,
    )
        requires
            self.listed(),
        ensures
            self.with_attributes(h, attrs).listed(),
    {
        let to = Vertex { attributes: attrs, ..self.vertex(h) };
        let after = self.with_vertex(h, to);
        assert forall|e: EdgeHandle| after.has_edge(e) implies #[trigger] after.attached_but(
            e,
            None,
        ) by {
            assert(self.attached_but(e, None));
            let d = self.edge(e);
            self.lemma_with_vertex_changes(h, to, d.from);
            self.lemma_with_vertex_changes(h, to, d.to);
            self.lemma_with_vertex_changes(h, to, h);
        }
    }

    /// Where every edge is listed with its ends, both ends of every edge resolve.
    pub proof fn lemma_listed_resolves(self)
        requires
            self.wf(),
            self.listed(),
        ensures
            self.resolvable(),
            forall|e: EdgeHandle|
                #[trigger] self.has_edge(e) ==> self.has_vertex(self.edge(e).from)
                    && self.has_vertex(self.edge(e).to),
    {
        assert forall|e: EdgeHandle| #[trigger] self.has_edge(e) implies self.has_vertex(
            self.edge(e).from,
        ) && self.has_vertex(self.edge(e).to) by {
            assert(self.attached_but(e, None));
        }
        assert forall|k: int|
            0 <= k < self.edges.slots.len() && (#[trigger] self.edges.slots[k]).item is Some implies {
            &&& self.vertices.occupied(self.edges.slots[k].item->0.from.0.index as int)
            &&& self.vertices.occupied(self.edges.slots[k].item->0.to.0.index as int)
        } by {
            let e = EdgeHandle(self.edges.handle_at(k));
            assert(self.has_edge(e));
        }
    }

    /// What a replaced edge changes: the edge itself, where it resolves, and no other.
    pub proof fn lemma_with_edge_changes(self, h: EdgeHandle, to: EdgeData, e: EdgeHandle)
        ensures
            self.with_edge(h, to).has_edge(e) == self.has_edge(e),
            self.with_edge(h, to).vertices == self.vertices,
            self.has_edge(e) && e != h ==> self.with_edge(h, to).edge(e) == self.edge(e),
            self.has_edge(h) ==> self.with_edge(h, to).edge(h) == to,
    {
        if self.has_edge(e) && e != h && self.has_edge(h) {
            assert(e.0.index != h.0.index);
        }
    }

    /// Giving an edge another label keeps the edges listed.
    pub proof fn lemma_set_label_keeps_links(self, h: EdgeHandle, label: PropertyHandle)
        requires
            self.listed(),
        ensures
            self.with_edge(h, EdgeData { label, ..self.edge(h) }).listed(),
    {
        let to = EdgeData { label, ..self.edge(h) };
        let after = self.with_edge(h, to);
        assert forall|e: EdgeHandle| after.has_edge(e) implies #[trigger] after.attached_but(
            e,
            None,
        ) by {
            self.lemma_with_edge_changes(h, to, e);
            self.lemma_with_edge_changes(h, to, h);
            assert(self.attached_but(e, None));
        }
    }

    /// Giving an edge another source lists it with the new source, and
    /// keeps the other edges listed.
    pub proof fn lemma_set_source_keeps_links(self, h: EdgeHandle, from: VertexHandle)
        requires
            self.listed(),
        ensures
            self.set_source(h, from).listed(),
    {
        if self.has_edge(h) && self.has_vertex(from) {
            let was = self.edge(h);
            let now = EdgeData { from, ..was };
            let g1 = self.with_edge(h, now);
            let v1 = Vertex {
                outgoing: detach(g1.vertex(was.from).outgoing, h),
                ..g1.vertex(was.from)
            };
            let g2 = g1.with_vertex(was.from, v1);
            let v2 = Vertex { outgoing: g2.vertex(from).outgoing.push(h), ..g2.vertex(from) };
            let g3 = g2.with_vertex(from, v2);
            assert(g3 == self.set_source(h, from));
            assert(self.attached_but(h, None));
            assert forall|e: EdgeHandle| g3.has_edge(e) implies #[trigger] g3.attached_but(
                e,
                None,
            ) by {
                self.lemma_with_edge_changes(h, now, e);
                self.lemma_with_edge_changes(h, now, h);
                assert(self.attached_but(e, None));
                let x = g3.edge(e);
                g1.lemma_with_vertex_changes(was.from, v1, x.from);
                g2.lemma_with_vertex_changes(from, v2, x.from);
                g1.lemma_with_vertex_changes(was.from, v1, x.to);
                g2.lemma_with_vertex_changes(from, v2, x.to);
                g1.lemma_with_vertex_changes(was.from, v1, was.from);
                g1.lemma_with_vertex_changes(was.from, v1, from);
                g2.lemma_with_vertex_changes(from, v2, from);
                if e == h {
                    lemma_push_keeps(g2.vertex(from).outgoing, h, h);
                } else {
                    let out = self.vertex(x.from).outgoing;
                    if x.from == was.from {
                        lemma_detach_keeps(out, h, e);
                    }
                    if x.from == from {
                        lemma_push_keeps(g2.vertex(from).outgoing, h, e);
                    }
                }
            }
        }
    }

    /// Giving an edge another destination lists it with the new
    /// destination, and keeps the other edges listed.
    pub proof fn lemma_set_destination_keeps_links(self, h: EdgeHandle, to: VertexHandle)
        requires
            self.listed(),
        ensures
            self.set_destination(h, to).listed(),
    {
        if self.has_edge(h) && self.has_vertex(to) {
            let was = self.edge(h);
            let now = EdgeData { to, ..was };
            let g1 = self.with_edge(h, now);
            let v1 = Vertex { incoming: detach(g1.vertex(was.to).incoming, h), ..g1.vertex(was.to) };
            let g2 = g1.with_vertex(was.to, v1);
            let v2 = Vertex { incoming: g2.vertex(to).incoming.push(h), ..g2.vertex(to) };
            let g3 = g2.with_vertex(to, v2);
            assert(g3 == self.set_destination(h, to));
            assert(self.attached_but(h, None));
            assert forall|e: EdgeHandle| g3.has_edge(e) implies #[trigger] g3.attached_but(
                e,
                None,
            ) by {
                self.lemma_with_edge_changes(h, now, e);
                self.lemma_with_edge_changes(h, now, h);
                assert(self.attached_but(e, None));
                let x = g3.edge(e);
                g1.lemma_with_vertex_changes(was.to, v1, x.from);
                g2.lemma_with_vertex_changes(to, v2, x.from);
                g1.lemma_with_vertex_changes(was.to, v1, x.to);
                g2.lemma_with_vertex_changes(to, v2, x.to);
                g1.lemma_with_vertex_changes(was.to, v1, was.to);
                g1.lemma_with_vertex_changes(was.to, v1, to);
                g2.lemma_with_vertex_changes(to, v2, to);
                if e == h {
                    lemma_push_keeps(g2.vertex(to).incoming, h, h);
                } else {
                    let inc = self.vertex(x.to).incoming;
                    if x.to == was.to {
                        lemma_detach_keeps(inc, h, e);
                    }
                    if x.to == to {
                        lemma_push_keeps(g2.vertex(to).incoming, h, e);
                    }
                }
            }
        }
    }

    /// A builder without vertices and edges has every edge listed.
    pub proof fn lemma_empty_is_listed()
        ensures
            Graph::empty().listed(),
    {
        assert forall|e: EdgeHandle| Graph::empty().has_edge(e) implies #[trigger] Graph::empty()
            .attached_but(e, None) by {}
    }
}

/// The edges among the first `n` of a persisted graph that start at a
/// vertex are listed with it, and those that end at it.
pub proof fn lemma_loaded_lists(g: GraphRecord, i: int, n: int, k: int)
    requires
        0 <= k < n <= g.edges.len(),
    ensures
        g.position_of(g.edges[k].from) == Some(i) ==> edges_out_of(g, i, n).contains(
            EdgeHandle(loaded_handle(k)),
        ),
        g.position_of(g.edges[k].to) == Some(i) ==> edges_into(g, i, n).contains(
            EdgeHandle(loaded_handle(k)),
        ),
    decreases n,
{
    let e = EdgeHandle(loaded_handle(k));
    if k < n - 1 {
        lemma_loaded_lists(g, i, n - 1, k);
        if g.position_of(g.edges[k].from) == Some(i) {
            let rest = edges_out_of(g, i, n - 1);
            let p = choose|p: int| 0 <= p < rest.len() && rest[p] == e;
            assert(edges_out_of(g, i, n)[p] == e);
        }
        if g.position_of(g.edges[k].to) == Some(i) {
            let rest = edges_into(g, i, n - 1);
            let p = choose|p: int| 0 <= p < rest.len() && rest[p] == e;
            assert(edges_into(g, i, n)[p] == e);
        }
    } else {
        if g.position_of(g.edges[k].from) == Some(i) {
            let all = edges_out_of(g, i, n);
            assert(all[all.len() - 1] == e);
        }
        if g.position_of(g.edges[k].to) == Some(i) {
            let all = edges_into(g, i, n);
            assert(all[all.len() - 1] == e);
        }
    }
}

/// The builder that a persisted graph is loaded into has every edge
/// listed with its ends, where the graph names the ends of its edges among
/// its vertices.
pub proof fn lemma_loaded_is_listed(g: GraphRecord)
    requires
        g.linked(),
        g.vertices.len() <= usize::MAX,
        g.edges.len() <= usize::MAX,
    ensures
        Graph::from_record(g).listed(),
{
    let b = Graph::from_record(g);
    let ne = g.edges.len() as int;
    assert forall|e: EdgeHandle| b.has_edge(e) implies #[trigger] b.attached_but(e, None) by {
        let k = e.0.index as int;
        assert(e == EdgeHandle(loaded_handle(k)));
        let d = b.edge(e);
        assert(d == loaded_edge(g, k));
        let pf = g.position_of(g.edges[k].from)->0;
        let pt = g.position_of(g.edges[k].to)->0;
        g.lemma_position_before(g.edges[k].from, g.vertices.len() as int);
        g.lemma_position_before(g.edges[k].to, g.vertices.len() as int);
        lemma_loaded_lists(g, pf, ne, k);
        lemma_loaded_lists(g, pt, ne, k);
        assert(b.vertex(d.from) == loaded_vertex(g, pf, ne));
        assert(b.vertex(d.to) == loaded_vertex(g, pt, ne));
    }
}

} // verus!
