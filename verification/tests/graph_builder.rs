use lattice_db::errors::LatticeError;
use lattice_db::graph::graph_builder::{EdgeHandle, GraphBuilder, VertexHandle};
use lattice_db::graph::graph_prepared::{PreparedEdge, PreparedGraph, PreparedVertex};
use lattice_db::props::properties::PropertyHandle;
use lattice_db::utils::generational_vector::Handle;
use lattice_db::utils::values::Primitive;

const NAME: PropertyHandle = PropertyHandle(1);
const KNOWS: PropertyHandle = PropertyHandle(2);
const LIKES: PropertyHandle = PropertyHandle(3);

fn edge_handles(g: &GraphBuilder) -> Vec<EdgeHandle> {
    g.iter_edges().into_iter().map(|(h, _)| EdgeHandle(h)).collect()
}

fn sample_graph() -> PreparedGraph {
    PreparedGraph {
        id: 9,
        vertices: vec![
            PreparedVertex { id: 40, attrs: vec![(NAME, Primitive::UInt(1))] },
            PreparedVertex { id: 41, attrs: vec![] },
            PreparedVertex { id: 42, attrs: vec![(NAME, Primitive::Text("c".to_string()))] },
        ],
        edges: vec![
            PreparedEdge { from: 40, label: KNOWS, to: 41 },
            PreparedEdge { from: 42, label: LIKES, to: 41 },
            PreparedEdge { from: 41, label: KNOWS, to: 41 },
        ],
    }
}

#[test]
fn new_builder_is_empty() {
    let g = GraphBuilder::new();
    assert_eq!(g.count_new_vertices(), 0);
    assert!(g.iter_vertices().is_empty());
    assert!(g.iter_edges().is_empty());
    assert_eq!(g.loaded_graph_id(), None);
    assert!(g.endpoints_resolve());
    let d = GraphBuilder::default();
    assert_eq!(d.count_new_vertices(), 0);
}

#[test]
fn new_vertex_is_counted_and_empty() {
    let mut g = GraphBuilder::new();
    let a = g.new_vertex().handle();
    let b = g.new_vertex().handle();
    assert_eq!(g.count_new_vertices(), 2);
    assert_eq!(a.0, Handle { generation: 0, index: 0 });
    assert_eq!(b.0, Handle { generation: 0, index: 1 });
    let v = g.get_vertex(a).unwrap();
    assert_eq!(v.global_id, None);
    assert!(v.attributes.is_empty());
    assert!(v.incoming_edges.is_empty());
    assert!(v.outgoing_edges.is_empty());
    assert_eq!(g.get_vertex_global_id(a).unwrap(), None);
}

#[test]
fn attributes_are_appended_in_order() {
    let mut g = GraphBuilder::new();
    let a = g
        .new_vertex()
        .new_attribute(NAME, "alice")
        .unwrap()
        .new_attribute(KNOWS, 7u8)
        .unwrap()
        .new_attribute(NAME, 3u64)
        .unwrap()
        .handle();
    let v = g.get_vertex(a).unwrap();
    assert_eq!(
        v.attributes,
        vec![
            (NAME, Primitive::Text("alice".to_string())),
            (KNOWS, Primitive::UInt(7)),
            (NAME, Primitive::UInt(3)),
        ]
    );
}

#[test]
fn attribute_that_is_too_big_is_refused_and_nothing_changes() {
    let mut g = GraphBuilder::new();
    let a = g.new_vertex().new_attribute(NAME, 1u64).unwrap().handle();
    let r = g.edit_vertex(a).unwrap().new_attribute(NAME, 1u64 << 56).map(|_| ());
    assert!(matches!(r, Err(LatticeError::NumberTooBig(_))));
    assert_eq!(g.get_vertex(a).unwrap().attributes, vec![(NAME, Primitive::UInt(1))]);
    let r = g.edit_vertex(a).unwrap().new_attribute(NAME, (1u64 << 56) - 1).map(|_| ());
    assert!(r.is_ok());
    assert_eq!(g.get_vertex(a).unwrap().attributes.len(), 2);
}

#[test]
fn new_edge_is_listed_with_both_ends() {
    let mut g = GraphBuilder::new();
    let a = g.new_vertex().handle();
    let b = g.new_vertex().handle();
    g.new_edge(a, KNOWS, b).unwrap().new_edge(b, LIKES, a).unwrap();
    let edges = edge_handles(&g);
    assert_eq!(edges.len(), 2);
    let (e1, e2) = (edges[0], edges[1]);
    assert_eq!(g.get_outgoing_edges(a).unwrap(), &vec![e1]);
    assert_eq!(g.get_incoming_edges(b).unwrap(), &vec![e1]);
    assert_eq!(g.get_outgoing_edges(b).unwrap(), &vec![e2]);
    assert_eq!(g.get_incoming_edges(a).unwrap(), &vec![e2]);
    let d = g.get_edge(e1).unwrap();
    assert!(d.from == a && d.to == b && d.label == KNOWS);
    let d = g.get_edge(e2).unwrap();
    assert!(d.from == b && d.to == a && d.label == LIKES);
}

#[test]
fn vertex_builder_links_from_its_vertex() {
    let mut g = GraphBuilder::new();
    let b = g.new_vertex().handle();
    let a = g.new_vertex().new_edge(KNOWS, b).unwrap().handle();
    let e = edge_handles(&g)[0];
    let d = g.get_edge(e).unwrap();
    assert!(d.from == a && d.to == b && d.label == KNOWS);
    assert_eq!(g.get_outgoing_edges(a).unwrap(), &vec![e]);
    assert_eq!(g.get_incoming_edges(b).unwrap(), &vec![e]);

    // a loop on the vertex itself is listed on both sides
    g.edit_vertex(a).unwrap().new_edge(LIKES, a).unwrap();
    let l = edge_handles(&g)[1];
    assert_eq!(g.get_outgoing_edges(a).unwrap(), &vec![e, l]);
    assert_eq!(g.get_incoming_edges(a).unwrap(), &vec![l]);
}

#[test]
fn edge_to_a_missing_vertex_is_refused() {
    let mut g = GraphBuilder::new();
    let a = g.new_vertex().handle();
    let b = g.new_vertex().handle();
    g.remove_vertex(b).unwrap();
    assert!(matches!(g.new_edge(a, KNOWS, b).map(|_| ()), Err(LatticeError::VertexNotFound)));
    assert!(matches!(g.new_edge(b, KNOWS, a).map(|_| ()), Err(LatticeError::VertexNotFound)));
    assert!(matches!(
        g.edit_vertex(a).unwrap().new_edge(KNOWS, b).map(|_| ()),
        Err(LatticeError::VertexNotFound)
    ));
    assert!(g.iter_edges().is_empty());
    assert!(g.get_outgoing_edges(a).unwrap().is_empty());
    assert!(matches!(g.edit_vertex(b).map(|_| ()), Err(LatticeError::VertexNotFound)));
    assert!(matches!(g.get_vertex_global_id(b), Err(LatticeError::VertexNotFound)));
    assert!(matches!(g.get_mut_attributes(b).map(|_| ()), Err(LatticeError::VertexNotFound)));
    assert!(matches!(g.get_incoming_edges(b).map(|_| ()), Err(LatticeError::VertexNotFound)));
    assert!(matches!(g.get_outgoing_edges(b).map(|_| ()), Err(LatticeError::VertexNotFound)));
    assert!(g.get_vertex(b).is_none());
}

#[test]
fn remove_edge_detaches_both_ends() {
    let mut g = GraphBuilder::new();
    let a = g.new_vertex().handle();
    let b = g.new_vertex().handle();
    g.new_edge(a, KNOWS, b).unwrap();
    g.new_edge(a, LIKES, b).unwrap();
    g.new_edge(a, NAME, b).unwrap();
    let edges = edge_handles(&g);
    let (e1, e2, e3) = (edges[0], edges[1], edges[2]);
    g.remove_edge(e1).unwrap();
    // the last edge of the list takes the place of the removed one
    assert_eq!(g.get_outgoing_edges(a).unwrap(), &vec![e3, e2]);
    assert_eq!(g.get_incoming_edges(b).unwrap(), &vec![e3, e2]);
    assert!(g.get_edge(e1).is_none());
    assert!(matches!(g.remove_edge(e1), Err(LatticeError::EdgeNotFound)));
    assert!(matches!(g.edit_edge(e1).map(|_| ()), Err(LatticeError::EdgeNotFound)));
    g.remove_edge(e2).unwrap();
    g.remove_edge(e3).unwrap();
    assert!(g.get_outgoing_edges(a).unwrap().is_empty());
    assert!(g.get_incoming_edges(b).unwrap().is_empty());
}

#[test]
fn remove_vertex_takes_its_edges_along() {
    let mut g = GraphBuilder::new();
    let a = g.new_vertex().handle();
    let b = g.new_vertex().handle();
    let c = g.new_vertex().handle();
    g.new_edge(a, KNOWS, b).unwrap();
    g.new_edge(b, KNOWS, c).unwrap();
    g.new_edge(b, LIKES, b).unwrap();
    g.new_edge(c, KNOWS, a).unwrap();
    let edges = edge_handles(&g);
    assert_eq!(g.count_new_vertices(), 3);
    g.remove_vertex(b).unwrap();
    assert_eq!(g.count_new_vertices(), 2);
    assert!(g.get_vertex(b).is_none());
    assert_eq!(edge_handles(&g), vec![edges[3]]);
    assert!(g.get_outgoing_edges(a).unwrap().is_empty());
    assert_eq!(g.get_incoming_edges(a).unwrap(), &vec![edges[3]]);
    assert!(g.get_incoming_edges(c).unwrap().is_empty());
    assert_eq!(g.get_outgoing_edges(c).unwrap(), &vec![edges[3]]);
    assert!(matches!(g.remove_vertex(b), Err(LatticeError::VertexNotFound)));
    assert_eq!(g.count_new_vertices(), 2);
    assert!(g.endpoints_resolve());

    // the freed slot is filled by the next vertex, under a new generation
    let d = g.new_vertex().handle();
    assert_eq!(d.0, Handle { generation: 1, index: 1 });
    assert!(g.get_vertex(b).is_none());
    assert_eq!(g.count_new_vertices(), 3);
}

#[test]
fn edge_builder_changes_the_edge() {
    let mut g = GraphBuilder::new();
    let a = g.new_vertex().handle();
    let b = g.new_vertex().handle();
    g.new_edge(a, KNOWS, b).unwrap();
    let e = edge_handles(&g)[0];
    g.edit_edge(e).unwrap().set_label(LIKES).unwrap();
    assert!(g.get_edge(e).unwrap().label == LIKES);

    let c = g.new_vertex().handle();
    g.edit_edge(e).unwrap().set_source(c).unwrap().set_destination(a).unwrap();
    let d = g.get_edge(e).unwrap();
    assert!(d.from == c && d.to == a && d.label == LIKES);
    // the edge is listed with its new ends and no longer with the old ones
    assert_eq!(g.get_outgoing_edges(c).unwrap(), &vec![e]);
    assert_eq!(g.get_incoming_edges(a).unwrap(), &vec![e]);
    assert!(g.get_outgoing_edges(a).unwrap().is_empty());
    assert!(g.get_incoming_edges(b).unwrap().is_empty());

    // a handle that is no vertex is refused, and the edge stays as it is
    let stray = VertexHandle(Handle { generation: 0, index: 9 });
    assert!(matches!(
        g.edit_edge(e).unwrap().set_source(stray).map(|_| ()),
        Err(LatticeError::VertexNotFound)
    ));
    g.remove_vertex(b).unwrap();
    assert!(matches!(
        g.edit_edge(e).unwrap().set_destination(b).map(|_| ()),
        Err(LatticeError::VertexNotFound)
    ));
    let d = g.get_edge(e).unwrap();
    assert!(d.from == c && d.to == a);
    assert_eq!(g.get_outgoing_edges(c).unwrap(), &vec![e]);
    assert_eq!(g.get_incoming_edges(a).unwrap(), &vec![e]);
}

#[test]
fn attributes_can_be_changed_in_place() {
    let mut g = GraphBuilder::new();
    let a = g.new_vertex().new_attribute(NAME, 1u64).unwrap().handle();
    {
        let attrs = g.get_mut_attributes(a).unwrap();
        attrs[0].1 = Primitive::Text("one".to_string());
        attrs.push((KNOWS, Primitive::UInt(2)));
    }
    assert_eq!(
        g.get_vertex(a).unwrap().attributes,
        vec![(NAME, Primitive::Text("one".to_string())), (KNOWS, Primitive::UInt(2))]
    );
}

#[test]
fn iteration_lists_what_is_staged() {
    let mut g = GraphBuilder::new();
    let a = g.new_vertex().handle();
    let b = g.new_vertex().handle();
    let c = g.new_vertex().handle();
    g.new_edge(a, KNOWS, c).unwrap();
    g.remove_vertex(b).unwrap();
    let handles: Vec<Handle> = g.iter_vertices().into_iter().map(|(h, _)| h).collect();
    assert_eq!(handles, vec![a.0, c.0]);
    let edges = g.iter_edges();
    assert_eq!(edges.len(), 1);
    assert!(edges[0].1.from == a && edges[0].1.to == c);
}

#[test]
fn loaded_graph_stands_slot_by_slot() {
    assert!(sample_graph().is_linked());
    let g = GraphBuilder::from_prepared(sample_graph());
    assert_eq!(g.count_new_vertices(), 0);
    assert_eq!(g.loaded_graph_id(), Some(9));
    let v = |i: usize| VertexHandle(Handle { generation: 0, index: i });
    let e = |i: usize| EdgeHandle(Handle { generation: 0, index: i });
    assert_eq!(g.get_vertex_global_id(v(0)).unwrap(), Some(40));
    assert_eq!(g.get_vertex_global_id(v(1)).unwrap(), Some(41));
    assert_eq!(g.get_vertex_global_id(v(2)).unwrap(), Some(42));
    assert_eq!(g.get_vertex(v(0)).unwrap().attributes, vec![(NAME, Primitive::UInt(1))]);
    assert_eq!(
        g.get_vertex(v(2)).unwrap().attributes,
        vec![(NAME, Primitive::Text("c".to_string()))]
    );
    assert_eq!(g.get_outgoing_edges(v(0)).unwrap(), &vec![e(0)]);
    assert!(g.get_incoming_edges(v(0)).unwrap().is_empty());
    assert_eq!(g.get_incoming_edges(v(1)).unwrap(), &vec![e(0), e(1), e(2)]);
    assert_eq!(g.get_outgoing_edges(v(1)).unwrap(), &vec![e(2)]);
    assert_eq!(g.get_outgoing_edges(v(2)).unwrap(), &vec![e(1)]);
    let d = g.get_edge(e(1)).unwrap();
    assert!(d.from == v(2) && d.to == v(1) && d.label == LIKES);
    assert!(g.endpoints_resolve());
}

#[test]
fn removing_a_loaded_vertex_leaves_the_count_of_new_vertices() {
    let mut g = GraphBuilder::from_prepared(sample_graph());
    let v0 = VertexHandle(Handle { generation: 0, index: 0 });
    g.remove_vertex(v0).unwrap();
    assert_eq!(g.count_new_vertices(), 0);
    let n = g.new_vertex().handle();
    assert_eq!(n.0, Handle { generation: 1, index: 0 });
    assert_eq!(g.count_new_vertices(), 1);
    assert_eq!(g.get_vertex_global_id(n).unwrap(), None);
    g.remove_vertex(n).unwrap();
    assert_eq!(g.count_new_vertices(), 0);
}

#[test]
fn graph_with_an_edge_to_nowhere_is_not_linked() {
    let mut graph = sample_graph();
    graph.edges.push(PreparedEdge { from: 40, label: KNOWS, to: 77 });
    assert!(!graph.is_linked());
    let mut graph = sample_graph();
    graph.edges.push(PreparedEdge { from: 78, label: KNOWS, to: 40 });
    assert!(!graph.is_linked());
    let empty = PreparedGraph { id: 0, vertices: vec![], edges: vec![] };
    assert!(empty.is_linked());
}

#[test]
fn edge_that_was_moved_onto_a_vertex_goes_with_it() {
    let mut g = GraphBuilder::new();
    let a = g.new_vertex().handle();
    let b = g.new_vertex().handle();
    g.new_edge(a, KNOWS, a).unwrap();
    g.new_edge(a, KNOWS, a).unwrap();
    let e = edge_handles(&g)[0];
    let other = edge_handles(&g)[1];
    g.edit_edge(e).unwrap().set_destination(b).unwrap();
    assert!(g.endpoints_resolve());
    assert_eq!(g.get_incoming_edges(b).unwrap(), &vec![e]);
    assert_eq!(g.get_incoming_edges(a).unwrap(), &vec![other]);
    // `b` lists the edge, so the edge goes when `b` goes
    g.remove_vertex(b).unwrap();
    assert!(g.get_edge(e).is_none());
    assert!(g.get_edge(other).is_some());
    assert_eq!(g.get_outgoing_edges(a).unwrap(), &vec![other]);
    assert!(g.endpoints_resolve());
}

#[test]
fn builder_comes_apart_into_its_arenas() {
    let mut g = GraphBuilder::from_prepared(sample_graph());
    g.new_vertex();
    let (vertices, edges, old) = g.into_parts();
    assert_eq!(vertices.slot_count(), 4);
    assert_eq!(edges.slot_count(), 3);
    let old = old.unwrap();
    assert_eq!(old.id, 9);
    assert_eq!(old.graph.vertices.len(), 3);
    let (vertices, edges, old) = GraphBuilder::new().into_parts();
    assert_eq!(vertices.slot_count(), 0);
    assert_eq!(edges.slot_count(), 0);
    assert!(old.is_none());
}
