use lattice_db::graph::graph_builder::{EdgeHandle, GraphBuilder, VertexHandle};
use lattice_db::graph::graph_prepared::{PreparedEdge, PreparedGraph, PreparedVertex};
use lattice_db::props::properties::PropertyHandle;
use lattice_db::utils::generational_vector::Handle;
use lattice_db::utils::values::Primitive;

const NAME: PropertyHandle = PropertyHandle(1);
const AGE: PropertyHandle = PropertyHandle(2);
const CITY: PropertyHandle = PropertyHandle(3);
const L: PropertyHandle = PropertyHandle(10);
const M: PropertyHandle = PropertyHandle(11);

const TAG: u64 = 1 << 56;

fn vertex(i: usize) -> VertexHandle {
    VertexHandle(Handle { generation: 0, index: i })
}

fn edge(i: usize) -> EdgeHandle {
    EdgeHandle(Handle { generation: 0, index: i })
}

fn attrs_of(v: &PreparedVertex) -> Vec<(u64, Primitive)> {
    v.attrs.iter().map(|(p, v)| (p.0, v.clone())).collect()
}

fn triples(g: &PreparedGraph) -> Vec<(u64, u64, u64)> {
    g.edges.iter().map(|e| (e.from, e.label.0, e.to)).collect()
}

fn stored() -> PreparedGraph {
    PreparedGraph {
        id: 5,
        vertices: vec![
            PreparedVertex { id: 20, attrs: vec![(NAME, Primitive::UInt(1)), (AGE, Primitive::UInt(5))] },
            PreparedVertex { id: 21, attrs: vec![(NAME, Primitive::UInt(2))] },
            PreparedVertex { id: 22, attrs: vec![] },
        ],
        edges: vec![
            PreparedEdge { from: 20, label: L, to: 21 },
            PreparedEdge { from: 21, label: L, to: 22 },
        ],
    }
}

#[test]
fn new_graph_adds_everything() {
    let mut g = GraphBuilder::new();
    let a = g
        .new_vertex()
        .new_attribute(CITY, 9u64)
        .unwrap()
        .new_attribute(NAME, 4u64)
        .unwrap()
        .new_attribute(NAME, 2u64)
        .unwrap()
        .handle();
    let b = g.new_vertex().new_attribute(AGE, "x").unwrap().handle();
    g.new_edge(a, L, b).unwrap().new_edge(b, M, a).unwrap();
    let data = PreparedGraph::commit_data_from_builder(g, 100, 7);
    assert_eq!(data.graph_id, 7);
    assert_eq!(data.prepared_graph.id, 7);
    assert_eq!(data.prepared_graph.vertices.len(), 2);
    assert_eq!(data.prepared_graph.vertices[0].id, 100);
    assert_eq!(data.prepared_graph.vertices[1].id, 101);
    // attributes are persisted in ascending order of (property, hash)
    assert_eq!(
        attrs_of(&data.prepared_graph.vertices[0]),
        vec![(1, Primitive::UInt(2)), (1, Primitive::UInt(4)), (3, Primitive::UInt(9))]
    );
    let x = Primitive::Text("x".to_string()).hash();
    assert_eq!(
        data.add_attrs,
        vec![(100, 1, TAG | 2), (100, 1, TAG | 4), (100, 3, TAG | 9), (101, 2, x)]
    );
    assert!(data.rem_attrs.is_empty());
    assert!(data.deleted_vertices.is_empty());
    assert_eq!(data.add_edges, vec![(100, 10, 101), (101, 11, 100)]);
    assert!(data.rem_edges.is_empty());
    assert_eq!(triples(&data.prepared_graph), vec![(100, 10, 101), (101, 11, 100)]);
}

#[test]
fn sorting_keeps_attributes_of_one_key_in_their_order() {
    let mut g = GraphBuilder::new();
    let a = g.new_vertex().handle();
    {
        let attrs = g.get_mut_attributes(a).unwrap();
        // values over 56 bits share their key with the value of their low bits
        attrs.push((AGE, Primitive::UInt(1)));
        attrs.push((NAME, Primitive::UInt((1 << 56) | 3)));
        attrs.push((NAME, Primitive::UInt(3)));
        attrs.push((NAME, Primitive::UInt((2 << 56) | 3)));
        attrs.push((NAME, Primitive::UInt(0)));
    }
    let data = PreparedGraph::commit_data_from_builder(g, 0, 0);
    assert_eq!(
        attrs_of(&data.prepared_graph.vertices[0]),
        vec![
            (1, Primitive::UInt(0)),
            (1, Primitive::UInt((1 << 56) | 3)),
            (1, Primitive::UInt(3)),
            (1, Primitive::UInt((2 << 56) | 3)),
            (2, Primitive::UInt(1)),
        ]
    );
    assert_eq!(
        data.add_attrs,
        vec![(0, 1, TAG), (0, 1, TAG | 3), (0, 1, TAG | 3), (0, 1, TAG | 3), (0, 2, TAG | 1)]
    );
}

#[test]
fn reloaded_graph_commits_nothing() {
    let g = GraphBuilder::from_prepared(stored());
    let data = PreparedGraph::commit_data_from_builder(g, 1000, 5);
    assert!(data.add_attrs.is_empty());
    assert!(data.rem_attrs.is_empty());
    assert!(data.add_edges.is_empty());
    assert!(data.rem_edges.is_empty());
    assert!(data.deleted_vertices.is_empty());
    let want = stored();
    assert_eq!(data.prepared_graph.vertices.len(), 3);
    for i in 0..3 {
        assert_eq!(data.prepared_graph.vertices[i].id, want.vertices[i].id);
        assert_eq!(data.prepared_graph.vertices[i].attrs, want.vertices[i].attrs);
    }
    assert_eq!(triples(&data.prepared_graph), triples(&want));
}

#[test]
fn edited_vertex_gives_the_difference_of_its_attributes() {
    let mut g = GraphBuilder::from_prepared(stored());
    {
        let attrs = g.get_mut_attributes(vertex(0)).unwrap();
        attrs.clear();
        attrs.push((CITY, Primitive::UInt(8)));
        attrs.push((AGE, Primitive::UInt(5)));
        attrs.push((NAME, Primitive::UInt(0)));
    }
    let data = PreparedGraph::commit_data_from_builder(g, 1000, 5);
    assert_eq!(data.rem_attrs, vec![(20, 1, TAG | 1)]);
    assert_eq!(data.add_attrs, vec![(20, 1, TAG), (20, 3, TAG | 8)]);
    assert!(data.deleted_vertices.is_empty());
    assert_eq!(data.prepared_graph.vertices[0].id, 20);
    assert_eq!(
        attrs_of(&data.prepared_graph.vertices[0]),
        vec![(1, Primitive::UInt(0)), (2, Primitive::UInt(5)), (3, Primitive::UInt(8))]
    );
    assert!(data.add_edges.is_empty());
    assert!(data.rem_edges.is_empty());
}

#[test]
fn key_that_stays_is_neither_added_nor_removed() {
    // one more attribute under a key that the vertex has already
    let mut g = GraphBuilder::from_prepared(stored());
    g.get_mut_attributes(vertex(0)).unwrap().push((NAME, Primitive::UInt(1)));
    let data = PreparedGraph::commit_data_from_builder(g, 1000, 5);
    assert!(data.add_attrs.is_empty());
    assert!(data.rem_attrs.is_empty());
    assert_eq!(
        attrs_of(&data.prepared_graph.vertices[0]),
        vec![(1, Primitive::UInt(1)), (1, Primitive::UInt(1)), (2, Primitive::UInt(5))]
    );

    // one of two attributes under one key goes, and one under another key
    let mut g = GraphBuilder::from_prepared(PreparedGraph {
        id: 5,
        vertices: vec![PreparedVertex {
            id: 20,
            attrs: vec![
                (NAME, Primitive::UInt(1)),
                (NAME, Primitive::UInt(1)),
                (AGE, Primitive::UInt(5)),
                (AGE, Primitive::UInt(5)),
            ],
        }],
        edges: vec![],
    });
    {
        let attrs = g.get_mut_attributes(vertex(0)).unwrap();
        attrs.clear();
        attrs.push((NAME, Primitive::UInt(1)));
        attrs.push((CITY, Primitive::UInt(4)));
        attrs.push((CITY, Primitive::UInt(4)));
    }
    let data = PreparedGraph::commit_data_from_builder(g, 1000, 5);
    assert_eq!(data.rem_attrs, vec![(20, 2, TAG | 5), (20, 2, TAG | 5)]);
    assert_eq!(data.add_attrs, vec![(20, 3, TAG | 4), (20, 3, TAG | 4)]);
}

#[test]
fn attributes_in_another_order_give_no_update() {
    let mut g = GraphBuilder::from_prepared(stored());
    g.get_mut_attributes(vertex(0)).unwrap().reverse();
    let data = PreparedGraph::commit_data_from_builder(g, 1000, 5);
    assert!(data.add_attrs.is_empty());
    assert!(data.rem_attrs.is_empty());
    assert_eq!(
        attrs_of(&data.prepared_graph.vertices[0]),
        vec![(1, Primitive::UInt(1)), (2, Primitive::UInt(5))]
    );
}

#[test]
fn new_attribute_on_a_loaded_vertex_is_added() {
    let mut g = GraphBuilder::from_prepared(stored());
    g.edit_vertex(vertex(2)).unwrap().new_attribute(NAME, "t").unwrap();
    let n = g.new_vertex().new_attribute(NAME, 6u64).unwrap().handle();
    g.new_edge(n, M, vertex(2)).unwrap();
    let data = PreparedGraph::commit_data_from_builder(g, 1000, 5);
    let t = Primitive::Text("t".to_string()).hash();
    assert_eq!(data.add_attrs, vec![(22, 1, t), (1000, 1, TAG | 6)]);
    assert!(data.rem_attrs.is_empty());
    assert_eq!(data.add_edges, vec![(1000, 11, 22)]);
    assert!(data.rem_edges.is_empty());
    assert_eq!(data.prepared_graph.vertices.len(), 4);
    assert_eq!(data.prepared_graph.vertices[3].id, 1000);
    assert_eq!(triples(&data.prepared_graph), vec![(20, 10, 21), (21, 10, 22), (1000, 11, 22)]);
}

#[test]
fn removed_vertex_is_deleted_with_its_attributes_and_edges() {
    let mut g = GraphBuilder::from_prepared(stored());
    g.remove_vertex(vertex(1)).unwrap();
    let data = PreparedGraph::commit_data_from_builder(g, 1000, 5);
    assert_eq!(data.deleted_vertices, vec![21]);
    assert_eq!(data.rem_attrs, vec![(21, 1, TAG | 2)]);
    assert!(data.add_attrs.is_empty());
    assert_eq!(data.rem_edges, vec![(20, 10, 21), (21, 10, 22)]);
    assert!(data.add_edges.is_empty());
    let ids: Vec<u64> = data.prepared_graph.vertices.iter().map(|v| v.id).collect();
    assert_eq!(ids, vec![20, 22]);
    assert!(data.prepared_graph.edges.is_empty());
}

#[test]
fn vertex_in_a_freed_slot_is_a_new_vertex() {
    let mut g = GraphBuilder::from_prepared(stored());
    g.remove_vertex(vertex(0)).unwrap();
    let n = g.new_vertex().new_attribute(NAME, 1u64).unwrap().handle();
    assert_eq!(n.0.index, 0);
    let later = g.new_vertex().handle();
    assert_eq!(later.0.index, 3);
    g.new_edge(n, L, later).unwrap();
    let data = PreparedGraph::commit_data_from_builder(g, 500, 5);
    assert_eq!(data.deleted_vertices, vec![20]);
    assert_eq!(data.rem_attrs, vec![(20, 1, TAG | 1), (20, 2, TAG | 5)]);
    assert_eq!(data.add_attrs, vec![(500, 1, TAG | 1)]);
    let ids: Vec<u64> = data.prepared_graph.vertices.iter().map(|v| v.id).collect();
    assert_eq!(ids, vec![500, 21, 22, 501]);
    // the edge that left with the vertex is removed; the new edge took its slot
    assert_eq!(data.rem_edges, vec![(20, 10, 21)]);
    assert_eq!(data.add_edges, vec![(500, 10, 501)]);
    assert_eq!(triples(&data.prepared_graph), vec![(500, 10, 501), (21, 10, 22)]);
}

#[test]
fn changed_edge_is_removed_and_added() {
    let mut g = GraphBuilder::from_prepared(stored());
    g.edit_edge(edge(0)).unwrap().set_label(M).unwrap();
    let data = PreparedGraph::commit_data_from_builder(g, 1000, 5);
    assert_eq!(data.rem_edges, vec![(20, 10, 21)]);
    assert_eq!(data.add_edges, vec![(20, 11, 21)]);
    assert_eq!(triples(&data.prepared_graph), vec![(20, 11, 21), (21, 10, 22)]);
    assert!(data.add_attrs.is_empty());
    assert!(data.rem_attrs.is_empty());
}

#[test]
fn removed_edge_is_removed_from_the_index() {
    let mut g = GraphBuilder::from_prepared(stored());
    g.remove_edge(edge(1)).unwrap();
    let data = PreparedGraph::commit_data_from_builder(g, 1000, 5);
    assert_eq!(data.rem_edges, vec![(21, 10, 22)]);
    assert!(data.add_edges.is_empty());
    assert_eq!(triples(&data.prepared_graph), vec![(20, 10, 21)]);
}

#[test]
fn empty_builder_commits_an_empty_graph() {
    let data = PreparedGraph::commit_data_from_builder(GraphBuilder::new(), 3, 4);
    assert_eq!(data.graph_id, 4);
    assert!(data.prepared_graph.vertices.is_empty());
    assert!(data.prepared_graph.edges.is_empty());
    assert!(data.add_attrs.is_empty() && data.rem_attrs.is_empty());
    assert!(data.add_edges.is_empty() && data.rem_edges.is_empty());
    assert!(data.deleted_vertices.is_empty());
}

#[test]
fn committed_graph_loads_and_commits_to_itself() {
    let mut g = GraphBuilder::new();
    let a = g.new_vertex().new_attribute(AGE, "b").unwrap().new_attribute(NAME, "a").unwrap().handle();
    let b = g.new_vertex().handle();
    g.new_edge(a, L, b).unwrap();
    let first = PreparedGraph::commit_data_from_builder(g, 10, 1);
    assert!(first.prepared_graph.is_linked());
    let again = GraphBuilder::from_prepared(first.prepared_graph);
    let second = PreparedGraph::commit_data_from_builder(again, 12, 1);
    assert!(second.add_attrs.is_empty() && second.rem_attrs.is_empty());
    assert!(second.add_edges.is_empty() && second.rem_edges.is_empty());
    assert!(second.deleted_vertices.is_empty());
    assert_eq!(triples(&second.prepared_graph), vec![(10, 10, 11)]);
}
