use lattice_db::errors::LatticeError;
use lattice_db::graph::graph_builder::{EdgeHandle, GraphBuilder};
use lattice_db::graph::graph_prepared::{
    GraphCommitData, PreparedEdge, PreparedGraph, PreparedVertex,
};
use lattice_db::lattice_db::graph_map::{deleted_vertex_writes, new_vertex_writes, MapWrite};
use lattice_db::lattice_db::reader::{Lookup, Table};
use lattice_db::lattice_db::writer::{index_updates, Assignment, IndexCache, IndexUpdate, Sequences};
use lattice_db::props::properties::PropertyHandle;
use lattice_db::query::query_save::QueryHandle;
use roaring::RoaringTreemap;

fn cursors(graph_id: u64, vertex_id: u64) -> Sequences {
    Sequences { graph_id, vertex_id, property_id: 0, query_id: 0 }
}

fn decoded(bytes: &[u8]) -> Vec<u64> {
    RoaringTreemap::deserialize_from(bytes).unwrap().iter().collect()
}

fn encoded(values: &[u64]) -> Vec<u8> {
    let mut t = RoaringTreemap::new();
    for v in values {
        t.insert(*v);
    }
    let mut bytes = Vec::new();
    t.serialize_into(&mut bytes).unwrap();
    bytes
}

fn builder_with(new_vertices: usize) -> GraphBuilder {
    let mut g = GraphBuilder::new();
    for _ in 0..new_vertices {
        g.new_vertex();
    }
    g
}

fn loaded(id: u64) -> GraphBuilder {
    GraphBuilder::from_prepared(PreparedGraph {
        id,
        vertices: vec![PreparedVertex { id: 1, attrs: vec![] }],
        edges: vec![],
    })
}

#[test]
fn vertex_ids_are_reserved_in_ranges() {
    let mut s = cursors(0, 10);
    assert_eq!(s.reserve_vertex_ids(5), Some(10));
    assert_eq!(s.reserve_vertex_ids(0), Some(15));
    assert_eq!(s.reserve_vertex_ids(1), Some(15));
    assert_eq!(s.vertex_id, 16);
    assert_eq!(s.reserve_vertex_ids(u64::MAX - 15), None);
    assert_eq!(s.vertex_id, 16);
    assert_eq!(s.reserve_vertex_ids(u64::MAX - 16), Some(16));
    assert_eq!(s.vertex_id, u64::MAX);
}

#[test]
fn ids_are_handed_out_once_and_in_order() {
    let mut s = Sequences { graph_id: 3, vertex_id: 0, property_id: 7, query_id: u64::MAX - 1 };
    assert_eq!(s.next_graph_id(), Some(3));
    assert_eq!(s.next_graph_id(), Some(4));
    assert_eq!(s.next_property_id(), Some(7));
    assert_eq!(s.next_query_id(), Some(u64::MAX - 1));
    // the last id is never handed out
    assert_eq!(s.next_query_id(), None);
    assert_eq!(s, Sequences { graph_id: 5, vertex_id: 0, property_id: 8, query_id: u64::MAX });
}

#[test]
fn registration_takes_an_id_even_where_the_alias_is_taken() {
    let mut s = cursors(0, 0);
    assert_eq!(s.register_property(false).unwrap().unwrap(), PropertyHandle(0));
    assert!(matches!(s.register_property(true), Some(Err(LatticeError::AliasAlreadyExists))));
    assert_eq!(s.register_property(false).unwrap().unwrap(), PropertyHandle(2));
    assert_eq!(s.register_query(false).unwrap().unwrap(), QueryHandle(0));
    assert!(matches!(s.register_query(true), Some(Err(LatticeError::AliasAlreadyExists))));
    assert_eq!(s.register_query(false).unwrap().unwrap(), QueryHandle(2));
    assert_eq!(s.property_id, 3);
    assert_eq!(s.query_id, 3);
    s.property_id = u64::MAX;
    assert!(s.register_property(false).is_none());
    assert_eq!(s.property_id, u64::MAX);
}

#[test]
fn builders_are_assigned_ranges_and_graph_ids() {
    let mut s = cursors(20, 100);
    let builders = vec![builder_with(3), loaded(7), builder_with(0), builder_with(2)];
    let plan = s.assign(&builders).unwrap();
    assert_eq!(
        plan,
        vec![
            Assignment { start_id: 100, new_vertices: 3, graph_id: 20 },
            Assignment { start_id: 103, new_vertices: 0, graph_id: 7 },
            Assignment { start_id: 103, new_vertices: 0, graph_id: 21 },
            Assignment { start_id: 103, new_vertices: 2, graph_id: 22 },
        ]
    );
    assert_eq!(s, cursors(23, 105));
    assert_eq!(s.assign(&Vec::new()).unwrap(), Vec::new());
    assert_eq!(s, cursors(23, 105));
}

#[test]
fn assignment_that_does_not_fit_changes_nothing() {
    let mut s = cursors(0, u64::MAX - 2);
    assert!(s.assign(&vec![builder_with(2), builder_with(1)]).is_none());
    assert_eq!(s, cursors(0, u64::MAX - 2));
    assert!(s.assign(&vec![builder_with(2)]).is_some());
    assert_eq!(s, cursors(1, u64::MAX));
    let mut s = cursors(u64::MAX, 0);
    assert!(s.assign(&vec![loaded(1), builder_with(0)]).is_none());
    assert_eq!(s, cursors(u64::MAX, 0));
    assert!(s.assign(&vec![loaded(1)]).is_some());
}

#[test]
fn commit_becomes_index_updates_in_order() {
    let data = GraphCommitData {
        graph_id: 1,
        prepared_graph: PreparedGraph { id: 1, vertices: vec![], edges: vec![] },
        add_attrs: vec![(10, 1, 100), (11, 2, 200)],
        rem_attrs: vec![(12, 3, 300)],
        add_edges: vec![(20, 5, 21)],
        rem_edges: vec![(22, 6, 23), (24, 6, 25)],
        deleted_vertices: vec![],
    };
    let u = |table, key, id, add| IndexUpdate { table, key, id, add };
    assert_eq!(
        index_updates(&data),
        vec![
            u(Table::Scalar, (3, 300), 12, false),
            u(Table::Scalar, (1, 100), 10, true),
            u(Table::Scalar, (2, 200), 11, true),
            u(Table::Forward, (22, 6), 23, false),
            u(Table::Reverse, (23, 6), 22, false),
            u(Table::Forward, (24, 6), 25, false),
            u(Table::Reverse, (25, 6), 24, false),
            u(Table::Forward, (20, 5), 21, true),
            u(Table::Reverse, (21, 5), 20, true),
        ]
    );
}

#[test]
fn edge_that_is_removed_and_made_again_stays_in_the_indexes() {
    let label = PropertyHandle(7);
    let mut g = GraphBuilder::from_prepared(PreparedGraph {
        id: 3,
        vertices: vec![
            PreparedVertex { id: 1, attrs: vec![] },
            PreparedVertex { id: 2, attrs: vec![] },
        ],
        edges: vec![PreparedEdge { from: 1, label, to: 2 }],
    });
    let (old_edge, from, to) = {
        let (h, e) = g.iter_edges().into_iter().next().unwrap();
        (EdgeHandle(h), e.from, e.to)
    };
    g.remove_edge(old_edge).unwrap();
    g.new_edge(from, label, to).unwrap();
    let data = PreparedGraph::commit_data_from_builder(g, 100, 3);
    assert_eq!(data.rem_edges, vec![(1, 7, 2)]);
    assert_eq!(data.add_edges, vec![(1, 7, 2)]);
    assert_eq!(data.prepared_graph.edges.len(), 1);

    let mut cache = IndexCache::new();
    cache.load(Lookup { table: Table::Forward, key: (1, 7) }, Some(encoded(&[2]))).unwrap();
    cache.load(Lookup { table: Table::Reverse, key: (2, 7) }, Some(encoded(&[1]))).unwrap();
    for u in index_updates(&data) {
        assert!(cache.update(u));
    }
    let writes = cache.flush().unwrap();
    assert_eq!(writes.len(), 2);
    assert_eq!((writes[0].table, writes[0].key), (Table::Forward, (1, 7)));
    assert_eq!(decoded(writes[0].bytes.as_ref().unwrap()), vec![2]);
    assert_eq!((writes[1].table, writes[1].key), (Table::Reverse, (2, 7)));
    assert_eq!(decoded(writes[1].bytes.as_ref().unwrap()), vec![1]);
}

#[test]
fn cache_applies_updates_to_loaded_entries_only() {
    let mut cache = IndexCache::new();
    let key = Lookup { table: Table::Scalar, key: (1, 2) };
    let add = IndexUpdate { table: Table::Scalar, key: (1, 2), id: 5, add: true };
    assert!(!cache.is_cached(key));
    assert!(!cache.update(add));
    assert!(cache.flush().unwrap().is_empty());
    cache.load(key, Some(encoded(&[1, 9]))).unwrap();
    assert!(cache.is_cached(key));
    assert!(!cache.is_cached(Lookup { table: Table::Forward, key: (1, 2) }));
    assert!(cache.update(add));
    assert!(cache.update(add));
    assert!(cache.update(IndexUpdate { id: 1, add: false, ..add }));
    assert!(cache.update(IndexUpdate { id: 77, add: false, ..add }));
    // loading again does not replace what the cache holds
    cache.load(key, Some(encoded(&[42]))).unwrap();
    cache.load(key, None).unwrap();
    let writes = cache.flush().unwrap();
    assert_eq!(writes.len(), 1);
    assert_eq!(writes[0].table, Table::Scalar);
    assert_eq!(writes[0].key, (1, 2));
    assert_eq!(decoded(writes[0].bytes.as_ref().unwrap()), vec![5, 9]);
}

#[test]
fn cache_flushes_table_by_table_in_ascending_order_of_key() {
    let mut cache = IndexCache::new();
    let keys = [(5u64, 1u64), (1, 9), (5, 0), (0, u64::MAX), (1, 2), (u64::MAX, 0)];
    for (i, k) in keys.iter().enumerate() {
        for table in [Table::Reverse, Table::Scalar, Table::Forward] {
            let lookup = Lookup { table, key: *k };
            cache.load(lookup, None).unwrap();
            assert!(cache.update(IndexUpdate { table, key: *k, id: i as u64, add: true }));
        }
    }
    let writes = cache.flush().unwrap();
    let order: Vec<(Table, (u64, u64))> = writes.iter().map(|w| (w.table, w.key)).collect();
    let sorted = [(0, u64::MAX), (1, 2), (1, 9), (5, 0), (5, 1), (u64::MAX, 0)];
    let mut want = Vec::new();
    for table in [Table::Scalar, Table::Forward, Table::Reverse] {
        for k in sorted {
            want.push((table, k));
        }
    }
    assert_eq!(order, want);
    for w in &writes {
        let i = keys.iter().position(|k| *k == w.key).unwrap() as u64;
        assert_eq!(decoded(w.bytes.as_ref().unwrap()), vec![i]);
    }
}

#[test]
fn empty_bitmap_is_removed_from_the_store() {
    let mut cache = IndexCache::new();
    let a = Lookup { table: Table::Forward, key: (1, 1) };
    let b = Lookup { table: Table::Forward, key: (2, 2) };
    cache.load(a, Some(encoded(&[3]))).unwrap();
    cache.load(b, None).unwrap();
    assert!(cache.update(IndexUpdate { table: Table::Forward, key: (1, 1), id: 3, add: false }));
    let writes = cache.flush().unwrap();
    assert_eq!(writes.len(), 2);
    assert!(writes[0].bytes.is_none());
    assert!(writes[1].bytes.is_none());
    assert_eq!(writes[0].key, (1, 1));
    assert_eq!(writes[1].key, (2, 2));
}

#[test]
fn cache_refuses_bytes_that_do_not_decode() {
    let mut cache = IndexCache::new();
    let a = Lookup { table: Table::Scalar, key: (1, 1) };
    let r = cache.load(a, Some(vec![3, 0, 0, 0, 0, 0, 0, 0, 1]));
    assert!(matches!(r, Err(LatticeError::BincodeError(_))));
    assert!(!cache.is_cached(a));
    assert!(cache.flush().unwrap().is_empty());
}

#[test]
fn cache_takes_in_bitmaps() {
    let mut cache = IndexCache::new();
    let key = Lookup { table: Table::Reverse, key: (4, 4) };
    let mut set = RoaringTreemap::new();
    set.insert(8);
    cache.load_bitmap(key, set);
    assert!(cache.is_cached(key));
    // the entry is held already: the second bitmap is dropped
    let mut other = RoaringTreemap::new();
    other.insert(9);
    cache.load_bitmap(key, other);
    assert!(cache.update(IndexUpdate { table: Table::Reverse, key: (4, 4), id: 1, add: true }));
    let writes = cache.flush().unwrap();
    assert_eq!(writes.len(), 1);
    assert_eq!(decoded(writes[0].bytes.as_ref().unwrap()), vec![1, 8]);
}

#[test]
fn new_vertices_are_entered_under_their_graph() {
    let a = Assignment { start_id: 5, new_vertices: 3, graph_id: 9 };
    assert_eq!(
        new_vertex_writes(&a),
        vec![
            MapWrite { vertex: 5, graph: Some(9) },
            MapWrite { vertex: 6, graph: Some(9) },
            MapWrite { vertex: 7, graph: Some(9) },
        ]
    );
    let none = Assignment { start_id: u64::MAX, new_vertices: 0, graph_id: 1 };
    assert!(new_vertex_writes(&none).is_empty());
    let last = Assignment { start_id: u64::MAX - 1, new_vertices: 1, graph_id: 2 };
    assert_eq!(new_vertex_writes(&last), vec![MapWrite { vertex: u64::MAX - 1, graph: Some(2) }]);
}

#[test]
fn deleted_vertices_are_taken_out_of_the_map() {
    let mut g = GraphBuilder::from_prepared(PreparedGraph {
        id: 3,
        vertices: vec![
            PreparedVertex { id: 11, attrs: vec![] },
            PreparedVertex { id: 12, attrs: vec![] },
            PreparedVertex { id: 13, attrs: vec![] },
        ],
        edges: vec![],
    });
    let handles: Vec<_> = g.iter_vertices().into_iter().map(|(h, _)| h).collect();
    g.remove_vertex(lattice_db::graph::graph_builder::VertexHandle(handles[2])).unwrap();
    g.remove_vertex(lattice_db::graph::graph_builder::VertexHandle(handles[0])).unwrap();
    g.new_vertex();
    let data = PreparedGraph::commit_data_from_builder(g, 100, 3);
    assert_eq!(
        deleted_vertex_writes(&data),
        vec![MapWrite { vertex: 11, graph: None }, MapWrite { vertex: 13, graph: None }]
    );
    let ids: Vec<u64> = data.prepared_graph.vertices.iter().map(|v| v.id).collect();
    assert_eq!(ids, vec![100, 12]);
}
