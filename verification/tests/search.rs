use lattice_db::errors::LatticeError;
use lattice_db::graph::graph_builder::{GraphBuilder, VertexHandle};
use lattice_db::graph::graph_prepared::{PreparedGraph, PreparedVertex};
use lattice_db::lattice_db::reader::{Lookup, Progress, Search, Table};
use lattice_db::lattice_db::writer::{index_updates, IndexCache, Sequences};
use lattice_db::props::properties::{PropertyHandle, QUERY_MATCH};
use lattice_db::query::query_builder::QueryBuilder;
use lattice_db::query::query_prepared::{Node, PreparedQuery};
use lattice_db::utils::generational_vector::Handle;
use roaring::RoaringTreemap;
use std::collections::HashMap;

/// The store as the tests keep it: the three indexes and the graphs.
struct Store {
    indexes: HashMap<(Table, (u64, u64)), Vec<u8>>,
    graphs: HashMap<u64, PreparedGraph>,
    sequences: Sequences,
}

fn new_store() -> Store {
    Store {
        indexes: HashMap::new(),
        graphs: HashMap::new(),
        sequences: Sequences { graph_id: 0, vertex_id: 0, property_id: 0, query_id: 0 },
    }
}

fn register(store: &mut Store) -> PropertyHandle {
    store.sequences.register_property(false).unwrap().unwrap()
}

fn read(store: &Store, lookup: Lookup) -> Option<Vec<u8>> {
    store.indexes.get(&(lookup.table, lookup.key)).cloned()
}

/// Commits the builders as a write transaction does, and returns the ids of their graphs.
fn save(store: &mut Store, builders: Vec<GraphBuilder>) -> Vec<u64> {
    let plan = store.sequences.assign(&builders).unwrap();
    let mut cache = IndexCache::new();
    let mut graph_ids = Vec::new();
    for (builder, a) in builders.into_iter().zip(plan) {
        assert!(builder.endpoints_resolve());
        let data = PreparedGraph::commit_data_from_builder(builder, a.start_id, a.graph_id);
        for u in index_updates(&data) {
            let lookup = Lookup { table: u.table, key: u.key };
            if !cache.is_cached(lookup) {
                cache.load(lookup, read(store, lookup)).unwrap();
            }
            assert!(cache.update(u));
        }
        graph_ids.push(data.graph_id);
        store.graphs.insert(data.graph_id, data.prepared_graph);
    }
    for w in cache.flush().unwrap() {
        match w.bytes {
            Some(bytes) => {
                store.indexes.insert((w.table, w.key), bytes);
            }
            None => {
                store.indexes.remove(&(w.table, w.key));
            }
        }
    }
    graph_ids
}

fn load(store: &mut Store, graph_id: u64) -> GraphBuilder {
    let graph = store.graphs.remove(&graph_id).unwrap();
    assert!(graph.is_linked());
    GraphBuilder::from_prepared(graph)
}

fn search(store: &Store, query: &PreparedQuery) -> Result<Vec<u64>, LatticeError> {
    let mut s = Search::new(query);
    loop {
        match s.advance() {
            Progress::Need(lookup) => s.supply(read(store, lookup))?,
            Progress::Done(list) => return Ok(list),
        }
    }
}

fn run(store: &Store, q: &QueryBuilder) -> Vec<u64> {
    search(store, &q.compile().unwrap()).unwrap()
}

fn vertex(i: usize) -> VertexHandle {
    VertexHandle(Handle { generation: 0, index: i })
}

fn ids_of(graph: &PreparedGraph) -> Vec<u64> {
    graph.vertices.iter().map(|v: &PreparedVertex| v.id).collect()
}

fn bitmap_bytes(values: &[u64]) -> Vec<u8> {
    let mut t = RoaringTreemap::new();
    for v in values {
        t.insert(*v);
    }
    let mut bytes = Vec::new();
    t.serialize_into(&mut bytes).unwrap();
    bytes
}

#[test]
fn supernode_fan_in() {
    let n = 2000u64;
    let mut store = new_store();
    let follows = register(&mut store);
    let kind = register(&mut store);
    let mut g = GraphBuilder::new();
    let celebrity = g.new_vertex().new_attribute(kind, "celebrity").unwrap().handle();
    for _ in 0..n {
        g.new_vertex().new_edge(follows, celebrity).unwrap();
    }
    let graph = save(&mut store, vec![g])[0];

    let mut q = QueryBuilder::new();
    let c = q.match_attr(kind, "celebrity").unwrap();
    let fans = q.match_incoming(follows, c).unwrap();
    q.set_root(fans);
    let result = run(&store, &q);
    assert_eq!(result.len() as u64, n);
    let all = ids_of(&store.graphs[&graph]);
    assert_eq!(all.len() as u64, n + 1);
    assert_eq!(result, all[1..].to_vec());

    // the other direction leads from the fans to the celebrity
    let mut q = QueryBuilder::new();
    let c = q.match_attr(kind, "celebrity").unwrap();
    let fans = q.match_incoming(follows, c).unwrap();
    let back = q.match_outgoing(follows, fans).unwrap();
    q.set_root(back);
    assert_eq!(run(&store, &q), vec![all[0]]);
}

#[test]
fn triple_conjunction() {
    let n = 5000;
    let mut store = new_store();
    let big_a = register(&mut store);
    let big_b = register(&mut store);
    let small = register(&mut store);
    let mut g = GraphBuilder::new();
    for i in 0..n {
        let mut v = g.new_vertex();
        v.new_attribute(big_a, 1u64).unwrap().new_attribute(big_b, 1u64).unwrap();
        if i < 5 {
            v.new_attribute(small, 1u64).unwrap();
        }
    }
    save(&mut store, vec![g]);
    let mut q = QueryBuilder::new();
    let a = q.match_attr(big_a, 1u64).unwrap();
    let b = q.match_attr(big_b, 1u64).unwrap();
    let s = q.match_attr(small, 1u64).unwrap();
    let all = q.group_and(vec![a, b, s]).unwrap();
    q.set_root(all);
    assert_eq!(run(&store, &q), vec![0, 1, 2, 3, 4]);
}

#[test]
fn n_way_disjunction() {
    let n = 300;
    let mut store = new_store();
    let properties: Vec<PropertyHandle> = (0..n).map(|_| register(&mut store)).collect();
    let mut g = GraphBuilder::new();
    for p in &properties {
        g.new_vertex().new_attribute(*p, 1u64).unwrap();
    }
    save(&mut store, vec![g]);
    let mut q = QueryBuilder::new();
    let matches = properties.iter().map(|p| q.match_attr(*p, 1u64).unwrap()).collect();
    let any = q.group_or(matches).unwrap();
    q.set_root(any);
    let result = run(&store, &q);
    assert_eq!(result, (0..n as u64).collect::<Vec<u64>>());
}

#[test]
fn deep_chain() {
    let n = 200;
    let mut store = new_store();
    let labels: Vec<PropertyHandle> = (0..n - 1).map(|_| register(&mut store)).collect();
    let mut g = GraphBuilder::new();
    let vertices: Vec<VertexHandle> = (0..n).map(|_| g.new_vertex().handle()).collect();
    for i in 0..n - 1 {
        g.new_edge(vertices[i], labels[i], vertices[i + 1]).unwrap();
    }
    g.edit_vertex(vertices[0]).unwrap().new_attribute(labels[0], 0u64).unwrap();
    save(&mut store, vec![g]);
    let mut q = QueryBuilder::new();
    let mut at = q.match_attr(labels[0], 0u64).unwrap();
    for l in &labels {
        at = q.match_outgoing(*l, at).unwrap();
    }
    q.set_root(at);
    assert_eq!(run(&store, &q), vec![n as u64 - 1]);
}

#[test]
fn edit_and_recommit() {
    let n = 50u64;
    let mut store = new_store();
    let follows = register(&mut store);
    let kind = register(&mut store);
    let mut g = GraphBuilder::new();
    let celebrity = g.new_vertex().new_attribute(kind, "celebrity").unwrap().handle();
    for _ in 0..n {
        g.new_vertex().new_edge(follows, celebrity).unwrap();
    }
    let graph = save(&mut store, vec![g])[0];

    let mut g = load(&mut store, graph);
    {
        let attrs = g.get_mut_attributes(vertex(0)).unwrap();
        attrs.clear();
    }
    g.edit_vertex(vertex(0)).unwrap().new_attribute(kind, "retired").unwrap();
    g.new_vertex().new_edge(follows, vertex(0)).unwrap();
    assert_eq!(save(&mut store, vec![g]), vec![graph]);

    let mut q = QueryBuilder::new();
    let c = q.match_attr(kind, "celebrity").unwrap();
    let fans = q.match_incoming(follows, c).unwrap();
    q.set_root(fans);
    assert_eq!(run(&store, &q), Vec::<u64>::new());

    let mut q = QueryBuilder::new();
    let c = q.match_attr(kind, "retired").unwrap();
    q.set_root(c);
    assert_eq!(run(&store, &q), vec![0]);

    let mut q = QueryBuilder::new();
    let c = q.match_attr(kind, "retired").unwrap();
    let fans = q.match_incoming(follows, c).unwrap();
    q.set_root(fans);
    assert_eq!(run(&store, &q), (1..=n + 1).collect::<Vec<u64>>());
    // the index entry of the old value is gone from the store
    let old = lattice_db::utils::values::Primitive::Text("celebrity".to_string()).hash();
    assert!(!store.indexes.contains_key(&(Table::Scalar, (kind.0, old))));
}

#[test]
fn difference() {
    let mut store = new_store();
    let a = register(&mut store);
    let b = register(&mut store);
    let mut g = GraphBuilder::new();
    for i in 1..=10 {
        let mut v = g.new_vertex();
        if i <= 7 {
            v.new_attribute(a, 1u64).unwrap();
        }
        if i >= 5 && i <= 7 || i > 7 {
            v.new_attribute(b, 1u64).unwrap();
        }
    }
    save(&mut store, vec![g]);
    let mut q = QueryBuilder::new();
    let ma = q.match_attr(a, 1u64).unwrap();
    let mb = q.match_attr(b, 1u64).unwrap();
    let d = q.difference(ma, mb).unwrap();
    q.set_root(d);
    assert_eq!(run(&store, &q), vec![0, 1, 2, 3]);

    let mut q = QueryBuilder::new();
    let ma = q.match_attr(a, 1u64).unwrap();
    let mb = q.match_attr(b, 1u64).unwrap();
    let d = q.difference(mb, ma).unwrap();
    q.set_root(d);
    assert_eq!(run(&store, &q), vec![7, 8, 9]);
}

#[test]
fn union_is_at_least_as_large_and_intersection_at_most_as_large() {
    let mut store = new_store();
    let a = register(&mut store);
    let b = register(&mut store);
    let mut g = GraphBuilder::new();
    for i in 0..40u64 {
        let mut v = g.new_vertex();
        if i % 2 == 0 {
            v.new_attribute(a, 1u64).unwrap();
        }
        if i % 3 == 0 {
            v.new_attribute(b, 1u64).unwrap();
        }
    }
    save(&mut store, vec![g]);
    let size = |which: u8| {
        let mut q = QueryBuilder::new();
        let ma = q.match_attr(a, 1u64).unwrap();
        let mb = q.match_attr(b, 1u64).unwrap();
        let root = match which {
            0 => ma,
            1 => mb,
            2 => q.group_or(vec![ma, mb]).unwrap(),
            _ => q.group_and(vec![ma, mb]).unwrap(),
        };
        q.set_root(root);
        run(&store, &q).len()
    };
    assert_eq!(size(0), 20);
    assert_eq!(size(1), 14);
    assert_eq!(size(2), 27);
    assert_eq!(size(3), 7);
    assert!(size(2) >= size(0).max(size(1)));
    assert!(size(3) <= size(0).min(size(1)));
}

#[test]
fn empty_groups_and_missing_entries_give_nothing() {
    let store = new_store();
    let p = PropertyHandle(1);
    let mut q = QueryBuilder::new();
    let none = q.match_attr(p, 1u64).unwrap();
    let hop = q.match_outgoing(p, none).unwrap();
    let and = q.group_and(vec![]).unwrap();
    let or = q.group_or(vec![]).unwrap();
    for root in [none, hop, and, or] {
        q.set_root(root);
        assert!(run(&store, &q).is_empty());
    }
}

#[test]
fn intersection_with_an_empty_result_is_empty() {
    let mut store = new_store();
    let a = register(&mut store);
    let b = register(&mut store);
    let c = register(&mut store);
    let mut g = GraphBuilder::new();
    for _ in 0..5 {
        g.new_vertex().new_attribute(a, 1u64).unwrap().new_attribute(b, 1u64).unwrap();
    }
    save(&mut store, vec![g]);
    let mut q = QueryBuilder::new();
    let ma = q.match_attr(a, 1u64).unwrap();
    let mb = q.match_attr(b, 1u64).unwrap();
    let mc = q.match_attr(c, 1u64).unwrap();
    let all = q.group_and(vec![ma, mc, mb]).unwrap();
    q.set_root(all);
    assert!(run(&store, &q).is_empty());
    let two = q.group_and(vec![ma, mb]).unwrap();
    q.set_root(two);
    assert_eq!(run(&store, &q), vec![0, 1, 2, 3, 4]);
}

#[test]
fn saved_query_reads_the_reserved_property() {
    let mut store = new_store();
    store.indexes.insert((Table::Scalar, (QUERY_MATCH, 4)), bitmap_bytes(&[9, 3, 1 << 40]));
    let query = PreparedQuery { nodes: vec![Node::SavedQuery(4)], root: 0 };
    assert_eq!(search(&store, &query).unwrap(), vec![3, 9, 1 << 40]);
    let other = PreparedQuery { nodes: vec![Node::SavedQuery(5)], root: 0 };
    assert!(search(&store, &other).unwrap().is_empty());
}

#[test]
fn evaluation_asks_for_one_entry_at_a_time() {
    let p = PropertyHandle(2);
    let l = PropertyHandle(3);
    let query = PreparedQuery {
        nodes: vec![
            Node::Attribute { attr: p, value: 11 },
            Node::Edge {
                dir: lattice_db::query::query_builder::EdgeDirection::Outgoing,
                label: l,
                target: 0,
            },
        ],
        root: 1,
    };
    let mut s = Search::new(&query);
    match s.advance() {
        Progress::Need(lookup) => assert_eq!(lookup, Lookup { table: Table::Scalar, key: (2, 11) }),
        other => panic!("unexpected {:?}", other),
    }
    // asking again before the entry is handed in asks for the same entry
    match s.advance() {
        Progress::Need(lookup) => assert_eq!(lookup, Lookup { table: Table::Scalar, key: (2, 11) }),
        other => panic!("unexpected {:?}", other),
    }
    s.supply(Some(bitmap_bytes(&[8, 5]))).unwrap();
    match s.advance() {
        Progress::Need(lookup) => assert_eq!(lookup, Lookup { table: Table::Forward, key: (5, 3) }),
        other => panic!("unexpected {:?}", other),
    }
    s.supply(Some(bitmap_bytes(&[100, 7]))).unwrap();
    match s.advance() {
        Progress::Need(lookup) => assert_eq!(lookup, Lookup { table: Table::Forward, key: (8, 3) }),
        other => panic!("unexpected {:?}", other),
    }
    s.supply(None).unwrap();
    match s.advance() {
        Progress::Done(list) => assert_eq!(list, vec![7, 100]),
        other => panic!("unexpected {:?}", other),
    }
    // what is handed in when nothing is asked for changes nothing
    s.supply(Some(bitmap_bytes(&[1]))).unwrap();
    match s.advance() {
        Progress::Done(list) => assert_eq!(list, vec![7, 100]),
        other => panic!("unexpected {:?}", other),
    }
}

#[test]
fn incoming_edges_are_read_from_the_reverse_index() {
    let query = PreparedQuery {
        nodes: vec![
            Node::Attribute { attr: PropertyHandle(1), value: 1 },
            Node::Edge {
                dir: lattice_db::query::query_builder::EdgeDirection::Incoming,
                label: PropertyHandle(6),
                target: 0,
            },
        ],
        root: 1,
    };
    let mut s = Search::new(&query);
    assert!(matches!(s.advance(), Progress::Need(_)));
    s.supply(Some(bitmap_bytes(&[4]))).unwrap();
    match s.advance() {
        Progress::Need(lookup) => assert_eq!(lookup, Lookup { table: Table::Reverse, key: (4, 6) }),
        other => panic!("unexpected {:?}", other),
    }
}

#[test]
fn bytes_that_do_not_decode_are_refused() {
    let garbage = vec![1u8, 0, 0, 0, 0, 0, 0, 0, 9, 9];
    let mut store = new_store();
    store.indexes.insert((Table::Scalar, (1, 1)), garbage.clone());
    store.indexes.insert((Table::Scalar, (QUERY_MATCH, 1)), garbage.clone());
    store.indexes.insert((Table::Scalar, (2, 2)), bitmap_bytes(&[5]));
    store.indexes.insert((Table::Forward, (5, 3)), garbage.clone());

    let attribute = PreparedQuery {
        nodes: vec![Node::Attribute { attr: PropertyHandle(1), value: 1 }],
        root: 0,
    };
    assert!(matches!(search(&store, &attribute), Err(LatticeError::BincodeError(_))));

    let saved = PreparedQuery { nodes: vec![Node::SavedQuery(1)], root: 0 };
    assert!(matches!(search(&store, &saved), Err(LatticeError::IOError(_))));

    let hop = PreparedQuery {
        nodes: vec![
            Node::Attribute { attr: PropertyHandle(2), value: 2 },
            Node::Edge {
                dir: lattice_db::query::query_builder::EdgeDirection::Outgoing,
                label: PropertyHandle(3),
                target: 0,
            },
        ],
        root: 1,
    };
    assert!(matches!(search(&store, &hop), Err(LatticeError::BincodeError(_))));

    // the refused bytes change nothing: the same entry is asked for again
    let mut s = Search::new(&attribute);
    assert!(matches!(s.advance(), Progress::Need(_)));
    assert!(s.supply(Some(garbage)).is_err());
    match s.advance() {
        Progress::Need(lookup) => assert_eq!(lookup, Lookup { table: Table::Scalar, key: (1, 1) }),
        other => panic!("unexpected {:?}", other),
    }
    s.supply(Some(bitmap_bytes(&[2]))).unwrap();
    assert!(matches!(s.advance(), Progress::Done(list) if list == vec![2]));
}

#[test]
fn edges_stand_in_both_edge_indexes() {
    let mut store = new_store();
    let l = register(&mut store);
    let m = register(&mut store);
    let mut g = GraphBuilder::new();
    let v: Vec<VertexHandle> = (0..4).map(|_| g.new_vertex().handle()).collect();
    g.new_edge(v[0], l, v[1]).unwrap();
    g.new_edge(v[0], l, v[2]).unwrap();
    g.new_edge(v[3], m, v[0]).unwrap();
    g.new_edge(v[2], l, v[2]).unwrap();
    let graph = save(&mut store, vec![g])[0];
    let mut g = load(&mut store, graph);
    g.remove_vertex(vertex(1)).unwrap();
    g.new_edge(vertex(3), l, vertex(2)).unwrap();
    save(&mut store, vec![g]);

    let decode = |table: Table| -> Vec<(u64, u64, u64)> {
        let mut out = Vec::new();
        for ((t, key), bytes) in &store.indexes {
            if *t == table {
                let set = RoaringTreemap::deserialize_from(&bytes[..]).unwrap();
                assert!(!set.is_empty());
                for id in set.iter() {
                    out.push((key.0, key.1, id));
                }
            }
        }
        out.sort();
        out
    };
    let forward = decode(Table::Forward);
    let mut reverse: Vec<(u64, u64, u64)> =
        decode(Table::Reverse).into_iter().map(|(to, label, from)| (from, label, to)).collect();
    reverse.sort();
    assert_eq!(forward, reverse);
    assert_eq!(forward, vec![(0, l.0, 2), (2, l.0, 2), (3, l.0, 2), (3, m.0, 0)]);
}

#[test]
fn two_builders_get_ranges_of_ids_one_behind_the_other() {
    let mut store = new_store();
    let p = register(&mut store);
    let mut first = GraphBuilder::new();
    for _ in 0..3 {
        first.new_vertex().new_attribute(p, 1u64).unwrap();
    }
    let mut second = GraphBuilder::new();
    for _ in 0..2 {
        second.new_vertex().new_attribute(p, 1u64).unwrap();
    }
    let graphs = save(&mut store, vec![first, second]);
    assert_eq!(graphs, vec![0, 1]);
    assert_eq!(ids_of(&store.graphs[&0]), vec![0, 1, 2]);
    assert_eq!(ids_of(&store.graphs[&1]), vec![3, 4]);
    assert_eq!(store.sequences.vertex_id, 5);
    assert_eq!(store.sequences.graph_id, 2);
    let mut q = QueryBuilder::new();
    let m = q.match_attr(p, 1u64).unwrap();
    q.set_root(m);
    assert_eq!(run(&store, &q), vec![0, 1, 2, 3, 4]);
}

/// A small generator of numbers for the randomized test.
struct Numbers(u64);

fn next(n: &mut Numbers, below: u64) -> u64 {
    n.0 = n.0.wrapping_mul(6364136223846793005).wrapping_add(1442695040888963407);
    (n.0 >> 33) % below
}

/// The result of a query by looking at every persisted vertex and edge.
fn by_hand(graphs: &HashMap<u64, PreparedGraph>, query: &PreparedQuery) -> Vec<u64> {
    let mut results: Vec<Vec<u64>> = Vec::new();
    for node in &query.nodes {
        let mut found: Vec<u64> = Vec::new();
        match node {
            Node::Attribute { attr, value } => {
                for g in graphs.values() {
                    for v in &g.vertices {
                        if v.attrs.iter().any(|(p, x)| p == attr && x.hash() == *value) {
                            found.push(v.id);
                        }
                    }
                }
            }
            Node::Edge { dir, label, target } => {
                for g in graphs.values() {
                    for e in &g.edges {
                        let (start, end) = match dir {
                            lattice_db::query::query_builder::EdgeDirection::Outgoing => (e.from, e.to),
                            lattice_db::query::query_builder::EdgeDirection::Incoming => (e.to, e.from),
                        };
                        if e.label == *label && results[*target].contains(&start) {
                            found.push(end);
                        }
                    }
                }
            }
            Node::Union(c) => {
                for i in c {
                    found.extend(results[*i].iter());
                }
            }
            Node::Intersect(c) => {
                if let Some(first) = c.first() {
                    found = results[*first]
                        .iter()
                        .copied()
                        .filter(|v| c.iter().all(|i| results[*i].contains(v)))
                        .collect();
                }
            }
            Node::Difference(a, b) => {
                found = results[*a].iter().copied().filter(|v| !results[*b].contains(v)).collect();
            }
            Node::SavedQuery(_) => {}
        }
        found.sort();
        found.dedup();
        results.push(found);
    }
    results[query.root].clone()
}

fn random_query(n: &mut Numbers, properties: &[PropertyHandle]) -> QueryBuilder {
    let mut q = QueryBuilder::new();
    let mut nodes = Vec::new();
    for _ in 0..3 {
        let p = properties[next(n, properties.len() as u64) as usize];
        nodes.push(q.match_attr(p, next(n, 3)).unwrap());
    }
    for _ in 0..6 {
        let a = nodes[next(n, nodes.len() as u64) as usize];
        let b = nodes[next(n, nodes.len() as u64) as usize];
        let c = nodes[next(n, nodes.len() as u64) as usize];
        let p = properties[next(n, properties.len() as u64) as usize];
        let node = match next(n, 6) {
            0 => q.group_or(vec![a, b, c]).unwrap(),
            1 => q.group_and(vec![a, b]).unwrap(),
            2 => q.difference(a, b).unwrap(),
            3 => q.match_outgoing(p, a).unwrap(),
            4 => q.match_incoming(p, a).unwrap(),
            _ => q.match_attr(p, next(n, 3)).unwrap(),
        };
        nodes.push(node);
    }
    q.set_root(*nodes.last().unwrap());
    q
}

#[test]
fn queries_agree_with_the_persisted_graphs_through_edits() {
    let mut n = Numbers(17);
    let mut store = new_store();
    let properties: Vec<PropertyHandle> = (0..4).map(|_| register(&mut store)).collect();
    let mut graph_ids: Vec<u64> = Vec::new();
    for round in 0..12 {
        // a new graph, or an edit of a graph that is persisted
        let mut g = if graph_ids.is_empty() || next(&mut n, 3) == 0 {
            GraphBuilder::new()
        } else {
            let id = graph_ids[next(&mut n, graph_ids.len() as u64) as usize];
            load(&mut store, id)
        };
        let mut handles: Vec<VertexHandle> =
            g.iter_vertices().into_iter().map(|(h, _)| VertexHandle(h)).collect();
        for _ in 0..next(&mut n, 3) {
            if handles.len() > 1 {
                let at = next(&mut n, handles.len() as u64) as usize;
                g.remove_vertex(handles.swap_remove(at)).unwrap();
            }
        }
        for _ in 0..next(&mut n, 4) + 1 {
            handles.push(g.new_vertex().handle());
        }
        for h in &handles {
            // each vertex holds a property at most once
            let attrs = g.get_mut_attributes(*h).unwrap();
            attrs.clear();
            for p in &properties {
                if next(&mut n, 2) == 0 {
                    attrs.push((*p, lattice_db::utils::values::Primitive::UInt(next(&mut n, 3))));
                }
            }
        }
        if round % 2 == 0 {
            // edges come with labels of their own, so that no edge stands twice
            for _ in 0..next(&mut n, 5) {
                let from = handles[next(&mut n, handles.len() as u64) as usize];
                let to = handles[next(&mut n, handles.len() as u64) as usize];
                let label = properties[next(&mut n, properties.len() as u64) as usize];
                let twice = g.iter_edges().iter().any(|(_, e)| {
                    e.from == from && e.to == to && e.label == label
                });
                if !twice {
                    g.new_edge(from, label, to).unwrap();
                }
            }
        } else {
            let edges: Vec<lattice_db::graph::graph_builder::EdgeHandle> = g
                .iter_edges()
                .into_iter()
                .map(|(h, _)| lattice_db::graph::graph_builder::EdgeHandle(h))
                .collect();
            for e in edges {
                if next(&mut n, 3) == 0 {
                    g.remove_edge(e).unwrap();
                }
            }
        }
        let saved = save(&mut store, vec![g]);
        if !graph_ids.contains(&saved[0]) {
            graph_ids.push(saved[0]);
        }
        for _ in 0..10 {
            let q = random_query(&mut n, &properties).compile().unwrap();
            assert!(q.is_well_formed());
            assert_eq!(search(&store, &q).unwrap(), by_hand(&store.graphs, &q));
        }
    }
    // every entry of the store holds something
    for bytes in store.indexes.values() {
        assert!(!RoaringTreemap::deserialize_from(&bytes[..]).unwrap().is_empty());
    }
}

#[test]
fn sets_can_be_handed_in_as_bitmaps() {
    let query = PreparedQuery {
        nodes: vec![
            Node::Attribute { attr: PropertyHandle(1), value: 1 },
            Node::Attribute { attr: PropertyHandle(2), value: 2 },
            Node::Intersect(vec![0, 1]),
        ],
        root: 2,
    };
    let mut s = Search::new(&query);
    assert!(s.is_waiting());
    let mut first = RoaringTreemap::new();
    for v in [1u64, 2, 3, 4] {
        first.insert(v);
    }
    s.supply_bitmap(first);
    assert!(s.is_waiting());
    assert!(matches!(s.advance(), Progress::Need(l) if l.key == (2, 2)));
    let mut second = RoaringTreemap::new();
    for v in [9u64, 4, 2] {
        second.insert(v);
    }
    s.supply_bitmap(second);
    assert!(!s.is_waiting());
    // nothing is pending: what is handed in now is dropped
    s.supply_bitmap(RoaringTreemap::new());
    assert!(matches!(s.advance(), Progress::Done(list) if list == vec![2, 4]));
    assert!(!s.is_waiting());
}
