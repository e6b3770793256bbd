use lattice_db::errors::LatticeError;
use lattice_db::props::properties::PropertyHandle;
use lattice_db::query::query_builder::{EdgeDirection, NodeHandle, QueryBuilder, QueryNode};
use lattice_db::query::query_prepared::{Node, PreparedQuery};
use lattice_db::utils::generational_vector::Handle;
use lattice_db::utils::values::Primitive;

const A: PropertyHandle = PropertyHandle(1);
const B: PropertyHandle = PropertyHandle(2);
const FOLLOWS: PropertyHandle = PropertyHandle(3);

const TAG: u64 = 1 << 56;

fn show(nodes: &[Node]) -> Vec<String> {
    nodes.iter().map(|n| format!("{:?}", n)).collect()
}

fn attribute(attr: PropertyHandle, value: u64) -> Node {
    Node::Attribute { attr, value }
}

#[test]
fn builder_hands_out_handles_in_order() {
    let mut q = QueryBuilder::new();
    assert!(q.get_root().is_none());
    let a = q.match_attr(A, 1u64).unwrap();
    let b = q.match_attr(B, "x").unwrap();
    let c = q.group_or(vec![a, b]).unwrap();
    assert_eq!(a.0, Handle { generation: 0, index: 0 });
    assert_eq!(b.0, Handle { generation: 0, index: 1 });
    assert_eq!(c.0, Handle { generation: 0, index: 2 });
    q.set_root(c);
    assert_eq!(q.get_root().unwrap().0, c.0);
    assert!(QueryBuilder::default().get_root().is_none());
}

#[test]
fn builder_refuses_handles_that_do_not_resolve() {
    let mut q = QueryBuilder::new();
    let a = q.match_attr(A, 1u64).unwrap();
    let ghost = NodeHandle(Handle { generation: 0, index: 7 });
    let stale = NodeHandle(Handle { generation: 1, index: 0 });
    assert!(matches!(q.match_outgoing(FOLLOWS, ghost), Err(LatticeError::QueryNodeNotFound)));
    assert!(matches!(q.match_incoming(FOLLOWS, stale), Err(LatticeError::QueryNodeNotFound)));
    assert!(matches!(q.group_and(vec![a, ghost]), Err(LatticeError::QueryNodeNotFound)));
    assert!(matches!(q.group_or(vec![ghost]), Err(LatticeError::QueryNodeNotFound)));
    assert!(matches!(q.difference(a, ghost), Err(LatticeError::QueryNodeNotFound)));
    assert!(matches!(q.difference(ghost, a), Err(LatticeError::QueryNodeNotFound)));
    // nothing was added by the refused calls
    let next = q.match_attr(A, 2u64).unwrap();
    assert_eq!(next.0.index, 1);
    assert!(q.group_and(vec![]).is_ok());
}

#[test]
fn match_attr_refuses_a_value_that_is_too_big() {
    let mut q = QueryBuilder::new();
    assert!(matches!(q.match_attr(A, 1u64 << 56), Err(LatticeError::NumberTooBig(_))));
    let a = q.match_attr(A, (1u64 << 56) - 1).unwrap();
    assert_eq!(a.0.index, 0);
}

#[test]
fn attribute_node_takes_any_value() {
    match QueryNode::attribute(A, 1u64 << 60) {
        QueryNode::Attribute { attr, value } => {
            assert_eq!(attr, A);
            assert_eq!(value, Primitive::UInt(1 << 60));
        }
        _ => panic!("not an attribute"),
    }
    match QueryNode::attribute(B, "text") {
        QueryNode::Attribute { value, .. } => assert_eq!(value, Primitive::Text("text".to_string())),
        _ => panic!("not an attribute"),
    }
}

#[test]
fn compile_without_root_fails() {
    let mut q = QueryBuilder::new();
    q.match_attr(A, 1u64).unwrap();
    assert!(matches!(q.compile(), Err(LatticeError::RootNotFound)));
    assert!(matches!(QueryBuilder::new().compile(), Err(LatticeError::RootNotFound)));
}

#[test]
fn compile_with_a_root_that_does_not_resolve_fails() {
    let mut q = QueryBuilder::new();
    q.match_attr(A, 1u64).unwrap();
    q.set_root(NodeHandle(Handle { generation: 0, index: 3 }));
    assert!(matches!(q.compile(), Err(LatticeError::QueryNodeNotFound)));
    q.set_root(NodeHandle(Handle { generation: 2, index: 0 }));
    assert!(matches!(q.compile(), Err(LatticeError::QueryNodeNotFound)));
}

#[test]
fn compile_single_attribute() {
    let mut q = QueryBuilder::new();
    let a = q.match_attr(A, 5u64).unwrap();
    q.match_attr(B, 6u64).unwrap();
    q.set_root(a);
    let p = q.compile().unwrap();
    assert_eq!(p.root, 0);
    assert_eq!(show(&p.nodes), show(&[attribute(A, TAG | 5)]));
}

#[test]
fn compile_hashes_text_values() {
    let mut q = QueryBuilder::new();
    let a = q.match_attr(A, "celebrity").unwrap();
    q.set_root(a);
    let p = q.compile().unwrap();
    let hash = Primitive::Text("celebrity".to_string()).hash();
    assert_eq!(show(&p.nodes), show(&[attribute(A, hash)]));
}

#[test]
fn compile_puts_children_before_parents() {
    let mut q = QueryBuilder::new();
    let a = q.match_attr(A, 1u64).unwrap();
    let b = q.match_attr(B, 2u64).unwrap();
    let u = q.group_or(vec![a, b]).unwrap();
    let e = q.match_incoming(FOLLOWS, u).unwrap();
    q.set_root(e);
    let p = q.compile().unwrap();
    // the walk takes the first child first
    assert_eq!(
        show(&p.nodes),
        show(&[
            attribute(A, TAG | 1),
            attribute(B, TAG | 2),
            Node::Union(vec![0, 1]),
            Node::Edge { dir: EdgeDirection::Incoming, label: FOLLOWS, target: 2 },
        ])
    );
    assert_eq!(p.root, 3);
}

#[test]
fn compile_keeps_the_operands_of_a_difference_in_order() {
    let mut q = QueryBuilder::new();
    let a = q.match_attr(A, 1u64).unwrap();
    let b = q.match_attr(B, 1u64).unwrap();
    let d = q.difference(a, b).unwrap();
    q.set_root(d);
    let p = q.compile().unwrap();
    assert_eq!(
        show(&p.nodes),
        show(&[attribute(A, TAG | 1), attribute(B, TAG | 1), Node::Difference(0, 1)])
    );
    assert_eq!(p.root, 2);

    let mut q = QueryBuilder::new();
    let a = q.match_attr(A, 1u64).unwrap();
    let b = q.match_attr(B, 1u64).unwrap();
    let d = q.difference(b, a).unwrap();
    q.set_root(d);
    let p = q.compile().unwrap();
    assert_eq!(
        show(&p.nodes),
        show(&[attribute(B, TAG | 1), attribute(A, TAG | 1), Node::Difference(0, 1)])
    );
}

#[test]
fn compile_visits_a_shared_node_once() {
    let mut q = QueryBuilder::new();
    let a = q.match_attr(A, 1u64).unwrap();
    let out = q.match_outgoing(FOLLOWS, a).unwrap();
    let inc = q.match_incoming(FOLLOWS, a).unwrap();
    let both = q.group_and(vec![out, inc]).unwrap();
    q.set_root(both);
    let p = q.compile().unwrap();
    assert_eq!(
        show(&p.nodes),
        show(&[
            attribute(A, TAG | 1),
            Node::Edge { dir: EdgeDirection::Outgoing, label: FOLLOWS, target: 0 },
            Node::Edge { dir: EdgeDirection::Incoming, label: FOLLOWS, target: 0 },
            Node::Intersect(vec![1, 2]),
        ])
    );
    assert_eq!(p.root, 3);
}

#[test]
fn compile_merges_equal_nodes() {
    let mut q = QueryBuilder::new();
    let a1 = q.match_attr(A, 1u64).unwrap();
    let a2 = q.match_attr(A, 1u64).unwrap();
    let e1 = q.match_outgoing(FOLLOWS, a1).unwrap();
    let e2 = q.match_outgoing(FOLLOWS, a2).unwrap();
    let u = q.group_or(vec![e1, e2, e1]).unwrap();
    q.set_root(u);
    let p = q.compile().unwrap();
    assert_eq!(
        show(&p.nodes),
        show(&[
            attribute(A, TAG | 1),
            Node::Edge { dir: EdgeDirection::Outgoing, label: FOLLOWS, target: 0 },
            Node::Union(vec![1]),
        ])
    );
    assert_eq!(p.root, 2);
}

#[test]
fn compile_sorts_the_children_of_unions_and_intersections() {
    let mut q = QueryBuilder::new();
    let a = q.match_attr(A, 1u64).unwrap();
    let b = q.match_attr(A, 2u64).unwrap();
    let c = q.match_attr(A, 3u64).unwrap();
    let first = q.group_and(vec![a, b, c]).unwrap();
    let second = q.group_and(vec![c, a, b, a]).unwrap();
    let u = q.group_or(vec![first, second]).unwrap();
    q.set_root(u);
    let p = q.compile().unwrap();
    // both intersections have the same canonical form and are one node
    assert_eq!(
        show(&p.nodes),
        show(&[
            attribute(A, TAG | 1),
            attribute(A, TAG | 2),
            attribute(A, TAG | 3),
            Node::Intersect(vec![0, 1, 2]),
            Node::Union(vec![3]),
        ])
    );
    assert_eq!(p.root, 4);
}

#[test]
fn compile_leaves_out_what_the_root_is_not_made_of() {
    let mut q = QueryBuilder::new();
    let a = q.match_attr(A, 1u64).unwrap();
    let b = q.match_attr(B, 1u64).unwrap();
    q.group_or(vec![a, b]).unwrap();
    let e = q.match_outgoing(FOLLOWS, b).unwrap();
    q.set_root(e);
    let p = q.compile().unwrap();
    assert_eq!(
        show(&p.nodes),
        show(&[
            attribute(B, TAG | 1),
            Node::Edge { dir: EdgeDirection::Outgoing, label: FOLLOWS, target: 0 },
        ])
    );
    assert_eq!(p.root, 1);
}

#[test]
fn compile_of_an_empty_group() {
    let mut q = QueryBuilder::new();
    let u = q.group_or(vec![]).unwrap();
    q.set_root(u);
    let p = q.compile().unwrap();
    assert_eq!(show(&p.nodes), show(&[Node::Union(vec![])]));
    assert_eq!(p.root, 0);
}

#[test]
fn compiled_children_stand_before_their_parents() {
    let mut q = QueryBuilder::new();
    let mut layer: Vec<NodeHandle> = (0..6u64).map(|i| q.match_attr(A, i).unwrap()).collect();
    for round in 0..4 {
        let mut next = Vec::new();
        for i in 0..layer.len() {
            let j = (i + 1 + round) % layer.len();
            let n = if (i + round) % 3 == 0 {
                q.group_and(vec![layer[i], layer[j]]).unwrap()
            } else if (i + round) % 3 == 1 {
                q.difference(layer[j], layer[i]).unwrap()
            } else {
                q.match_outgoing(FOLLOWS, layer[i]).unwrap()
            };
            next.push(n);
        }
        layer = next;
    }
    let root = q.group_or(layer).unwrap();
    q.set_root(root);
    let p = q.compile().unwrap();
    assert_eq!(p.root, p.nodes.len() - 1);
    for (i, node) in p.nodes.iter().enumerate() {
        let children: Vec<usize> = match node {
            Node::Union(c) | Node::Intersect(c) => {
                assert!(c.windows(2).all(|w| w[0] < w[1]));
                c.clone()
            }
            Node::Difference(a, b) => vec![*a, *b],
            Node::Edge { target, .. } => vec![*target],
            _ => vec![],
        };
        assert!(children.iter().all(|c| *c < i));
    }
    let shown = show(&p.nodes);
    for i in 0..shown.len() {
        for j in 0..i {
            assert_ne!(shown[i], shown[j]);
        }
    }
}

#[test]
fn build_order_lists_children_before_parents() {
    let mut q = QueryBuilder::new();
    let a = q.match_attr(A, 1u64).unwrap();
    let b = q.match_attr(B, 2u64).unwrap();
    let u = q.group_or(vec![a, b]).unwrap();
    let d = q.difference(u, a).unwrap();
    let order: Vec<usize> = q.get_build_order(d).iter().map(|h| h.0.index).collect();
    assert_eq!(order, vec![0, 1, 2, 3]);
    let order: Vec<usize> = q.get_build_order(u).iter().map(|h| h.0.index).collect();
    assert_eq!(order, vec![0, 1, 2]);
    let other = q.group_or(vec![b, a]).unwrap();
    let order: Vec<usize> = q.get_build_order(other).iter().map(|h| h.0.index).collect();
    assert_eq!(order, vec![1, 0, 4]);
    let stray = NodeHandle(Handle { generation: 0, index: 9 });
    let order: Vec<usize> = q.get_build_order(stray).iter().map(|h| h.0.index).collect();
    assert_eq!(order, vec![9]);
}

#[test]
fn compiling_a_rebuilt_query_gives_the_same_query() {
    let mut q = QueryBuilder::new();
    let a = q.match_attr(A, 1u64).unwrap();
    let b = q.match_attr(B, 2u64).unwrap();
    let u = q.group_or(vec![b, a]).unwrap();
    let e = q.match_incoming(FOLLOWS, u).unwrap();
    let d = q.difference(e, b).unwrap();
    q.set_root(d);
    let first = q.compile().unwrap();
    assert_eq!(
        show(&first.nodes),
        show(&[
            attribute(B, TAG | 2),
            attribute(A, TAG | 1),
            Node::Union(vec![0, 1]),
            Node::Edge { dir: EdgeDirection::Incoming, label: FOLLOWS, target: 2 },
            Node::Difference(3, 0),
        ])
    );

    // the same query, built node by node as it was compiled
    let mut again = QueryBuilder::new();
    let n0 = again.match_attr(B, 2u64).unwrap();
    let n1 = again.match_attr(A, 1u64).unwrap();
    let n2 = again.group_or(vec![n0, n1]).unwrap();
    let n3 = again.match_incoming(FOLLOWS, n2).unwrap();
    let n4 = again.difference(n3, n0).unwrap();
    again.set_root(n4);
    let second = again.compile().unwrap();
    assert_eq!(show(&second.nodes), show(&first.nodes));
    assert_eq!(second.root, first.root);
}

#[test]
fn compiling_a_rebuilt_query_renumbers_nodes_that_are_not_walked_in_their_order() {
    let mut q = QueryBuilder::new();
    let x = q.match_attr(A, 1u64).unwrap();
    let y = q.match_attr(B, 2u64).unwrap();
    let inner = q.group_or(vec![x, y]).unwrap();
    let outer = q.group_or(vec![inner, y]).unwrap();
    q.set_root(outer);
    let first = q.compile().unwrap();
    assert_eq!(
        show(&first.nodes),
        show(&[
            attribute(A, TAG | 1),
            attribute(B, TAG | 2),
            Node::Union(vec![0, 1]),
            Node::Union(vec![1, 2]),
        ])
    );

    // built node by node as it was compiled, the outer union names the
    // second node before the third, and the walk comes to the second first
    let mut again = QueryBuilder::new();
    let n0 = again.match_attr(A, 1u64).unwrap();
    let n1 = again.match_attr(B, 2u64).unwrap();
    let n2 = again.group_or(vec![n0, n1]).unwrap();
    let n3 = again.group_or(vec![n1, n2]).unwrap();
    again.set_root(n3);
    let second = again.compile().unwrap();
    assert_eq!(
        show(&second.nodes),
        show(&[
            attribute(B, TAG | 2),
            attribute(A, TAG | 1),
            Node::Union(vec![0, 1]),
            Node::Union(vec![0, 2]),
        ])
    );
    assert_eq!(second.root, first.root);
}

#[test]
fn prepared_query_is_well_formed_where_children_stand_before_parents() {
    let fine = PreparedQuery {
        nodes: vec![
            attribute(A, 1),
            Node::SavedQuery(3),
            Node::Union(vec![0, 1]),
            Node::Difference(2, 0),
            Node::Edge { dir: EdgeDirection::Outgoing, label: FOLLOWS, target: 3 },
            Node::Intersect(vec![]),
        ],
        root: 4,
    };
    assert!(fine.is_well_formed());
    let root_out_of_range = PreparedQuery { nodes: vec![attribute(A, 1)], root: 1 };
    assert!(!root_out_of_range.is_well_formed());
    let empty = PreparedQuery { nodes: vec![], root: 0 };
    assert!(!empty.is_well_formed());
    let own_child = PreparedQuery { nodes: vec![Node::Union(vec![0])], root: 0 };
    assert!(!own_child.is_well_formed());
    let later_child = PreparedQuery {
        nodes: vec![Node::Edge { dir: EdgeDirection::Incoming, label: FOLLOWS, target: 1 }, attribute(A, 1)],
        root: 1,
    };
    assert!(!later_child.is_well_formed());
    let later_operand = PreparedQuery {
        nodes: vec![attribute(A, 1), Node::Difference(0, 2), attribute(B, 1)],
        root: 2,
    };
    assert!(!later_operand.is_well_formed());
    let later_member = PreparedQuery {
        nodes: vec![attribute(A, 1), Node::Intersect(vec![0, 5])],
        root: 1,
    };
    assert!(!later_member.is_well_formed());
}

#[test]
fn settled_query_leaves_out_members_that_do_not_stand_before() {
    let loose = PreparedQuery {
        nodes: vec![
            attribute(A, 1),
            Node::Union(vec![0, 1, 5]),
            Node::Intersect(vec![2, 0, 1, 9]),
            attribute(B, 2),
        ],
        root: 9,
    };
    assert!(!loose.is_well_formed());
    let settled = loose.settled();
    assert_eq!(
        show(&settled.nodes),
        show(&[
            attribute(A, 1),
            Node::Union(vec![0]),
            Node::Intersect(vec![0, 1]),
            attribute(B, 2),
            Node::Union(vec![]),
        ])
    );
    assert_eq!(settled.root, 4);
    assert!(settled.is_well_formed());

    // a difference or an edge keeps what it names
    let broken = PreparedQuery {
        nodes: vec![Node::Difference(0, 1), attribute(A, 1)],
        root: 1,
    };
    let settled = broken.settled();
    assert_eq!(show(&settled.nodes), show(&broken.nodes));
    assert_eq!(settled.root, 1);
    assert!(!settled.is_well_formed());

    let empty = PreparedQuery { nodes: vec![], root: 0 };
    let settled = empty.settled();
    assert_eq!(show(&settled.nodes), show(&[Node::Union(vec![])]));
    assert_eq!(settled.root, 0);
}

#[test]
fn settled_query_that_is_well_formed_is_unchanged() {
    let mut q = QueryBuilder::new();
    let a = q.match_attr(A, 1u64).unwrap();
    let b = q.match_attr(B, 2u64).unwrap();
    let u = q.group_and(vec![a, b]).unwrap();
    let e = q.match_outgoing(FOLLOWS, u).unwrap();
    let d = q.difference(e, a).unwrap();
    q.set_root(d);
    let p = q.compile().unwrap();
    let settled = p.settled();
    assert_eq!(show(&settled.nodes), show(&p.nodes));
    assert_eq!(settled.root, p.root);
}
