use crate::errors::LatticeError;
use crate::props::properties::PropertyHandle;
use crate::utils::generational_vector::{Arena, GenVec, Handle};
use crate::utils::values::{Primitive, Scalar, Value};
use vstd::prelude::*;

verus! {

/// The direction in which an edge is followed.
#[derive(Clone, Copy, Hash, PartialEq, Eq, Debug, Structural)]
pub enum EdgeDirection {
    Outgoing,
    Incoming,
}

/// The handle of a query node.
#[derive(Clone, Copy, Debug)]
pub struct NodeHandle(pub Handle);

/// A node of a query: set algebra over other nodes, a match of an
/// attribute, one hop along an edge, or a saved query.
pub enum QueryNode {
    // set logic
    Union(Vec<NodeHandle>),
    Intersect(Vec<NodeHandle>),
    Difference(NodeHandle, NodeHandle),
    // search for values
    Attribute { attr: PropertyHandle, value: Primitive },
    // search for linked nodes
    Edge { dir: EdgeDirection, label: PropertyHandle, target: NodeHandle },
    // saved query
    SavedQuery(u64),
}

/// A query node by its content.
pub enum Term {
    Union(Seq<NodeHandle>),
    Intersect(Seq<NodeHandle>),
    Difference(NodeHandle, NodeHandle),
    Attribute { attr: PropertyHandle, value: Scalar },
    Edge { dir: EdgeDirection, label: PropertyHandle, target: NodeHandle },
    SavedQuery(u64),
}

impl View for QueryNode {
    type V = Term;

    open spec fn view(&self) -> Term {
        match self {
            QueryNode::Union(c) => Term::Union(c@),
            QueryNode::Intersect(c) => Term::Intersect(c@),
            QueryNode::Difference(a, b) => Term::Difference(*a, *b),
            QueryNode::Attribute { attr, value } => Term::Attribute { attr: *attr, value: value@ },
            QueryNode::Edge { dir, label, target } => Term::Edge {
                dir: *dir,
                label: *label,
                target: *target,
            },
            QueryNode::SavedQuery(id) => Term::SavedQuery(*id),
        }
    }
}

impl Term {
    /// The nodes that the node is made of, in the order in which it names them.
    pub open spec fn children(self) -> Seq<NodeHandle> {
        match self {
            Term::Union(c) => c,
            Term::Intersect(c) => c,
            Term::Difference(a, b) => seq![a, b],
            Term::Edge { target, .. } => seq![target],
            Term::Attribute { .. } => Seq::empty(),
            Term::SavedQuery(_) => Seq::empty(),
        }
    }
}

impl QueryNode {
    /// The node that matches the vertices whose attribute `attr` holds `value`.
    pub fn attribute<V: Value>(attr: PropertyHandle, value: V) -> (node: Self)
        ensures
            node@ == (Term::Attribute { attr, value: value.scalar() }),
    {
        Self::Attribute { attr, value: value.to_primitive() }
    }
}

/// The content of a query builder.
pub struct Query {
    pub nodes: Arena<Term>,
    pub root: Option<NodeHandle>,
}

impl Query {
    /// The builder without nodes and without a root.
    pub open spec fn empty() -> Query {
        Query { nodes: Arena::empty(), root: None }
    }

    /// The builder's invariant: no node was ever removed, and each node was
    /// made of nodes that were there before it.
    pub open spec fn wf(self) -> bool {
        &&& self.nodes.slots.len() <= usize::MAX
        &&& self.nodes.free.len() == 0
        &&& forall|i: int|
            0 <= i < self.nodes.slots.len() ==> {
                let slot = #[trigger] self.nodes.slots[i];
                &&& slot.generation == 0
                &&& slot.item is Some
                &&& forall|k: int|
                    0 <= k < slot.item->0.children().len() ==> {
                        let c = #[trigger] slot.item->0.children()[k];
                        c.0.generation == 0 && c.0.index < i
                    }
            }
    }

    /// The node handle resolves.
    pub open spec fn has_node(self, h: NodeHandle) -> bool {
        self.nodes.live(h.0)
    }

    /// The node that a handle resolves to.
    pub open spec fn node(self, h: NodeHandle) -> Term {
        self.nodes.value(h.0)
    }

    /// The handle that the next node gets.
    pub open spec fn next_node(self) -> NodeHandle {
        NodeHandle(self.nodes.next_handle())
    }

    /// The builder after the node `t` was added.
    pub open spec fn with_node(self, t: Term) -> Query {
        Query { nodes: self.nodes.insert(t), ..self }
    }

    /// Every handle of `list` resolves.
    pub open spec fn has_all(self, list: Seq<NodeHandle>) -> bool {
        forall|k: int| 0 <= k < list.len() ==> self.has_node(#[trigger] list[k])
    }

    /// Adding a node that is made of nodes of the builder keeps the invariant.
    pub proof fn lemma_with_node(self, t: Term)
        requires
            self.wf(),
            self.has_all(t.children()),
            self.nodes.slots.len() < usize::MAX,
        ensures
            self.with_node(t).wf(),
            self.with_node(t).has_node(self.next_node()),
            self.with_node(t).node(self.next_node()) == t,
            self.next_node().0 == (Handle { generation: 0, index: self.nodes.slots.len() as usize }),
            forall|h: NodeHandle| self.has_node(h) ==> self.with_node(t).has_node(h),
    {
        let post = self.with_node(t);
        assert forall|i: int| 0 <= i < post.nodes.slots.len() implies {
            let slot = #[trigger] post.nodes.slots[i];
            &&& slot.generation == 0
            &&& slot.item is Some
            &&& forall|k: int|
                0 <= k < slot.item->0.children().len() ==> {
                    let c = #[trigger] slot.item->0.children()[k];
                    c.0.generation == 0 && c.0.index < i
                }
        } by {
            if i < self.nodes.slots.len() {
                assert(post.nodes.slots[i] == self.nodes.slots[i]);
            } else {
                assert forall|k: int| 0 <= k < t.children().len() implies {
                    let c = #[trigger] t.children()[k];
                    c.0.generation == 0 && c.0.index < i
                } by {
                    let c = t.children()[k];
                    assert(self.has_node(c));
                    assert(self.nodes.slots[c.0.index as int].generation == 0);
                }
            }
        }
    }
}

/// A query under construction: nodes that are made of nodes built before
/// them, and the root whose result is the result of the query.
pub struct QueryBuilder {
    nodes: GenVec<QueryNode>,
    root: Option<NodeHandle>,
}

impl View for QueryBuilder {
    type V = Query;

    closed spec fn view(&self) -> Query {
        Query { nodes: self.nodes@.viewed(), root: self.root }
    }
}

impl QueryBuilder {
    /// A builder without nodes and without a root.
    pub fn new() -> (q: Self)
        ensures
            q@ == Query::empty(),
            q@.wf(),
    {
        let q = Self { nodes: GenVec::new(), root: None };
        assert(q@.nodes.slots =~= Seq::empty());
        q
    }

    /// Adds a node that is made of nodes of the builder.
    fn add_node(&mut self, node: QueryNode) -> (h: NodeHandle)
        requires
            old(self)@.wf(),
            old(self)@.has_all(node@.children()),
        ensures
            final(self)@ == old(self)@.with_node(node@),
            h == old(self)@.next_node(),
            final(self)@.wf(),
    {
        let ghost pre = self.nodes@;
        proof {
            pre.lemma_viewed(pre.next_handle(), node);
        }
        let handle = self.nodes.add(node);
        proof {
            self.nodes.lemma_slots_bounded();
            assert(self.nodes@.viewed().slots.len() == self.nodes@.slots.len()) by {
                self.nodes@.lemma_viewed(handle, arbitrary());
            }
            old(self)@.lemma_with_node(node@);
            assert(self@.nodes.agrees(old(self)@.with_node(node@).nodes));
        }
        NodeHandle(handle)
    }

    /// Whether the handle resolves.
    fn has(&self, h: NodeHandle) -> (r: bool)
        ensures
            r == self@.has_node(h),
    {
        proof {
            self.nodes@.lemma_viewed(h.0, arbitrary());
        }
        self.nodes.get(h.0).is_some()
    }

    /// The node that the handle resolves to, if it resolves.
    pub fn node_of(&self, h: NodeHandle) -> (r: Option<&QueryNode>)
        ensures
            match r {
                Some(node) => self@.has_node(h) && node@ == self@.node(h),
                None => !self@.has_node(h),
            },
    {
        proof {
            self.nodes@.lemma_viewed(h.0, arbitrary());
        }
        self.nodes.get(h.0)
    }

    /// The handle resolves in the builder as it does in the builder's content.
    pub proof fn lemma_has(&self, h: NodeHandle)
        ensures
            self@.children_of(h) == if self@.has_node(h) {
                self@.node(h).children()
            } else {
                Seq::empty()
            },
    {
    }

    /// Whether every handle of the list resolves.
    fn has_each(&self, list: &Vec<NodeHandle>) -> (r: bool)
        ensures
            r == self@.has_all(list@),
    {
        let mut i: usize = 0;
        while i < list.len()
            invariant
                i <= list.len(),
                forall|k: int| 0 <= k < i ==> self@.has_node(#[trigger] list@[k]),
            decreases list.len() - i,
        {
            if !self.has(list[i]) {
                return false;
            }
            i += 1;
        }
        true
    }

    /// Find vertices by attribute value.
    /// * A value that cannot be stored is refused, and nothing changes.
    pub fn match_attr<V: Value>(&mut self, attr: PropertyHandle, value: V) -> (r: Result<
        NodeHandle,
        LatticeError,
    >)
        requires
            old(self)@.wf(),
        ensures
            final(self)@.wf(),
            match r {
                Ok(h) => {
                    &&& value.scalar().storable()
                    &&& h == old(self)@.next_node()
                    &&& final(self)@ == old(self)@.with_node(
                        Term::Attribute { attr, value: value.scalar() },
                    )
                },
                Err(e) => {
                    &&& !value.scalar().storable()
                    &&& e is NumberTooBig
                    &&& final(self)@ == old(self)@
                },
            },
    {
        let value = value.to_primitive();
        match value.verify() {
            Ok(()) => {},
            Err(e) => {
                return Err(e);
            },
        }
        let handle = self.add_node(QueryNode::Attribute { attr, value });
        Ok(handle)
    }

    /// All vertices that are pointed to by `subject` via label.
    pub fn match_outgoing(&mut self, label: PropertyHandle, subject: NodeHandle) -> (r: Result<
        NodeHandle,
        LatticeError,
    >)
        requires
            old(self)@.wf(),
        ensures
            final(self)@.wf(),
            match r {
                Ok(h) => {
                    &&& old(self)@.has_node(subject)
                    &&& h == old(self)@.next_node()
                    &&& final(self)@ == old(self)@.with_node(
                        Term::Edge { dir: EdgeDirection::Outgoing, label, target: subject },
                    )
                },
                Err(e) => {
                    &&& !old(self)@.has_node(subject)
                    &&& e is QueryNodeNotFound
                    &&& final(self)@ == old(self)@
                },
            },
    {
        if !self.has(subject) {
            return Err(LatticeError::QueryNodeNotFound);
        }
        let node = QueryNode::Edge { dir: EdgeDirection::Outgoing, label, target: subject };
        assert(node@.children() =~= seq![subject]);
        let handle = self.add_node(node);
        Ok(handle)
    }

    /// All vertices that point to `target` via label.
    pub fn match_incoming(&mut self, label: PropertyHandle, target: NodeHandle) -> (r: Result<
        NodeHandle,
        LatticeError,
    >)
        requires
            old(self)@.wf(),
        ensures
            final(self)@.wf(),
            match r {
                Ok(h) => {
                    &&& old(self)@.has_node(target)
                    &&& h == old(self)@.next_node()
                    &&& final(self)@ == old(self)@.with_node(
                        Term::Edge { dir: EdgeDirection::Incoming, label, target },
                    )
                },
                Err(e) => {
                    &&& !old(self)@.has_node(target)
                    &&& e is QueryNodeNotFound
                    &&& final(self)@ == old(self)@
                },
            },
    {
        if !self.has(target) {
            return Err(LatticeError::QueryNodeNotFound);
        }
        let node = QueryNode::Edge { dir: EdgeDirection::Incoming, label, target };
        assert(node@.children() =~= seq![target]);
        let handle = self.add_node(node);
        Ok(handle)
    }

    /// Find a vertex that satisfies multiple features within children.
    pub fn group_and(&mut self, children: Vec<NodeHandle>) -> (r: Result<NodeHandle, LatticeError>)
        requires
            old(self)@.wf(),
        ensures
            final(self)@.wf(),
            match r {
                Ok(h) => {
                    &&& old(self)@.has_all(children@)
                    &&& h == old(self)@.next_node()
                    &&& final(self)@ == old(self)@.with_node(Term::Intersect(children@))
                },
                Err(e) => {
                    &&& !old(self)@.has_all(children@)
                    &&& e is QueryNodeNotFound
                    &&& final(self)@ == old(self)@
                },
            },
    {
        if !self.has_each(&children) {
            return Err(LatticeError::QueryNodeNotFound);
        }
        let handle = self.add_node(QueryNode::Intersect(children));
        Ok(handle)
    }

    /// Find a vertex that satisfies one of multiple features within children.
    pub fn group_or(&mut self, children: Vec<NodeHandle>) -> (r: Result<NodeHandle, LatticeError>)
        requires
            old(self)@.wf(),
        ensures
            final(self)@.wf(),
            match r {
                Ok(h) => {
                    &&& old(self)@.has_all(children@)
                    &&& h == old(self)@.next_node()
                    &&& final(self)@ == old(self)@.with_node(Term::Union(children@))
                },
                Err(e) => {
                    &&& !old(self)@.has_all(children@)
                    &&& e is QueryNodeNotFound
                    &&& final(self)@ == old(self)@
                },
            },
    {
        if !self.has_each(&children) {
            return Err(LatticeError::QueryNodeNotFound);
        }
        let handle = self.add_node(QueryNode::Union(children));
        Ok(handle)
    }

    /// Find a vertex that satisfies wanted, but does not satisfy unwanted.
    pub fn difference(&mut self, wanted: NodeHandle, unwanted: NodeHandle) -> (r: Result<
        NodeHandle,
        LatticeError,
    >)
        requires
            old(self)@.wf(),
        ensures
            final(self)@.wf(),
            match r {
                Ok(h) => {
                    &&& old(self)@.has_node(wanted) && old(self)@.has_node(unwanted)
                    &&& h == old(self)@.next_node()
                    &&& final(self)@ == old(self)@.with_node(Term::Difference(wanted, unwanted))
                },
                Err(e) => {
                    &&& !(old(self)@.has_node(wanted) && old(self)@.has_node(unwanted))
                    &&& e is QueryNodeNotFound
                    &&& final(self)@ == old(self)@
                },
            },
    {
        if !self.has(wanted) {
            return Err(LatticeError::QueryNodeNotFound);
        }
        if !self.has(unwanted) {
            return Err(LatticeError::QueryNodeNotFound);
        }
        let node = QueryNode::Difference(wanted, unwanted);
        assert(node@.children() =~= seq![wanted, unwanted]);
        let handle = self.add_node(node);
        Ok(handle)
    }

    /// Chooses the node whose result is the result of the query.
    pub fn set_root(&mut self, handle: NodeHandle)
        ensures
            final(self)@ == (Query { root: Some(handle), ..old(self)@ }),
    {
        self.root = Some(handle);
    }

    /// The root, if one was chosen.
    pub fn get_root(&self) -> (r: Option<NodeHandle>)
        ensures
            r == self@.root,
    {
        self.root
    }
}

impl Default for QueryBuilder {
    fn default() -> (q: Self)
        ensures
            q@ == Query::empty(),
            q@.wf(),
    {
        Self::new()
    }
}

} // verus!
