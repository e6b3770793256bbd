use crate::errors::LatticeError;
use crate::props::properties::PropertyHandle;
use crate::query::query_builder::{EdgeDirection, NodeHandle, Query, QueryBuilder, QueryNode, Term};
use std::collections::HashMap;
use vstd::prelude::*;

verus! {

broadcast use vstd::std_specs::hash::group_hash_axioms;

/// The position of a node in a prepared query.
pub type NodeIdx = usize;

/// One node of a prepared query. It names the nodes it is made of by their
/// positions, and the value it matches by its hash.
#[derive(Debug)]
pub enum Node {
    // set logic
    Union(Vec<NodeIdx>),
    Intersect(Vec<NodeIdx>),
    Difference(NodeIdx, NodeIdx),
    // search for values
    Attribute { attr: PropertyHandle, value: u64 },  // hashed value
    // search for linked nodes
    Edge { dir: EdgeDirection, label: PropertyHandle, target: NodeIdx },
    // saved query
    SavedQuery(u64),
}

/// A node of a prepared query by its content.
pub enum Step {
    Union(Seq<NodeIdx>),
    Intersect(Seq<NodeIdx>),
    Difference(NodeIdx, NodeIdx),
    Attribute { attr: PropertyHandle, value: u64 },
    Edge { dir: EdgeDirection, label: PropertyHandle, target: NodeIdx },
    SavedQuery(u64),
}

impl View for Node {
    type V = Step;

    open spec fn view(&self) -> Step {
        match self {
            Node::Union(c) => Step::Union(c@),
            Node::Intersect(c) => Step::Intersect(c@),
            Node::Difference(a, b) => Step::Difference(*a, *b),
            Node::Attribute { attr, value } => Step::Attribute { attr: *attr, value: *value },
            Node::Edge { dir, label, target } => Step::Edge {
                dir: *dir,
                label: *label,
                target: *target,
            },
            Node::SavedQuery(id) => Step::SavedQuery(*id),
        }
    }
}

impl Step {
    /// The positions of the nodes that the node is made of.
    pub open spec fn children(self) -> Seq<NodeIdx> {
        match self {
            Step::Union(c) => c,
            Step::Intersect(c) => c,
            Step::Difference(a, b) => seq![a, b],
            Step::Edge { target, .. } => seq![target],
            Step::Attribute { .. } => Seq::empty(),
            Step::SavedQuery(_) => Seq::empty(),
        }
    }
}

/// A compiled query: its nodes in the order in which they are evaluated, and
/// the position of the node whose result is the result of the query.
#[derive(Debug)]
pub struct PreparedQuery {
    pub nodes: Vec<Node>,
    pub root: NodeIdx,
}

/// The content of a prepared query.
pub struct Plan {
    pub nodes: Seq<Step>,
    pub root: NodeIdx,
}

/// The nodes of a prepared query by content.
pub open spec fn steps_of(nodes: Seq<Node>) -> Seq<Step> {
    nodes.map_values(|n: Node| n@)
}

impl View for PreparedQuery {
    type V = Plan;

    open spec fn view(&self) -> Plan {
        Plan { nodes: steps_of(self.nodes@), root: self.root }
    }
}

impl Plan {
    /// Every node is made of nodes that stand before it, and the root is a node.
    pub open spec fn wf(self) -> bool {
        &&& self.root < self.nodes.len()
        &&& self.ordered(self.nodes.len() as int)
    }

    /// Each of the first `n` nodes is made of nodes that stand before it.
    pub open spec fn ordered(self, n: int) -> bool {
        forall|i: int, k: int|
            0 <= i < n && i < self.nodes.len() && 0 <= k < self.nodes[i].children().len()
                ==> (#[trigger] self.nodes[i].children()[k]) < i
    }
}

/// An entry of the stack of the walk: a node, and whether the nodes it is
/// made of were already put on the stack.
pub type Frame = (NodeHandle, bool);

/// The entries under which the nodes of `list` are put on the stack.
pub open spec fn frames(list: Seq<NodeHandle>) -> Seq<Frame> {
    list.map_values(|c: NodeHandle| (c, false))
}

/// Whether the slot `index` is among the nodes of `order`.
pub open spec fn visited(order: Seq<NodeHandle>, index: usize) -> bool {
    exists|k: int| 0 <= k < order.len() && (#[trigger] order[k]).0.index == index
}

impl Query {
    /// The nodes that the node `h` is made of; none where `h` does not resolve.
    pub open spec fn children_of(self, h: NodeHandle) -> Seq<NodeHandle> {
        if self.has_node(h) {
            self.node(h).children()
        } else {
            Seq::empty()
        }
    }

    /// A bound on the number of steps that the walk spends on the slot `i`
    /// and on all that it is made of.
    pub open spec fn weight(self, i: int) -> nat
        decreases i + 1, 0nat,
    {
        if 0 <= i < self.nodes.slots.len() && self.nodes.slots[i].item is Some {
            2 + self.weights(self.nodes.slots[i].item->0.children(), i)
        } else {
            2
        }
    }

    /// The weights of the nodes of `list` that stand before the slot `bound`, added up.
    pub open spec fn weights(self, list: Seq<NodeHandle>, bound: int) -> nat
        decreases bound, list.len() + 1,
    {
        if list.len() == 0 || bound <= 0 {
            0
        } else {
            let c = list.last();
            let w = if c.0.index < bound {
                self.weight(c.0.index as int)
            } else {
                0
            };
            w + self.weights(list.drop_last(), bound)
        }
    }

    /// A bound on the number of steps that the walk spends on a stack entry.
    pub open spec fn frame_weight(self, f: Frame) -> nat {
        if f.1 {
            1
        } else {
            self.weight(f.0.0.index as int)
        }
    }

    /// A bound on the number of steps that the walk spends on a stack.
    pub open spec fn stack_weight(self, stack: Seq<Frame>) -> nat
        decreases stack.len(),
    {
        if stack.len() == 0 {
            0
        } else {
            self.frame_weight(stack.last()) + self.stack_weight(stack.drop_last())
        }
    }

    /// The stack after the top entry, which stands for a node that was not
    /// visited and whose parts were not put on the stack yet, made room for
    /// the node's second visit and for its parts. The parts are put on the
    /// stack last to first, so that the first part is on top and is walked
    /// first.
    pub open spec fn expand(self, stack: Seq<Frame>) -> Seq<Frame> {
        stack.drop_last().push((stack.last().0, true)) + frames(
            self.children_of(stack.last().0).reverse(),
        )
    }

    /// The walk from a stack and the nodes visited so far: a depth-first
    /// walk that visits each slot once, a node after the nodes it is made
    /// of, and the nodes that a node is made of first to last.
    pub open spec fn walk(self, stack: Seq<Frame>, order: Seq<NodeHandle>) -> Seq<NodeHandle>
        decreases self.stack_weight(stack),
        when self.wf()
        via Self::walk_decreases
    {
        if stack.len() == 0 {
            order
        } else {
            let (h, done) = stack.last();
            if visited(order, h.0.index) {
                self.walk(stack.drop_last(), order)
            } else if done {
                self.walk(stack.drop_last(), order.push(h))
            } else {
                self.walk(self.expand(stack), order)
            }
        }
    }

    #[via_fn]
    proof fn walk_decreases(self, stack: Seq<Frame>, order: Seq<NodeHandle>) {
        if stack.len() > 0 {
            let (h, done) = stack.last();
            if !visited(order, h.0.index) && !done {
                self.lemma_expand(stack);
            }
        }
    }

    /// The order in which the nodes that `root` is made of are compiled:
    /// children before parents, each node once, as the walk with a stack
    /// finds it. It is the post-order of the root.
    pub open spec fn build_order(self, root: NodeHandle) -> Seq<NodeHandle> {
        self.walk(seq![(root, false)], Seq::empty())
    }

    /// The weight of a stack is that of its parts.
    pub proof fn lemma_stack_weight_add(self, a: Seq<Frame>, b: Seq<Frame>)
        ensures
            self.stack_weight(a + b) == self.stack_weight(a) + self.stack_weight(b),
        decreases b.len(),
    {
        if b.len() == 0 {
            assert(a + b =~= a);
        } else {
            assert((a + b).drop_last() =~= a + b.drop_last());
            assert((a + b).last() == b.last());
            self.lemma_stack_weight_add(a, b.drop_last());
        }
    }

    /// Where every node of `list` stands before `bound`, the stack entries
    /// of `list` weigh what `list` weighs.
    pub proof fn lemma_frames_weight(self, list: Seq<NodeHandle>, bound: int)
        requires
            forall|k: int| 0 <= k < list.len() ==> (#[trigger] list[k]).0.index < bound,
        ensures
            self.stack_weight(frames(list)) == self.weights(list, bound),
        decreases list.len(),
    {
        if list.len() > 0 {
            assert(frames(list).drop_last() =~= frames(list.drop_last()));
            assert(list[list.len() - 1].0.index < bound);
            self.lemma_frames_weight(list.drop_last(), bound);
        }
    }

    /// The stack entries of a list in reverse weigh what the list weighs,
    /// where every node of the list stands before `bound`.
    pub proof fn lemma_reversed_frames_weight(self, list: Seq<NodeHandle>, bound: int)
        requires
            forall|k: int| 0 <= k < list.len() ==> (#[trigger] list[k]).0.index < bound,
        ensures
            self.stack_weight(frames(list.reverse())) == self.weights(list, bound),
        decreases list.len(),
    {
        if list.len() > 0 {
            let front = list.drop_last();
            let last = list.last();
            assert(list[list.len() - 1].0.index < bound);
            assert forall|k: int| 0 <= k < front.len() implies (#[trigger] front[k]).0.index
                < bound by {
                assert(front[k] == list[k]);
            }
            self.lemma_reversed_frames_weight(front, bound);
            let head = seq![(last, false)];
            assert(frames(list.reverse()) =~= head + frames(front.reverse()));
            self.lemma_stack_weight_add(head, frames(front.reverse()));
            assert(head.drop_last() =~= Seq::<Frame>::empty());
            assert(head.last() == (last, false));
            assert(self.stack_weight(head.drop_last()) == 0);
            assert(self.stack_weight(head) == self.frame_weight(head.last()) + self.stack_weight(
                head.drop_last(),
            ));
        } else {
            assert(frames(list.reverse()) =~= Seq::<Frame>::empty());
        }
    }

    /// Expanding the top entry of a stack makes the stack lighter.
    pub proof fn lemma_expand(self, stack: Seq<Frame>)
        requires
            self.wf(),
            stack.len() > 0,
            !stack.last().1,
        ensures
            self.stack_weight(self.expand(stack)) < self.stack_weight(stack),
    {
        let h = stack.last().0;
        let rest = stack.drop_last();
        let kids = self.children_of(h);
        self.lemma_stack_weight_add(rest.push((h, true)), frames(kids.reverse()));
        assert(rest.push((h, true)).drop_last() =~= rest);
        if self.has_node(h) {
            let i = h.0.index as int;
            assert(self.nodes.slots[i].item->0.children() == kids);
            assert forall|k: int| 0 <= k < kids.len() implies (#[trigger] kids[k]).0.index < i by {
                let c = self.nodes.slots[i].item->0.children()[k];
            }
            self.lemma_reversed_frames_weight(kids, i);
        } else {
            assert(frames(kids.reverse()) =~= Seq::empty());
        }
    }

    /// Every node on the stack resolves.
    pub open spec fn live_frames(self, stack: Seq<Frame>) -> bool {
        forall|p: int| 0 <= p < stack.len() ==> self.has_node((#[trigger] stack[p]).0)
    }

    /// Every node of the order resolves.
    pub open spec fn live_order(self, order: Seq<NodeHandle>) -> bool {
        forall|k: int| 0 <= k < order.len() ==> self.has_node(#[trigger] order[k])
    }

    /// Each node of the order stands behind all the nodes it is made of.
    pub open spec fn closed(self, order: Seq<NodeHandle>) -> bool {
        forall|k: int, c: int|
            0 <= k < order.len() && 0 <= c < self.children_of(order[k]).len() ==> visited(
                order.take(k),
                (#[trigger] self.children_of(order[k])[c]).0.index,
            )
    }

    /// No slot stands twice in the order.
    pub open spec fn distinct(order: Seq<NodeHandle>) -> bool {
        forall|a: int, b: int|
            0 <= a < b < order.len() ==> (#[trigger] order[a]).0.index != (#[trigger] order[b]).0.index
    }

    /// An order of nodes that resolve, each slot once, is no longer than the builder.
    pub proof fn lemma_distinct_is_short(self, order: Seq<NodeHandle>)
        requires
            self.live_order(order),
            Self::distinct(order),
        ensures
            order.len() <= self.nodes.slots.len(),
    {
        let n = self.nodes.slots.len() as int;
        let slots = order.map_values(|h: NodeHandle| h.0.index as int);
        assert forall|a: int, b: int| 0 <= a < slots.len() && 0 <= b < slots.len() && a != b
            implies slots[a] != slots[b] by {
            if a < b {
                assert(order[a].0.index != order[b].0.index);
            } else {
                assert(order[b].0.index != order[a].0.index);
            }
        }
        slots.unique_seq_to_set();
        vstd::set_lib::lemma_int_range(0, n);
        let range = vstd::set_lib::set_int_range(0, n);
        assert forall|x: int| slots.to_set().contains(x) implies range.contains(x) by {
            let k = choose|k: int| 0 <= k < slots.len() && slots[k] == x;
            assert(self.has_node(order[k]));
        }
        vstd::set_lib::lemma_len_subset(slots.to_set(), range);
    }

    /// Whether an entry for the slot `index` lies on the stack above position `p`.
    pub open spec fn above(stack: Seq<Frame>, p: int, index: usize) -> bool {
        exists|q: int| p < q < stack.len() && (#[trigger] stack[q]).0.0.index == index
    }

    /// Each part of a node that waits on the stack for its second visit was
    /// visited or lies on the stack above the node.
    pub open spec fn pending(self, stack: Seq<Frame>, order: Seq<NodeHandle>) -> bool {
        forall|p: int, c: int|
            0 <= p < stack.len() && stack[p].1 && 0 <= c < self.children_of(stack[p].0).len() ==> {
                let index = (#[trigger] self.children_of(stack[p].0)[c]).0.index;
                visited(order, index) || Self::above(stack, p, index)
            }
    }

    /// The walk visits only nodes that resolve, each behind the nodes it is
    /// made of; it keeps what was visited before, and visits every node that
    /// lies on the stack.
    pub proof fn lemma_walk(self, stack: Seq<Frame>, order: Seq<NodeHandle>)
        requires
            self.wf(),
            self.live_frames(stack),
            self.live_order(order),
            self.closed(order),
            Self::distinct(order),
            self.pending(stack, order),
        ensures
            self.live_order(self.walk(stack, order)),
            self.closed(self.walk(stack, order)),
            Self::distinct(self.walk(stack, order)),
            order.len() <= self.walk(stack, order).len(),
            self.walk(stack, order).take(order.len() as int) == order,
            forall|p: int|
                0 <= p < stack.len() ==> visited(
                    self.walk(stack, order),
                    (#[trigger] stack[p]).0.0.index,
                ),
        decreases self.stack_weight(stack),
    {
        if stack.len() > 0 {
            let (h, done) = stack.last();
            let top = stack.len() - 1;
            let rest = stack.drop_last();
            assert(stack[top] == (h, done));
            assert(self.has_node(h));
            if visited(order, h.0.index) {
                assert forall|p: int, c: int|
                    0 <= p < rest.len() && rest[p].1 && 0 <= c < self.children_of(
                        rest[p].0,
                    ).len() implies {
                    let index = (#[trigger] self.children_of(rest[p].0)[c]).0.index;
                    visited(order, index) || Self::above(rest, p, index)
                } by {
                    let index = self.children_of(stack[p].0)[c].0.index;
                    if !visited(order, index) {
                        let q = choose|q: int|
                            p < q < stack.len() && (#[trigger] stack[q]).0.0.index == index;
                        assert(q != top);
                        assert(rest[q] == stack[q]);
                    }
                }
                self.lemma_walk(rest, order);
                let r = self.walk(rest, order);
                assert forall|p: int| 0 <= p < stack.len() implies visited(
                    r,
                    (#[trigger] stack[p]).0.0.index,
                ) by {
                    if p < top {
                        assert(rest[p] == stack[p]);
                    } else {
                        let k = choose|k: int|
                            0 <= k < order.len() && (#[trigger] order[k]).0.index == h.0.index;
                        assert(r.take(order.len() as int)[k] == order[k]);
                        assert(r[k].0.index == h.0.index);
                    }
                }
            } else if done {
                let next = order.push(h);
                assert forall|k: int, c: int|
                    0 <= k < next.len() && 0 <= c < self.children_of(next[k]).len() implies visited(
                    next.take(k),
                    (#[trigger] self.children_of(next[k])[c]).0.index,
                ) by {
                    if k < order.len() {
                        assert(next.take(k) =~= order.take(k));
                        assert(next[k] == order[k]);
                    } else {
                        assert(next.take(k) =~= order);
                        let index = self.children_of(stack[top].0)[c].0.index;
                        assert(!Self::above(stack, top, index));
                    }
                }
                assert forall|p: int, c: int|
                    0 <= p < rest.len() && rest[p].1 && 0 <= c < self.children_of(
                        rest[p].0,
                    ).len() implies {
                    let index = (#[trigger] self.children_of(rest[p].0)[c]).0.index;
                    visited(next, index) || Self::above(rest, p, index)
                } by {
                    let index = self.children_of(stack[p].0)[c].0.index;
                    if visited(order, index) {
                        let k = choose|k: int|
                            0 <= k < order.len() && (#[trigger] order[k]).0.index == index;
                        assert(next[k] == order[k]);
                    } else {
                        let q = choose|q: int|
                            p < q < stack.len() && (#[trigger] stack[q]).0.0.index == index;
                        if q == top {
                            assert(next[order.len() as int] == h);
                        } else {
                            assert(rest[q] == stack[q]);
                        }
                    }
                }
                assert forall|k: int| 0 <= k < next.len() implies self.has_node(
                    #[trigger] next[k],
                ) by {
                    if k < order.len() {
                        assert(next[k] == order[k]);
                    }
                }
                assert forall|a: int, b: int| 0 <= a < b < next.len() implies (#[trigger] next[a]).0.index
                    != (#[trigger] next[b]).0.index by {
                    assert(next[a] == order[a]);
                    if b < order.len() {
                        assert(next[b] == order[b]);
                    }
                }
                self.lemma_walk(rest, next);
                let r = self.walk(rest, next);
                assert(r.take(order.len() as int) =~= r.take(next.len() as int).take(
                    order.len() as int,
                ));
                assert(next.take(order.len() as int) =~= order);
                assert forall|p: int| 0 <= p < stack.len() implies visited(
                    r,
                    (#[trigger] stack[p]).0.0.index,
                ) by {
                    if p < top {
                        assert(rest[p] == stack[p]);
                    } else {
                        assert(r.take(next.len() as int)[order.len() as int] == h);
                        assert(r[order.len() as int] == h);
                    }
                }
            } else {
                let kids = self.children_of(h);
                let grown = self.expand(stack);
                self.lemma_expand(stack);
                assert(grown.len() == stack.len() + kids.len());
                assert forall|p: int| 0 <= p < grown.len() implies self.has_node(
                    (#[trigger] grown[p]).0,
                ) by {
                    if p < top {
                        assert(grown[p] == stack[p]);
                    } else if p == top {
                        assert(grown[p] == (h, true));
                    } else {
                        let at = kids.len() - 1 - (p - top - 1);
                        let c = kids[at];
                        assert(kids.reverse()[p - top - 1] == c);
                        assert(grown[p] == (c, false));
                        let slot = self.nodes.slots[h.0.index as int];
                        assert(slot.item->0.children()[at] == c);
                        assert(c.0.generation == 0 && c.0.index < h.0.index);
                        assert(self.nodes.slots[c.0.index as int].item is Some);
                    }
                }
                assert forall|p: int, c: int|
                    0 <= p < grown.len() && grown[p].1 && 0 <= c < self.children_of(
                        grown[p].0,
                    ).len() implies {
                    let index = (#[trigger] self.children_of(grown[p].0)[c]).0.index;
                    visited(order, index) || Self::above(grown, p, index)
                } by {
                    if p < top {
                        assert(grown[p] == stack[p]);
                        let index = self.children_of(stack[p].0)[c].0.index;
                        if !visited(order, index) {
                            let q = choose|q: int|
                                p < q < stack.len() && (#[trigger] stack[q]).0.0.index == index;
                            if q == top {
                                assert(grown[top] == (h, true));
                            } else {
                                assert(grown[q] == stack[q]);
                            }
                        }
                    } else if p == top {
                        assert(grown[p] == (h, true));
                        let q = top + 1 + (kids.len() - 1 - c);
                        assert(kids.reverse()[kids.len() - 1 - c] == kids[c]);
                        assert(grown[q] == (kids[c], false));
                    } else {
                        assert(grown[p] == (kids.reverse()[p - top - 1], false));
                    }
                }
                self.lemma_walk(grown, order);
                let r = self.walk(grown, order);
                assert forall|p: int| 0 <= p < stack.len() implies visited(
                    r,
                    (#[trigger] stack[p]).0.0.index,
                ) by {
                    if p < top {
                        assert(grown[p] == stack[p]);
                    } else {
                        assert(grown[top] == (h, true));
                    }
                }
            }
        } else {
            assert(order.take(order.len() as int) =~= order);
        }
    }

    /// The build order of a root that resolves holds only nodes that
    /// resolve, each behind the nodes it is made of, and the root among them.
    pub proof fn lemma_build_order(self, root: NodeHandle)
        requires
            self.wf(),
            self.has_node(root),
        ensures
            self.live_order(self.build_order(root)),
            self.closed(self.build_order(root)),
            visited(self.build_order(root), root.0.index),
            Self::distinct(self.build_order(root)),
            self.build_order(root).len() <= self.nodes.slots.len(),
    {
        let stack = seq![(root, false)];
        assert(stack[0] == (root, false));
        self.lemma_walk(stack, Seq::empty());
        self.lemma_distinct_is_short(self.build_order(root));
    }
}

/// `x` put into the strictly ascending list `sorted`, unless it is there already.
pub open spec fn insert_unique(sorted: Seq<NodeIdx>, x: NodeIdx) -> Seq<NodeIdx>
    decreases sorted.len(),
{
    if sorted.len() == 0 {
        seq![x]
    } else if sorted.last() == x {
        sorted
    } else if sorted.last() < x {
        sorted.push(x)
    } else {
        insert_unique(sorted.drop_last(), x).push(sorted.last())
    }
}

/// The positions of `ids` in strictly ascending order, each once.
pub open spec fn canonical(ids: Seq<NodeIdx>) -> Seq<NodeIdx>
    decreases ids.len(),
{
    if ids.len() == 0 {
        Seq::empty()
    } else {
        insert_unique(canonical(ids.drop_last()), ids.last())
    }
}

/// Whether a list of positions is strictly ascending.
pub open spec fn ascending(ids: Seq<NodeIdx>) -> bool {
    forall|i: int, j: int| 0 <= i < j < ids.len() ==> ids[i] < ids[j]
}

/// Putting a position into a strictly ascending list gives a strictly
/// ascending list that holds the position and what the list held.
pub proof fn lemma_insert_unique(sorted: Seq<NodeIdx>, x: NodeIdx)
    requires
        ascending(sorted),
    ensures
        ascending(insert_unique(sorted, x)),
        insert_unique(sorted, x).contains(x),
        forall|y: NodeIdx| #[trigger] sorted.contains(y) ==> insert_unique(sorted, x).contains(y),
        forall|y: NodeIdx|
            #[trigger] insert_unique(sorted, x).contains(y) ==> y == x || sorted.contains(y),
    decreases sorted.len(),
{
    let r = insert_unique(sorted, x);
    if sorted.len() == 0 {
        assert(r[0] == x);
    } else if sorted.last() == x {
        assert(sorted[sorted.len() - 1] == x);
    } else if sorted.last() < x {
        assert(r[r.len() - 1] == x);
        assert forall|y: NodeIdx| #[trigger] sorted.contains(y) implies r.contains(y) by {
            let k = choose|k: int| 0 <= k < sorted.len() && sorted[k] == y;
            assert(r[k] == y);
        }
        assert forall|y: NodeIdx| #[trigger] r.contains(y) implies y == x || sorted.contains(y) by {
            let k = choose|k: int| 0 <= k < r.len() && r[k] == y;
            if k < sorted.len() {
                assert(sorted[k] == y);
            }
        }
    } else {
        let front = sorted.drop_last();
        let last = sorted.last();
        lemma_insert_unique(front, x);
        let inner = insert_unique(front, x);
        assert forall|y: NodeIdx| #[trigger] r.contains(y) implies y == x || sorted.contains(y) by {
            let k = choose|k: int| 0 <= k < r.len() && r[k] == y;
            if k < inner.len() {
                assert(inner[k] == y);
                assert(inner.contains(y));
                if y != x {
                    assert(front.contains(y));
                    let m = choose|m: int| 0 <= m < front.len() && front[m] == y;
                    assert(sorted[m] == y);
                }
            } else {
                assert(sorted[sorted.len() - 1] == y);
            }
        }
        assert forall|y: NodeIdx| #[trigger] sorted.contains(y) implies r.contains(y) by {
            let m = choose|m: int| 0 <= m < sorted.len() && sorted[m] == y;
            if m < front.len() {
                assert(front[m] == y);
                assert(front.contains(y));
                assert(inner.contains(y));
                let k = choose|k: int| 0 <= k < inner.len() && inner[k] == y;
                assert(r[k] == y);
            } else {
                assert(r[r.len() - 1] == y);
            }
        }
        assert(r.contains(x)) by {
            let k = choose|k: int| 0 <= k < inner.len() && inner[k] == x;
            assert(r[k] == x);
        }
        assert forall|i: int, j: int| 0 <= i < j < r.len() implies r[i] < r[j] by {
            if j == r.len() - 1 {
                assert(inner[i] == r[i]);
                assert(inner.contains(r[i]));
                if r[i] != x {
                    assert(front.contains(r[i]));
                    let k = choose|k: int| 0 <= k < front.len() && front[k] == r[i];
                    assert(sorted[k] < sorted[sorted.len() - 1]);
                }
            } else {
                assert(inner[i] < inner[j]);
            }
        }
    }
}

/// The canonical form of a list is strictly ascending and holds what the list holds.
pub proof fn lemma_canonical(ids: Seq<NodeIdx>)
    ensures
        ascending(canonical(ids)),
        forall|y: NodeIdx| #[trigger] ids.contains(y) ==> canonical(ids).contains(y),
        forall|y: NodeIdx| #[trigger] canonical(ids).contains(y) ==> ids.contains(y),
    decreases ids.len(),
{
    if ids.len() > 0 {
        let front = ids.drop_last();
        lemma_canonical(front);
        lemma_insert_unique(canonical(front), ids.last());
        assert(ids[ids.len() - 1] == ids.last());
        assert forall|y: NodeIdx| #[trigger] ids.contains(y) implies canonical(ids).contains(y) by {
            let k = choose|k: int| 0 <= k < ids.len() && ids[k] == y;
            if k < front.len() {
                assert(front[k] == y);
                assert(front.contains(y));
                assert(canonical(front).contains(y));
            }
        }
        assert forall|y: NodeIdx| #[trigger] canonical(ids).contains(y) implies ids.contains(y) by {
            if y != ids.last() {
                assert(canonical(front).contains(y));
                assert(front.contains(y));
                let k = choose|k: int| 0 <= k < front.len() && front[k] == y;
                assert(ids[k] == y);
            }
        }
    }
}

/// A list that is strictly ascending is its own canonical form.
pub proof fn lemma_canonical_of_ascending(ids: Seq<NodeIdx>)
    requires
        ascending(ids),
    ensures
        canonical(ids) == ids,
    decreases ids.len(),
{
    if ids.len() > 0 {
        let front = ids.drop_last();
        assert forall|i: int, j: int| 0 <= i < j < front.len() implies front[i] < front[j] by {
            assert(ids[i] < ids[j]);
        }
        lemma_canonical_of_ascending(front);
        if front.len() > 0 {
            assert(front.last() == ids[ids.len() - 2]);
            assert(ids[ids.len() - 2] < ids[ids.len() - 1]);
        }
        assert(front.push(ids.last()) =~= ids);
    }
}

/// What `insert_unique` gives where the place of `x` is known: `x` stands at
/// `j` where all before `j` are smaller and all from `j` on are greater.
proof fn lemma_insert_unique_at(sorted: Seq<NodeIdx>, x: NodeIdx, j: int)
    requires
        0 <= j <= sorted.len(),
        forall|k: int| j <= k < sorted.len() ==> sorted[k] > x,
        j > 0 ==> sorted[j - 1] <= x,
    ensures
        j > 0 && sorted[j - 1] == x ==> insert_unique(sorted, x) == sorted,
        !(j > 0 && sorted[j - 1] == x) ==> insert_unique(sorted, x) == sorted.take(j).push(x)
            + sorted.skip(j),
    decreases sorted.len() - j,
{
    if j == sorted.len() {
        if j > 0 && sorted[j - 1] != x {
            assert(sorted.take(j).push(x) + sorted.skip(j) =~= sorted.push(x));
        } else if j == 0 {
            assert(sorted.take(j).push(x) + sorted.skip(j) =~= seq![x]);
        }
    } else {
        let front = sorted.drop_last();
        lemma_insert_unique_at(front, x, j);
        if j > 0 && sorted[j - 1] == x {
            assert(front[j - 1] == x);
            assert(front.push(sorted.last()) =~= sorted);
        } else {
            assert(front.take(j).push(x) + front.skip(j) + seq![sorted.last()] =~= sorted.take(
                j,
            ).push(x) + sorted.skip(j));
            assert((front.take(j).push(x) + front.skip(j)).push(sorted.last()) =~= front.take(
                j,
            ).push(x) + front.skip(j) + seq![sorted.last()]);
        }
    }
}

/// The positions in strictly ascending order, each once.
fn canonical_ids(ids: &Vec<NodeIdx>) -> (out: Vec<NodeIdx>)
    ensures
        out@ == canonical(ids@),
{
    let mut out: Vec<NodeIdx> = Vec::new();
    let mut i: usize = 0;
    assert(ids@.take(0) =~= Seq::empty());
    while i < ids.len()
        invariant
            i <= ids.len(),
            out@ == canonical(ids@.take(i as int)),
        decreases ids.len() - i,
    {
        let x = ids[i];
        let mut j: usize = out.len();
        while j > 0 && out[j - 1] > x
            invariant
                j <= out.len(),
                forall|k: int| j <= k < out.len() ==> out@[k] > x,
            decreases j,
        {
            j -= 1;
        }
        let ghost before = out@;
        proof {
            lemma_insert_unique_at(before, x, j as int);
            assert(ids@.take(i + 1).drop_last() =~= ids@.take(i as int));
        }
        if j == 0 || out[j - 1] != x {
            out.insert(j, x);
            assert(out@ =~= before.take(j as int).push(x) + before.skip(j as int));
        }
        i += 1;
    }
    assert(ids@.take(i as int) =~= ids@);
    out
}

/// Puts an entry for each node of `children` on the stack, last to first,
/// so that the first node is on top.
fn push_frames(stack: &mut Vec<(NodeHandle, bool)>, children: &Vec<NodeHandle>)
    ensures
        final(stack)@ == old(stack)@ + frames(children@.reverse()),
{
    let n = children.len();
    let mut i: usize = 0;
    assert(stack@ =~= old(stack)@ + frames(children@.reverse().take(0)));
    while i < n
        invariant
            i <= n,
            n == children@.len(),
            stack@ == old(stack)@ + frames(children@.reverse().take(i as int)),
        decreases n - i,
    {
        stack.push((children[n - 1 - i], false));
        assert(children@.reverse()[i as int] == children@[n - 1 - i]);
        assert(stack@ =~= old(stack)@ + frames(children@.reverse().take(i + 1)));
        i += 1;
    }
    assert(children@.reverse().take(i as int) =~= children@.reverse());
}

impl QueryBuilder {
    /// The nodes that `root` is made of in post-order: each node after the
    /// nodes it is made of, these walked first to last, and each node once.
    pub fn get_build_order(&self, root: NodeHandle) -> (order: Vec<NodeHandle>)
        requires
            self@.wf(),
        ensures
            order@ == self@.post_order(root, Seq::empty()),
            order@ == self@.build_order(root),
    {
        let mut order: Vec<NodeHandle> = Vec::new();
        let mut seen: HashMap<usize, bool> = HashMap::new();
        let mut stack: Vec<(NodeHandle, bool)> = Vec::new();
        stack.push((root, false));
        assert(stack@ =~= seq![(root, false)]);
        while stack.len() > 0
            invariant
                self@.wf(),
                self@.walk(stack@, order@) == self@.build_order(root),
                forall|i: usize|
                    #![trigger seen@.contains_key(i)]
                    seen@.contains_key(i) <==> visited(order@, i),
            decreases self@.stack_weight(stack@),
        {
            let ghost before = stack@;
            let ghost m = self@;
            let (handle, children_processed) = match stack.pop() {
                Some(f) => f,
                None => (root, true),
            };
            assert(before.last() == (handle, children_processed));
            assert(before.drop_last() =~= stack@);
            // nodes only visited once (prevent dup visits on diamond formations)
            if !seen.contains_key(&handle.0.index) {
                if children_processed {
                    let ghost seen0 = seen@;
                    let ghost order0 = order@;
                    seen.insert(handle.0.index, true);
                    order.push(handle);
                    proof {
                        assert forall|i: usize|
                            #![trigger seen@.contains_key(i)]
                            seen@.contains_key(i) <==> visited(order@, i) by {
                            assert(seen0.contains_key(i) <==> visited(order0, i));
                            if visited(order0, i) {
                                let k = choose|k: int|
                                    0 <= k < order0.len() && (#[trigger] order0[k]).0.index == i;
                                assert(order@[k] == order0[k]);
                            }
                            if i == handle.0.index {
                                assert(order@[order0.len() as int] == handle);
                            }
                            if visited(order@, i) && i != handle.0.index {
                                let k = choose|k: int|
                                    0 <= k < order@.len() && (#[trigger] order@[k]).0.index == i;
                                assert(order0[k] == order@[k]);
                            }
                        }
                    }
                } else {
                    stack.push((handle, true));  // children will be processed
                    // add children to be processed
                    proof {
                        m.lemma_expand(before);
                        self.lemma_has(handle);
                    }
                    match self.node_of(handle) {
                        Some(node) => {
                            match node {
                                QueryNode::Union(children) => {
                                    push_frames(&mut stack, children);
                                },
                                QueryNode::Intersect(children) => {
                                    push_frames(&mut stack, children);
                                },
                                QueryNode::Difference(a, b) => {
                                    stack.push((*b, false));
                                    stack.push((*a, false));
                                    assert(node@.children().reverse() =~= seq![*b, *a]);
                                },
                                QueryNode::Edge { target, .. } => {
                                    stack.push((*target, false));
                                    assert(node@.children().reverse() =~= seq![*target]);
                                },
                                QueryNode::Attribute { .. } => {},
                                QueryNode::SavedQuery(_) => {},
                            }
                        },
                        None => {},
                    }
                    assert(stack@ =~= m.expand(before));
                }
            }
        }
        proof {
            self@.lemma_build_order_is_post_order(root);
        }
        order
    }
}

/// What the compiler has put out so far: the nodes, and for each slot of
/// the builder that was compiled the position of its node.
pub struct Emission {
    pub output: Seq<Step>,
    pub place: Map<usize, NodeIdx>,
}

/// The positions at which the nodes of `list` were put out.
pub open spec fn places(list: Seq<NodeHandle>, place: Map<usize, NodeIdx>) -> Seq<NodeIdx> {
    list.map_values(|c: NodeHandle| place[c.0.index])
}

/// The node of the prepared query that stands for the node `t` of the
/// builder: the nodes it is made of by their positions, those of a union or
/// an intersection in canonical form, and the value it matches by its hash.
pub open spec fn lower(t: Term, place: Map<usize, NodeIdx>) -> Step {
    match t {
        Term::Union(c) => Step::Union(canonical(places(c, place))),
        Term::Intersect(c) => Step::Intersect(canonical(places(c, place))),
        Term::Difference(a, b) => Step::Difference(place[a.0.index], place[b.0.index]),
        Term::Attribute { attr, value } => Step::Attribute { attr, value: value.fingerprint() },
        Term::Edge { dir, label, target } => Step::Edge {
            dir,
            label,
            target: place[target.0.index],
        },
        Term::SavedQuery(id) => Step::SavedQuery(id),
    }
}

impl Plan {
    /// No node stands twice in the query, and the nodes that a union or an
    /// intersection is made of are named in strictly ascending order.
    pub open spec fn tidy(self) -> bool {
        &&& forall|i: int, j: int| 0 <= i < j < self.nodes.len() ==> self.nodes[i] != self.nodes[j]
        &&& forall|i: int|
            0 <= i < self.nodes.len() ==> match #[trigger] self.nodes[i] {
                Step::Union(c) => ascending(c),
                Step::Intersect(c) => ascending(c),
                _ => true,
            }
    }
}

impl Query {
    /// What the compiler has put out after the first `k` nodes of `order`:
    /// each node is lowered, and put out unless an equal node stands there already.
    pub open spec fn emit(self, order: Seq<NodeHandle>, k: int) -> Emission
        decreases k,
    {
        if k <= 0 {
            Emission { output: Seq::empty(), place: Map::empty() }
        } else {
            let prev = self.emit(order, k - 1);
            let h = order[k - 1];
            let step = lower(self.node(h), prev.place);
            match prev.output.index_of_first(step) {
                Some(i) => Emission {
                    output: prev.output,
                    place: prev.place.insert(h.0.index, i as usize),
                },
                None => Emission {
                    output: prev.output.push(step),
                    place: prev.place.insert(h.0.index, prev.output.len() as usize),
                },
            }
        }
    }

    /// The prepared query that the builder compiles to from the root `root`.
    pub open spec fn compiled(self, root: NodeHandle) -> Plan {
        let order = self.build_order(root);
        let e = self.emit(order, order.len() as int);
        Plan { nodes: e.output, root: e.place[root.0.index] }
    }

    /// What the compiler has put out is in order and tidy, and every node
    /// that was compiled has a position in it.
    pub proof fn lemma_emit(self, order: Seq<NodeHandle>, k: int)
        requires
            self.wf(),
            self.live_order(order),
            self.closed(order),
            0 <= k <= order.len(),
        ensures
            ({
                let e = self.emit(order, k);
                let plan = Plan { nodes: e.output, root: 0 };
                &&& plan.ordered(e.output.len() as int)
                &&& plan.tidy()
                &&& e.output.len() <= k
                &&& forall|i: usize|
                    #![trigger e.place.contains_key(i)]
                    e.place.contains_key(i) <==> visited(order.take(k), i)
                &&& forall|i: usize|
                    #![trigger e.place.contains_key(i)]
                    e.place.contains_key(i) ==> e.place[i] < e.output.len()
            }),
        decreases k,
    {
        if k > 0 {
            self.lemma_emit(order, k - 1);
            let prev = self.emit(order, k - 1);
            let e = self.emit(order, k);
            let h = order[k - 1];
            let t = self.node(h);
            let step = lower(t, prev.place);
            let plan = Plan { nodes: e.output, root: 0 };
            let before = Plan { nodes: prev.output, root: 0 };
            prev.output.index_of_first_ensures(step);
            assert(self.children_of(h) == t.children());
            // the nodes that the step is made of were put out before
            assert forall|c: int| 0 <= c < step.children().len() implies (
            #[trigger] step.children()[c]) < prev.output.len() by {
                let x = step.children()[c];
                match t {
                    Term::Union(list) => {
                        lemma_canonical(places(list, prev.place));
                        assert(canonical(places(list, prev.place)).contains(x));
                        assert(places(list, prev.place).contains(x));
                        let m = choose|m: int|
                            0 <= m < list.len() && places(list, prev.place)[m] == x;
                        let child = self.children_of(order[k - 1])[m];
                        assert(visited(order.take(k - 1), child.0.index));
                        assert(prev.place.contains_key(child.0.index));
                    },
                    Term::Intersect(list) => {
                        lemma_canonical(places(list, prev.place));
                        assert(canonical(places(list, prev.place)).contains(x));
                        assert(places(list, prev.place).contains(x));
                        let m = choose|m: int|
                            0 <= m < list.len() && places(list, prev.place)[m] == x;
                        let child = self.children_of(order[k - 1])[m];
                        assert(visited(order.take(k - 1), child.0.index));
                        assert(prev.place.contains_key(child.0.index));
                    },
                    Term::Difference(a, b) => {
                        let child = self.children_of(order[k - 1])[c];
                        assert(visited(order.take(k - 1), child.0.index));
                        assert(prev.place.contains_key(child.0.index));
                    },
                    Term::Edge { target, .. } => {
                        let child = self.children_of(order[k - 1])[c];
                        assert(visited(order.take(k - 1), child.0.index));
                        assert(prev.place.contains_key(child.0.index));
                    },
                    _ => {},
                }
            }
            match t {
                Term::Union(list) => {
                    lemma_canonical(places(list, prev.place));
                },
                Term::Intersect(list) => {
                    lemma_canonical(places(list, prev.place));
                },
                _ => {},
            }
            assert forall|i: int, c: int|
                0 <= i < e.output.len() && 0 <= c < e.output[i].children().len() implies (
            #[trigger] e.output[i].children()[c]) < i by {
                if i < prev.output.len() {
                    assert(e.output[i] == prev.output[i]);
                    assert(before.nodes[i].children()[c] < i);
                }
            }
            assert forall|i: int, j: int| 0 <= i < j < e.output.len() implies e.output[i]
                != e.output[j] by {
                if j < prev.output.len() {
                    assert(before.nodes[i] != before.nodes[j]);
                } else {
                    assert(prev.output[i] != step);
                }
            }
            assert forall|i: int| 0 <= i < e.output.len() implies match #[trigger] e.output[i] {
                Step::Union(c) => ascending(c),
                Step::Intersect(c) => ascending(c),
                _ => true,
            } by {
                if i < prev.output.len() {
                    assert(e.output[i] == before.nodes[i]);
                }
            }
            assert forall|i: usize|
                #![trigger e.place.contains_key(i)]
                e.place.contains_key(i) <==> visited(order.take(k), i) by {
                assert(prev.place.contains_key(i) <==> visited(order.take(k - 1), i));
                if visited(order.take(k - 1), i) {
                    let m = choose|m: int|
                        0 <= m < order.take(k - 1).len() && (#[trigger] order.take(k - 1)[m]).0.index
                            == i;
                    assert(order.take(k)[m].0.index == i);
                }
                if i == h.0.index {
                    assert(order.take(k)[k - 1] == h);
                }
                if visited(order.take(k), i) && i != h.0.index {
                    let m = choose|m: int|
                        0 <= m < order.take(k).len() && (#[trigger] order.take(k)[m]).0.index == i;
                    assert(order.take(k - 1)[m].0.index == i);
                }
            }
            assert forall|i: usize|
                #![trigger e.place.contains_key(i)]
                e.place.contains_key(i) implies e.place[i] < e.output.len() by {
                if i != h.0.index {
                    assert(prev.place.contains_key(i));
                }
            }
        } else {
            assert(order.take(0) =~= Seq::empty());
        }
    }

    /// The prepared query that a builder compiles to is in order and tidy,
    /// and its root is one of its nodes.
    pub proof fn lemma_compiled(self, root: NodeHandle)
        requires
            self.wf(),
            self.has_node(root),
        ensures
            self.compiled(root).wf(),
            self.compiled(root).tidy(),
    {
        let order = self.build_order(root);
        self.lemma_build_order(root);
        self.lemma_emit(order, order.len() as int);
        assert(order.take(order.len() as int) =~= order);
        let e = self.emit(order, order.len() as int);
        assert(e.place.contains_key(root.0.index));
    }
}

/// Whether both lists hold the same positions in the same order.
fn same_ids(a: &Vec<NodeIdx>, b: &Vec<NodeIdx>) -> (r: bool)
    ensures
        r == (a@ == b@),
{
    if a.len() != b.len() {
        return false;
    }
    let mut i: usize = 0;
    while i < a.len()
        invariant
            i <= a.len(),
            a.len() == b.len(),
            forall|j: int| 0 <= j < i ==> a@[j] == b@[j],
        decreases a.len() - i,
    {
        if a[i] != b[i] {
            return false;
        }
        i += 1;
    }
    assert(a@ =~= b@);
    true
}

/// Whether both nodes are of one kind and hold the same.
fn same_node(a: &Node, b: &Node) -> (r: bool)
    ensures
        r == (a@ == b@),
{
    match (a, b) {
        (Node::Union(x), Node::Union(y)) => same_ids(x, y),
        (Node::Intersect(x), Node::Intersect(y)) => same_ids(x, y),
        (Node::Difference(a1, a2), Node::Difference(b1, b2)) => *a1 == *b1 && *a2 == *b2,
        (Node::Attribute { attr: p, value: v }, Node::Attribute { attr: q, value: w }) => p.0
            == q.0 && *v == *w,
        (
            Node::Edge { dir: d, label: l, target: t },
            Node::Edge { dir: e, label: m, target: u },
        ) => *d == *e && l.0 == m.0 && *t == *u,
        (Node::SavedQuery(x), Node::SavedQuery(y)) => *x == *y,
        _ => false,
    }
}

/// The first position at which a node equal to `node` stands in `output`.
fn find_node(output: &Vec<Node>, node: &Node) -> (r: Option<usize>)
    ensures
        match r {
            Some(i) => steps_of(output@).index_of_first(node@) == Some(i as int) && i < output@.len(),
            None => steps_of(output@).index_of_first(node@) is None,
        },
{
    let mut i: usize = 0;
    while i < output.len()
        invariant
            i <= output.len(),
            forall|j: int| 0 <= j < i ==> steps_of(output@)[j] != node@,
        decreases output.len() - i,
    {
        if same_node(&output[i], node) {
            proof {
                assert(steps_of(output@)[i as int] == node@);
                steps_of(output@).index_of_first_ensures(node@);
            }
            return Some(i);
        }
        i += 1;
    }
    proof {
        steps_of(output@).index_of_first_ensures(node@);
    }
    None
}

/// The position at which the slot `index` of the builder was put out.
fn place_of(placed: &HashMap<usize, NodeIdx>, index: usize) -> (r: NodeIdx)
    requires
        placed@.contains_key(index),
    ensures
        r == placed@[index],
{
    match placed.get(&index) {
        Some(i) => *i,
        None => 0,
    }
}

/// The positions at which the nodes of `list` were put out.
fn places_of(list: &Vec<NodeHandle>, placed: &HashMap<usize, NodeIdx>) -> (r: Vec<NodeIdx>)
    requires
        forall|k: int| 0 <= k < list@.len() ==> placed@.contains_key((#[trigger] list@[k]).0.index),
    ensures
        r@ == places(list@, placed@),
{
    let mut ids: Vec<NodeIdx> = Vec::new();
    let mut i: usize = 0;
    while i < list.len()
        invariant
            i <= list.len(),
            forall|k: int|
                0 <= k < list@.len() ==> placed@.contains_key((#[trigger] list@[k]).0.index),
            ids@ == places(list@.take(i as int), placed@),
        decreases list.len() - i,
    {
        assert(placed@.contains_key(list@[i as int].0.index));
        ids.push(place_of(placed, list[i].0.index));
        assert(ids@ =~= places(list@.take(i + 1), placed@));
        i += 1;
    }
    assert(list@.take(i as int) =~= list@);
    ids
}

impl QueryBuilder {
    /// Compiles the query from its root: the nodes that the root is made
    /// of in build order, each lowered and put out once. The root is the
    /// last node of the prepared query.
    /// * Without a root there is nothing to compile; a root that does not
    ///   resolve is refused.
    pub fn compile(&self) -> (r: Result<PreparedQuery, LatticeError>)
        requires
            self@.wf(),
        ensures
            match r {
                Ok(q) => {
                    &&& self@.root matches Some(root) && self@.has_node(root) && q@
                        == self@.compiled(root)
                    &&& q@.wf()
                    &&& q@.tidy()
                    &&& q@.root == q@.nodes.len() - 1
                },
                Err(e) => match self@.root {
                    None => e is RootNotFound,
                    Some(root) => !self@.has_node(root) && e is QueryNodeNotFound,
                },
            },
    {
        let root = match self.get_root() {
            Some(root) => root,
            None => {
                return Err(LatticeError::RootNotFound);
            },
        };
        if self.node_of(root).is_none() {
            return Err(LatticeError::QueryNodeNotFound);
        }
        let ghost m = self@;
        let build_order = self.get_build_order(root);
        let ghost order = build_order@;
        proof {
            m.lemma_build_order(root);
            m.lemma_compiled(root);
        }

        let mut output: Vec<Node> = Vec::new();  // ordered nodes to query for
        let mut placed: HashMap<usize, NodeIdx> = HashMap::new();  // maps self.nodes index to output index
        let mut k: usize = 0;
        assert(steps_of(output@) =~= m.emit(order, 0).output);
        assert(placed@ =~= m.emit(order, 0).place);
        while k < build_order.len()
            invariant
                k <= build_order.len(),
                m == self@,
                m.wf(),
                order == build_order@,
                m.live_order(order),
                m.closed(order),
                steps_of(output@) == m.emit(order, k as int).output,
                placed@ == m.emit(order, k as int).place,
            decreases build_order.len() - k,
        {
            let handle = build_order[k];
            let ghost prev = m.emit(order, k as int);
            proof {
                m.lemma_emit(order, k as int);
                assert(m.has_node(handle));
                assert(m.children_of(handle) == m.node(handle).children());
                assert forall|c: int|
                    0 <= c < m.children_of(handle).len() implies placed@.contains_key(
                    (#[trigger] m.children_of(handle)[c]).0.index,
                ) by {
                    let child = m.children_of(order[k as int])[c];
                    assert(visited(order.take(k as int), child.0.index));
                }
            }
            let compiled_node = match self.node_of(handle) {
                Some(QueryNode::Union(handles)) => {
                    let ids = places_of(handles, &placed);
                    Node::Union(canonical_ids(&ids))
                },
                Some(QueryNode::Intersect(handles)) => {
                    let ids = places_of(handles, &placed);
                    Node::Intersect(canonical_ids(&ids))
                },
                Some(QueryNode::Difference(a, b)) => {
                    assert(m.children_of(handle)[0] == *a && m.children_of(handle)[1] == *b);
                    let a = place_of(&placed, a.0.index);
                    let b = place_of(&placed, b.0.index);
                    Node::Difference(a, b)
                },
                Some(QueryNode::Attribute { attr, value }) => {
                    let value_hash = value.hash();
                    Node::Attribute { attr: *attr, value: value_hash }
                },
                Some(QueryNode::Edge { dir, label, target }) => {
                    assert(m.children_of(handle)[0] == *target);
                    let target_id = place_of(&placed, target.0.index);
                    Node::Edge { dir: *dir, label: *label, target: target_id }
                },
                Some(QueryNode::SavedQuery(id)) => Node::SavedQuery(*id),
                None => Node::SavedQuery(0),
            };
            assert(compiled_node@ == lower(m.node(handle), prev.place));
            // a node that stands in the output already is not put out again
            let idx = match find_node(&output, &compiled_node) {
                Some(idx) => idx,
                None => {
                    let new_idx = output.len();
                    let ghost before = output@;
                    output.push(compiled_node);
                    assert(steps_of(output@) =~= steps_of(before).push(compiled_node@));
                    new_idx
                },
            };
            // a slot is compiled once (diamond case)
            placed.insert(handle.0.index, idx);
            k += 1;
        }
        proof {
            m.lemma_emit(order, order.len() as int);
            assert(order.take(order.len() as int) =~= order);
        }
        proof {
            self@.lemma_root_is_last(root);
        }
        let root_idx = place_of(&placed, root.0.index);
        Ok(PreparedQuery { nodes: output, root: root_idx })
    }
}

/// Whether every position of `children` is smaller than `bound`.
fn all_before(children: &Vec<NodeIdx>, bound: usize) -> (r: bool)
    ensures
        r == forall|k: int| 0 <= k < children@.len() ==> (#[trigger] children@[k]) < bound,
{
    let mut k: usize = 0;
    while k < children.len()
        invariant
            k <= children.len(),
            forall|j: int| 0 <= j < k ==> (#[trigger] children@[j]) < bound,
        decreases children.len() - k,
    {
        if children[k] >= bound {
            return false;
        }
        k += 1;
    }
    true
}

impl PreparedQuery {
    /// Whether every node is made of nodes that stand before it, and the
    /// root is a node: what an evaluation asks of a query.
    pub fn is_well_formed(&self) -> (r: bool)
        ensures
            r == self@.wf(),
    {
        if self.root >= self.nodes.len() {
            return false;
        }
        let mut i: usize = 0;
        while i < self.nodes.len()
            invariant
                i <= self.nodes.len(),
                self@.ordered(i as int),
            decreases self.nodes.len() - i,
        {
            let ghost step = self@.nodes[i as int];
            assert(step == self.nodes@[i as int]@);
            let fine = match &self.nodes[i] {
                Node::Union(c) => all_before(c, i),
                Node::Intersect(c) => all_before(c, i),
                Node::Difference(a, b) => {
                    assert(step.children()[0] == *a && step.children()[1] == *b);
                    *a < i && *b < i
                },
                Node::Edge { target, .. } => {
                    assert(step.children()[0] == *target);
                    *target < i
                },
                Node::Attribute { .. } => true,
                Node::SavedQuery(_) => true,
            };
            if !fine {
                assert(!self@.ordered(self@.nodes.len() as int)) by {
                    let k = choose|k: int|
                        0 <= k < step.children().len() && !((#[trigger] step.children()[k]) < i);
                    assert(!(self@.nodes[i as int].children()[k] < i));
                }
                return false;
            }
            assert(forall|k: int|
                0 <= k < step.children().len() ==> (#[trigger] step.children()[k]) < i);
            i += 1;
        }
        true
    }
}

/// Those of the first `n` positions of `c` that are smaller than `bound`,
/// in their order.
pub open spec fn members_before(c: Seq<NodeIdx>, bound: int, n: int) -> Seq<NodeIdx>
    decreases n,
{
    if n <= 0 {
        Seq::empty()
    } else if c[n - 1] < bound {
        members_before(c, bound, n - 1).push(c[n - 1])
    } else {
        members_before(c, bound, n - 1)
    }
}

/// Where all of the first `n` positions are smaller than `bound`, all of
/// them are kept.
pub proof fn lemma_members_before(c: Seq<NodeIdx>, bound: int, n: int)
    requires
        0 <= n <= c.len(),
        forall|k: int| 0 <= k < n ==> (#[trigger] c[k]) < bound,
    ensures
        members_before(c, bound, n) == c.take(n),
    decreases n,
{
    if n > 0 {
        lemma_members_before(c, bound, n - 1);
        assert(c.take(n) =~= c.take(n - 1).push(c[n - 1]));
    } else {
        assert(c.take(n) =~= Seq::empty());
    }
}

impl Step {
    /// The node as an evaluation reads it at position `i`. When a union or
    /// an intersection is evaluated, a member that does not stand before it
    /// has no result, and is left out.
    pub open spec fn settled_at(self, i: int) -> Step {
        match self {
            Step::Union(c) => Step::Union(members_before(c, i, c.len() as int)),
            Step::Intersect(c) => Step::Intersect(members_before(c, i, c.len() as int)),
            _ => self,
        }
    }
}

impl Plan {
    /// The query as an evaluation reads it: each node as it is read at its
    /// position; and where the root is no node, the result is that of a
    /// union of nothing, which stands behind the nodes as the root.
    pub open spec fn settled(self) -> Plan {
        let nodes = Seq::new(self.nodes.len(), |i: int| self.nodes[i].settled_at(i));
        if self.root < self.nodes.len() {
            Plan { nodes, root: self.root }
        } else {
            Plan {
                nodes: nodes.push(Step::Union(Seq::empty())),
                root: self.nodes.len() as usize,
            }
        }
    }

    /// A query whose nodes are made of nodes that stand before them, with a
    /// node as its root, is read as it is.
    pub proof fn lemma_settled(self)
        requires
            self.wf(),
        ensures
            self.settled() == self,
    {
        let nodes = Seq::new(self.nodes.len(), |i: int| self.nodes[i].settled_at(i));
        assert forall|i: int| 0 <= i < self.nodes.len() implies nodes[i] == self.nodes[i] by {
            let step = self.nodes[i];
            assert(forall|k: int| 0 <= k < step.children().len() ==> (#[trigger] step.children()[k]) < i);
            match step {
                Step::Union(c) => {
                    lemma_members_before(c, i, c.len() as int);
                    assert(c.take(c.len() as int) =~= c);
                },
                Step::Intersect(c) => {
                    lemma_members_before(c, i, c.len() as int);
                    assert(c.take(c.len() as int) =~= c);
                },
                _ => {},
            }
        }
        assert(nodes =~= self.nodes);
    }
}

/// Those of the positions that are smaller than `bound`, in their order.
fn positions_before(c: &Vec<NodeIdx>, bound: usize) -> (r: Vec<NodeIdx>)
    ensures
        r@ == members_before(c@, bound as int, c@.len() as int),
{
    let mut out: Vec<NodeIdx> = Vec::new();
    let mut k: usize = 0;
    while k < c.len()
        invariant
            k <= c.len(),
            out@ == members_before(c@, bound as int, k as int),
        decreases c.len() - k,
    {
        if c[k] < bound {
            out.push(c[k]);
        }
        k += 1;
    }
    out
}

impl PreparedQuery {
    /// The query as an evaluation reads it. A member of a union or of an
    /// intersection that does not stand before it is left out, and a query
    /// whose root is no node gets a union of nothing as its root. A query
    /// that is well formed comes back as it is.
    pub fn settled(&self) -> (r: PreparedQuery)
        ensures
            r@ == self@.settled(),
    {
        let mut nodes: Vec<Node> = Vec::new();
        let mut i: usize = 0;
        while i < self.nodes.len()
            invariant
                i <= self.nodes.len(),
                nodes@.len() == i,
                forall|k: int| 0 <= k < i ==> (#[trigger] nodes@[k])@ == self@.nodes[k].settled_at(k),
            decreases self.nodes.len() - i,
        {
            assert(self@.nodes[i as int] == self.nodes@[i as int]@);
            let node = match &self.nodes[i] {
                Node::Union(c) => Node::Union(positions_before(c, i)),
                Node::Intersect(c) => Node::Intersect(positions_before(c, i)),
                Node::Difference(a, b) => Node::Difference(*a, *b),
                Node::Attribute { attr, value } => Node::Attribute { attr: *attr, value: *value },
                Node::Edge { dir, label, target } => Node::Edge {
                    dir: *dir,
                    label: *label,
                    target: *target,
                },
                Node::SavedQuery(id) => Node::SavedQuery(*id),
            };
            nodes.push(node);
            i += 1;
        }
        let root = if self.root < self.nodes.len() {
            self.root
        } else {
            nodes.push(Node::Union(Vec::new()));
            self.nodes.len()
        };
        let r = PreparedQuery { nodes, root };
        assert(r@.nodes =~= self@.settled().nodes);
        r
    }
}

} // verus!
