use crate::query::query_builder::{NodeHandle, Query};
use crate::query::query_prepared::{frames, visited, Frame};
use vstd::prelude::*;

verus! {

impl Query {
    /// The nodes visited once the node `h` was walked, where `order` were
    /// visited before: a node that was visited is passed over; else the
    /// nodes it is made of are walked, first to last, and then the node
    /// itself is visited.
    pub open spec fn post_order(self, h: NodeHandle, order: Seq<NodeHandle>) -> Seq<NodeHandle>
        decreases h.0.index, 1nat, 0nat,
    {
        if visited(order, h.0.index) {
            order
        } else {
            let parts = self.children_of(h);
            self.post_orders(parts, h.0.index as int, order, parts.len() as int).push(h)
        }
    }

    /// The nodes visited once the first `n` nodes of `list` were walked one
    /// after the other, where `order` were visited before. The nodes of
    /// `list` stand before the slot `bound`.
    pub open spec fn post_orders(
        self,
        list: Seq<NodeHandle>,
        bound: int,
        order: Seq<NodeHandle>,
        n: int,
    ) -> Seq<NodeHandle>
        decreases bound, 0nat, n,
    {
        if n <= 0 {
            order
        } else {
            let before = self.post_orders(list, bound, order, n - 1);
            if n <= list.len() && list[n - 1].0.index < bound {
                self.post_order(list[n - 1], before)
            } else {
                before
            }
        }
    }

    /// The walk of a node visits no slot behind the node's own.
    pub proof fn lemma_post_order_is_bounded(self, h: NodeHandle, order: Seq<NodeHandle>, i: usize)
        ensures
            visited(self.post_order(h, order), i) ==> visited(order, i) || i <= h.0.index,
        decreases h.0.index, 1nat, 0nat,
    {
        if !visited(order, h.0.index) {
            let parts = self.children_of(h);
            let before = self.post_orders(parts, h.0.index as int, order, parts.len() as int);
            self.lemma_post_orders_are_bounded(parts, h.0.index as int, order, parts.len() as int, i);
            let after = before.push(h);
            if visited(after, i) {
                let k = choose|k: int| 0 <= k < after.len() && (#[trigger] after[k]).0.index == i;
                if k < before.len() {
                    assert(before[k].0.index == i);
                }
            }
        }
    }

    /// The walk of nodes that stand before a slot visits no slot from that
    /// slot on.
    pub proof fn lemma_post_orders_are_bounded(
        self,
        list: Seq<NodeHandle>,
        bound: int,
        order: Seq<NodeHandle>,
        n: int,
        i: usize,
    )
        ensures
            visited(self.post_orders(list, bound, order, n), i) ==> visited(order, i) || i < bound,
        decreases bound, 0nat, n,
    {
        if n > 0 {
            self.lemma_post_orders_are_bounded(list, bound, order, n - 1, i);
            if n <= list.len() && list[n - 1].0.index < bound {
                let before = self.post_orders(list, bound, order, n - 1);
                self.lemma_post_order_is_bounded(list[n - 1], before, i);
            }
        }
    }

    /// The walk from a stack with the entry of a node on top goes on from
    /// the stack below as if the node had been walked by itself.
    pub proof fn lemma_walk_of_node(self, below: Seq<Frame>, h: NodeHandle, order: Seq<NodeHandle>)
        requires
            self.wf(),
        ensures
            self.walk(below.push((h, false)), order) == self.walk(
                below,
                self.post_order(h, order),
            ),
        decreases h.0.index, 1nat, 0nat,
    {
        let stack = below.push((h, false));
        assert(stack.last() == (h, false));
        assert(stack.drop_last() =~= below);
        if !visited(order, h.0.index) {
            let parts = self.children_of(h);
            let bound = h.0.index as int;
            let second = below.push((h, true));
            assert(self.expand(stack) == second + frames(parts.reverse()));
            if self.has_node(h) {
                assert(self.nodes.slots[bound].item->0.children() == parts);
                assert forall|k: int| 0 <= k < parts.len() implies (#[trigger] parts[k]).0.index
                    < bound by {
                    let c = self.nodes.slots[bound].item->0.children()[k];
                }
            }
            self.lemma_walk_of_nodes(second, parts, bound, order, parts.len() as int);
            assert(parts.take(parts.len() as int) =~= parts);
            let before = self.post_orders(parts, bound, order, parts.len() as int);
            self.lemma_post_orders_are_bounded(parts, bound, order, parts.len() as int, h.0.index);
            assert(!visited(before, h.0.index));
            assert(second.last() == (h, true));
            assert(second.drop_last() =~= below);
            assert(self.walk(second, before) == self.walk(below, before.push(h)));
        }
    }

    /// The walk from a stack with the entries of some nodes on top, the
    /// first of them topmost, goes on from the stack below as if the nodes
    /// had been walked one after the other.
    pub proof fn lemma_walk_of_nodes(
        self,
        below: Seq<Frame>,
        list: Seq<NodeHandle>,
        bound: int,
        order: Seq<NodeHandle>,
        n: int,
    )
        requires
            self.wf(),
            0 <= n <= list.len(),
            forall|k: int| 0 <= k < n ==> (#[trigger] list[k]).0.index < bound,
        ensures
            self.walk(below + frames(list.take(n).reverse()), order) == self.walk(
                below,
                self.post_orders(list, bound, order, n),
            ),
        decreases bound, 0nat, n,
    {
        if n > 0 {
            let last = list[n - 1];
            let under = below.push((last, false));
            let front = list.take(n - 1);
            assert(list.take(n).reverse() =~= seq![last] + front.reverse());
            assert(below + frames(list.take(n).reverse()) =~= under + frames(front.reverse()));
            self.lemma_walk_of_nodes(under, list, bound, order, n - 1);
            self.lemma_walk_of_node(below, last, self.post_orders(list, bound, order, n - 1));
        } else {
            assert(below + frames(list.take(n).reverse()) =~= below);
        }
    }

    /// The build order from a root is the post-order of the root: each node
    /// after the nodes it is made of, these first to last, each node once.
    pub proof fn lemma_build_order_is_post_order(self, root: NodeHandle)
        requires
            self.wf(),
        ensures
            self.build_order(root) == self.post_order(root, Seq::empty()),
    {
        let below = Seq::<Frame>::empty();
        assert(below.push((root, false)) =~= seq![(root, false)]);
        self.lemma_walk_of_node(below, root, Seq::empty());
    }
}

} // verus!
