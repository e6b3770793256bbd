use crate::query::query_builder::{NodeHandle, Query};
use crate::query::query_prepared::{lower, visited, NodeIdx, Plan};
use vstd::prelude::*;

verus! {

/// Whether the node at position `q` was put out for one of the first `k`
/// nodes of the order.
pub open spec fn put_out(order: Seq<NodeHandle>, place: Map<usize, NodeIdx>, k: int, q: int) -> bool {
    exists|a: int| 0 <= a < k && place[(#[trigger] order[a]).0.index] == q
}

impl Query {
    /// Whether a node that stands behind position `k` of the order is made
    /// of the node at position `k`.
    pub open spec fn has_parent_behind(self, order: Seq<NodeHandle>, k: int) -> bool {
        exists|j: int, c: int|
            k < j < order.len() && 0 <= c < self.children_of(order[j]).len() && (
            #[trigger] self.children_of(order[j])[c]).0.index == order[k].0.index
    }

    /// Whether the node at position `k` of the order is one of the first
    /// `n` nodes of `list`, or a part of a node that stands behind it.
    pub open spec fn accounted(
        self,
        list: Seq<NodeHandle>,
        n: int,
        order: Seq<NodeHandle>,
        k: int,
    ) -> bool {
        (exists|m: int| 0 <= m < n && (#[trigger] list[m]).0.index == order[k].0.index)
            || self.has_parent_behind(order, k)
    }

    /// Whether the node at position `k` of the order is `h` at the end of
    /// the order, or a part of a node that stands behind it.
    pub open spec fn last_or_part(self, h: NodeHandle, order: Seq<NodeHandle>, k: int) -> bool {
        (k == order.len() - 1 && order[k] == h) || self.has_parent_behind(order, k)
    }

    /// The walk of a node keeps what was visited before, and each node
    /// that it visits is the node itself, visited last, or a part of a node
    /// that is visited later.
    pub proof fn lemma_post_order_parents(self, h: NodeHandle, order: Seq<NodeHandle>)
        ensures
            ({
                let after = self.post_order(h, order);
                &&& order.len() <= after.len()
                &&& after.take(order.len() as int) == order
                &&& forall|k: int|
                    order.len() <= k < after.len() ==> #[trigger] self.last_or_part(h, after, k)
            }),
        decreases h.0.index, 1nat, 0nat,
    {
        let after = self.post_order(h, order);
        if visited(order, h.0.index) {
            assert(after.take(order.len() as int) =~= order);
        } else {
            let parts = self.children_of(h);
            let n = parts.len() as int;
            let mid = self.post_orders(parts, h.0.index as int, order, n);
            self.lemma_post_orders_parents(parts, h.0.index as int, order, n);
            assert(after == mid.push(h));
            assert(order.len() <= mid.len());
            assert(mid.take(order.len() as int) == order);
            assert(after.take(order.len() as int) =~= mid.take(order.len() as int));
            assert(after.take(order.len() as int) == order);
            assert forall|k: int| order.len() <= k < after.len() implies #[trigger] self.last_or_part(
                h,
                after,
                k,
            ) by {
                if k < mid.len() {
                    assert(after[k] == mid[k]);
                    assert(self.accounted(parts, n, mid, k));
                    if exists|m: int| 0 <= m < n && (#[trigger] parts[m]).0.index == mid[k].0.index {
                        let m = choose|m: int|
                            0 <= m < n && (#[trigger] parts[m]).0.index == mid[k].0.index;
                        let j = after.len() - 1;
                        assert(after[j] == h);
                        assert(self.children_of(after[j])[m].0.index == after[k].0.index);
                    } else {
                        assert(self.has_parent_behind(mid, k));
                        let (j, c) = choose|j: int, c: int|
                            k < j < mid.len() && 0 <= c < self.children_of(mid[j]).len() && (
                            #[trigger] self.children_of(mid[j])[c]).0.index == mid[k].0.index;
                        assert(after[j] == mid[j]);
                        assert(self.children_of(after[j])[c].0.index == after[k].0.index);
                    }
                }
            }
        }
    }

    /// The walk of the first `n` nodes of a list keeps what was visited
    /// before, and each node that it visits is one of these nodes or a part
    /// of a node that is visited later.
    pub proof fn lemma_post_orders_parents(
        self,
        list: Seq<NodeHandle>,
        bound: int,
        order: Seq<NodeHandle>,
        n: int,
    )
        requires
            n <= list.len(),
        ensures
            ({
                let after = self.post_orders(list, bound, order, n);
                &&& order.len() <= after.len()
                &&& after.take(order.len() as int) == order
                &&& forall|k: int|
                    order.len() <= k < after.len() ==> #[trigger] self.accounted(list, n, after, k)
            }),
        decreases bound, 0nat, n,
    {
        let after = self.post_orders(list, bound, order, n);
        if n <= 0 {
            assert(after.take(order.len() as int) =~= order);
        } else {
            let mid = self.post_orders(list, bound, order, n - 1);
            self.lemma_post_orders_parents(list, bound, order, n - 1);
            if list[n - 1].0.index < bound {
                self.lemma_post_order_parents(list[n - 1], mid);
                assert(after.take(order.len() as int) =~= after.take(mid.len() as int).take(
                    order.len() as int,
                ));
            } else {
                assert(after == mid);
                assert(after.take(mid.len() as int) =~= mid);
            }
            assert(after.take(mid.len() as int) == mid);
            assert forall|k: int| order.len() <= k < after.len() implies #[trigger] self.accounted(
                list,
                n,
                after,
                k,
            ) by {
                if k < mid.len() {
                    assert(after.take(mid.len() as int)[k] == after[k]);
                    assert(after[k] == mid[k]);
                    assert(self.accounted(list, n - 1, mid, k));
                    if exists|m: int|
                        0 <= m < n - 1 && (#[trigger] list[m]).0.index == mid[k].0.index {
                        let m = choose|m: int|
                            0 <= m < n - 1 && (#[trigger] list[m]).0.index == mid[k].0.index;
                        assert(0 <= m < n && list[m].0.index == after[k].0.index);
                    } else {
                        assert(self.has_parent_behind(mid, k));
                        let (j, c) = choose|j: int, c: int|
                            k < j < mid.len() && 0 <= c < self.children_of(mid[j]).len() && (
                            #[trigger] self.children_of(mid[j])[c]).0.index == mid[k].0.index;
                        assert(after.take(mid.len() as int)[j] == after[j]);
                        assert(self.children_of(after[j])[c].0.index == after[k].0.index);
                    }
                } else {
                    assert(list[n - 1].0.index < bound);
                    assert(self.last_or_part(list[n - 1], after, k));
                    if k == after.len() - 1 && after[k] == list[n - 1] {
                        assert(list[n - 1].0.index == after[k].0.index);
                    }
                }
            }
        }
    }

    /// Where each slot is compiled once, a node is put out behind the
    /// nodes it is made of, and every node that is put out is the node of a
    /// slot that was compiled.
    pub proof fn lemma_places(self, order: Seq<NodeHandle>, k: int)
        requires
            self.wf(),
            self.live_order(order),
            self.closed(order),
            Self::distinct(order),
            0 <= k <= order.len() <= usize::MAX,
        ensures
            ({
                let e = self.emit(order, k);
                &&& forall|a: int|
                    0 <= a < k ==> e.place.contains_key((#[trigger] order[a]).0.index)
                        && e.place[order[a].0.index] < e.output.len()
                &&& forall|a: int, c: int|
                    0 <= a < k && 0 <= c < self.children_of(order[a]).len() ==> e.place[(
                    #[trigger] self.children_of(order[a])[c]).0.index] < e.place[order[a].0.index]
                &&& forall|q: int| 0 <= q < e.output.len() ==> #[trigger] put_out(order, e.place, k, q)
            }),
        decreases k,
    {
        if k > 0 {
            self.lemma_places(order, k - 1);
            self.lemma_emit(order, k - 1);
            self.lemma_emit(order, k);
            let prev = self.emit(order, k - 1);
            let e = self.emit(order, k);
            let plan = Plan { nodes: e.output, root: 0 };
            let h = order[k - 1];
            let i0 = h.0.index;
            let t = self.node(h);
            let step = lower(t, prev.place);
            prev.output.index_of_first_ensures(step);
            assert(self.has_node(h));
            assert(self.children_of(h) == t.children());
            assert(prev.output.len() <= k - 1 <= usize::MAX);
            let j = e.place[i0] as int;
            assert(e.place.contains_key(i0));
            assert(e.output[j] == step);
            // the slots that were compiled before are not the slot of `h`
            assert forall|a: int| 0 <= a < k - 1 implies (#[trigger] order[a]).0.index != i0 by {}
            assert forall|a: int, c: int|
                0 <= a < k && 0 <= c < self.children_of(order[a]).len() implies e.place[(
            #[trigger] self.children_of(order[a])[c]).0.index] < e.place[order[a].0.index] by {
                let child = self.children_of(order[a])[c];
                assert(visited(order.take(a), child.0.index));
                let b = choose|b: int|
                    0 <= b < order.take(a).len() && (#[trigger] order.take(a)[b]).0.index
                        == child.0.index;
                assert(order[b].0.index == child.0.index);
                assert(child.0.index != i0);
                if a == k - 1 {
                    let p = prev.place[child.0.index];
                    self.lemma_lowered_children(t, prev.place, c);
                    let at = choose|at: int|
                        0 <= at < step.children().len() && step.children()[at] == p;
                    assert(plan.nodes[j].children()[at] < j);
                }
            }
            assert forall|q: int| 0 <= q < e.output.len() implies #[trigger] put_out(
                order,
                e.place,
                k,
                q,
            ) by {
                if q < prev.output.len() {
                    assert(put_out(order, prev.place, k - 1, q));
                    let a = choose|a: int|
                        0 <= a < k - 1 && prev.place[(#[trigger] order[a]).0.index] == q;
                    assert(e.place[order[a].0.index] == q);
                } else {
                    assert(e.place[order[k - 1].0.index] == q);
                }
            }
        }
    }

    /// Where every node of the order but the last is a part of a node that
    /// stands behind it, no node is put out behind the last node of the
    /// order.
    pub proof fn lemma_last_place(self, order: Seq<NodeHandle>, a: int)
        requires
            self.wf(),
            self.live_order(order),
            self.closed(order),
            Self::distinct(order),
            order.len() <= usize::MAX,
            0 <= a < order.len(),
            forall|k: int| 0 <= k < order.len() - 1 ==> self.has_parent_behind(order, k),
        ensures
            ({
                let e = self.emit(order, order.len() as int);
                e.place[order[a].0.index] <= e.place[order.last().0.index]
            }),
        decreases order.len() - a,
    {
        if a < order.len() - 1 {
            assert(self.has_parent_behind(order, a));
            let (j, c) = choose|j: int, c: int|
                a < j < order.len() && 0 <= c < self.children_of(order[j]).len() && (
                #[trigger] self.children_of(order[j])[c]).0.index == order[a].0.index;
            self.lemma_last_place(order, j);
            self.lemma_places(order, order.len() as int);
        }
    }

    /// The root of a compiled query is its last node.
    pub proof fn lemma_root_is_last(self, root: NodeHandle)
        requires
            self.wf(),
            self.has_node(root),
        ensures
            self.compiled(root).nodes.len() > 0,
            self.compiled(root).root == self.compiled(root).nodes.len() - 1,
    {
        let order = self.build_order(root);
        let n = order.len() as int;
        self.lemma_build_order(root);
        self.lemma_build_order_is_post_order(root);
        self.lemma_post_order_parents(root, Seq::empty());
        assert(!visited(Seq::<NodeHandle>::empty(), root.0.index));
        assert(order.last() == root);
        assert forall|k: int| 0 <= k < order.len() - 1 implies self.has_parent_behind(order, k) by {
            assert(self.last_or_part(root, order, k));
        }
        self.lemma_places(order, n);
        let e = self.emit(order, n);
        let last = e.place[root.0.index] as int;
        assert(order[n - 1] == root);
        assert(last < e.output.len());
        let q = e.output.len() - 1;
        assert(put_out(order, e.place, n, q));
        let a = choose|a: int| 0 <= a < n && e.place[(#[trigger] order[a]).0.index] == q;
        self.lemma_last_place(order, a);
    }
}

} // verus!
