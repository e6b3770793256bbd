use crate::lattice_db::reader::{
    intersect_over, lemma_intersect_over, lemma_union_over, result_at, union_over, value_of, Indexes,
};
use crate::query::query_builder::{NodeHandle, Query, Term};
use crate::query::query_prepared::{
    canonical, lemma_canonical, lemma_canonical_of_ascending, lower, places, visited, Emission,
    NodeIdx, Plan, Step,
};
use vstd::prelude::*;

verus! {

/// The slots of the nodes of `list`.
pub open spec fn slots_of(list: Seq<NodeHandle>) -> Seq<NodeIdx> {
    list.map_values(|h: NodeHandle| h.0.index)
}

/// The node of a builder as a node of a plan that names each node by its
/// slot in the builder.
pub open spec fn shallow(t: Term) -> Step {
    match t {
        Term::Union(c) => Step::Union(slots_of(c)),
        Term::Intersect(c) => Step::Intersect(slots_of(c)),
        Term::Difference(a, b) => Step::Difference(a.0.index, b.0.index),
        Term::Attribute { attr, value } => Step::Attribute { attr, value: value.fingerprint() },
        Term::Edge { dir, label, target } => Step::Edge { dir, label, target: target.0.index },
        Term::SavedQuery(id) => Step::SavedQuery(id),
    }
}

impl Query {
    /// The builder read as a plan: every node in its slot, as it was built,
    /// with `root` as the root. What this plan gives is what the query means.
    pub open spec fn as_plan(self, root: NodeHandle) -> Plan {
        Plan {
            nodes: Seq::new(self.nodes.slots.len(), |i: int| shallow(self.nodes.slots[i].item->0)),
            root: root.0.index,
        }
    }
}

/// Lowering a node keeps its value: where each node that it is made of has
/// at its place the result that it has in the builder, the lowered node has
/// the value of the node.
pub proof fn lemma_lower_keeps_value(
    idx: Indexes,
    t: Term,
    place: Map<usize, NodeIdx>,
    pc: Seq<Set<u64>>,
    pb: Seq<Set<u64>>,
)
    requires
        forall|k: int|
            0 <= k < t.children().len() ==> result_at(
                pc,
                place[(#[trigger] t.children()[k]).0.index] as int,
            ) == result_at(pb, t.children()[k].0.index as int),
    ensures
        value_of(idx, lower(t, place), pc) == value_of(idx, shallow(t), pb),
{
    match t {
        Term::Union(c) => {
            let low = canonical(places(c, place));
            let raw = slots_of(c);
            lemma_canonical(places(c, place));
            lemma_union_over(pc, low, low.len() as int);
            lemma_union_over(pb, raw, raw.len() as int);
            let a = union_over(pc, low, low.len() as int);
            let b = union_over(pb, raw, raw.len() as int);
            assert forall|v: u64| a.contains(v) <==> b.contains(v) by {
                if a.contains(v) {
                    let j = choose|j: int|
                        0 <= j < low.len() && #[trigger] result_at(pc, low[j] as int).contains(v);
                    assert(low.contains(low[j]));
                    assert(places(c, place).contains(low[j]));
                    let k = choose|k: int| 0 <= k < c.len() && places(c, place)[k] == low[j];
                    assert(t.children()[k] == c[k]);
                    assert(result_at(pb, raw[k] as int).contains(v));
                }
                if b.contains(v) {
                    let k = choose|k: int|
                        0 <= k < raw.len() && #[trigger] result_at(pb, raw[k] as int).contains(v);
                    assert(t.children()[k] == c[k]);
                    let x = places(c, place)[k];
                    assert(places(c, place).contains(x));
                    assert(low.contains(x));
                    let j = choose|j: int| 0 <= j < low.len() && low[j] == x;
                    assert(result_at(pc, low[j] as int).contains(v));
                }
            }
            assert(a =~= b);
        },
        Term::Intersect(c) => {
            let low = canonical(places(c, place));
            let raw = slots_of(c);
            lemma_canonical(places(c, place));
            lemma_intersect_over(pc, low, low.len() as int);
            lemma_intersect_over(pb, raw, raw.len() as int);
            let a = intersect_over(pc, low, low.len() as int);
            let b = intersect_over(pb, raw, raw.len() as int);
            assert forall|v: u64| a.contains(v) <==> b.contains(v) by {
                if a.contains(v) {
                    assert(low.contains(low[0]));
                    assert(places(c, place).contains(low[0]));
                    assert forall|k: int| 0 <= k < raw.len() implies #[trigger] result_at(
                        pb,
                        raw[k] as int,
                    ).contains(v) by {
                        assert(t.children()[k] == c[k]);
                        let x = places(c, place)[k];
                        assert(places(c, place).contains(x));
                        assert(low.contains(x));
                        let j = choose|j: int| 0 <= j < low.len() && low[j] == x;
                        assert(result_at(pc, low[j] as int).contains(v));
                    }
                }
                if b.contains(v) {
                    let x0 = places(c, place)[0];
                    assert(places(c, place).contains(x0));
                    assert(low.contains(x0));
                    assert forall|j: int| 0 <= j < low.len() implies #[trigger] result_at(
                        pc,
                        low[j] as int,
                    ).contains(v) by {
                        assert(low.contains(low[j]));
                        assert(places(c, place).contains(low[j]));
                        let k = choose|k: int| 0 <= k < c.len() && places(c, place)[k] == low[j];
                        assert(t.children()[k] == c[k]);
                        assert(result_at(pb, raw[k] as int).contains(v));
                    }
                }
            }
            assert(a =~= b);
        },
        Term::Difference(a, b) => {
            assert(t.children()[0] == a && t.children()[1] == b);
        },
        Term::Edge { target, .. } => {
            assert(t.children()[0] == target);
        },
        _ => {},
    }
}

impl Plan {
    /// The results of the first nodes depend on the first nodes alone.
    pub proof fn lemma_results_of_prefix(self, other: Plan, idx: Indexes, n: int)
        requires
            0 <= n <= self.nodes.len(),
            n <= other.nodes.len(),
            forall|i: int| 0 <= i < n ==> self.nodes[i] == other.nodes[i],
        ensures
            self.results(idx, n) == other.results(idx, n),
        decreases n,
    {
        if n > 0 {
            self.lemma_results_of_prefix(other, idx, n - 1);
        }
    }

    /// The result of a node of a plan is its result in every plan that
    /// begins with the same nodes.
    pub proof fn lemma_result_of_prefix(self, other: Plan, idx: Indexes, i: int)
        requires
            0 <= i < self.nodes.len() <= other.nodes.len(),
            forall|j: int| 0 <= j < self.nodes.len() ==> self.nodes[j] == other.nodes[j],
        ensures
            self.result(idx, i) == other.result(idx, i),
    {
        self.lemma_result(idx, i);
        other.lemma_result(idx, i);
        self.lemma_results_of_prefix(other, idx, i);
    }
}

impl Query {
    /// What the compiler has put out means what was built: each node that
    /// was compiled has at its place the result that it has in the builder.
    pub proof fn lemma_emit_keeps_meaning(
        self,
        idx: Indexes,
        root: NodeHandle,
        order: Seq<NodeHandle>,
        k: int,
    )
        requires
            self.wf(),
            self.live_order(order),
            self.closed(order),
            0 <= k <= order.len() <= usize::MAX,
        ensures
            ({
                let e = self.emit(order, k);
                let cp = Plan { nodes: e.output, root: 0 };
                forall|i: usize|
                    #![trigger e.place.contains_key(i)]
                    e.place.contains_key(i) ==> cp.result(idx, e.place[i] as int)
                        == self.as_plan(root).result(idx, i as int)
            }),
        decreases k,
    {
        if k > 0 {
            self.lemma_emit_keeps_meaning(idx, root, order, k - 1);
            self.lemma_emit(order, k - 1);
            self.lemma_emit(order, k);
            let prev = self.emit(order, k - 1);
            let e = self.emit(order, k);
            let pp = Plan { nodes: prev.output, root: 0 };
            let cp = Plan { nodes: e.output, root: 0 };
            let bp = self.as_plan(root);
            let h = order[k - 1];
            let i0 = h.0.index;
            let t = self.node(h);
            let step = lower(t, prev.place);
            prev.output.index_of_first_ensures(step);
            assert(self.has_node(h));
            assert(self.children_of(h) == t.children());
            assert(bp.nodes[i0 as int] == shallow(t));
            // the place at which the node stands
            let j = e.place[i0] as int;
            assert(e.place.contains_key(i0));
            assert(0 <= j < e.output.len());
            assert(prev.output.len() <= k - 1 <= usize::MAX);
            assert(e.output[j] == step);
            cp.lemma_result(idx, j);
            bp.lemma_result(idx, i0 as int);
            let pc = cp.results(idx, j);
            let pb = bp.results(idx, i0 as int);
            assert forall|c: int| 0 <= c < t.children().len() implies result_at(
                pc,
                prev.place[(#[trigger] t.children()[c]).0.index] as int,
            ) == result_at(pb, t.children()[c].0.index as int) by {
                let child = self.children_of(order[k - 1])[c];
                assert(visited(order.take(k - 1), child.0.index));
                assert(prev.place.contains_key(child.0.index));
                let p = prev.place[child.0.index] as int;
                assert(p < prev.output.len());
                // the child stands before the node, in the builder and in the output
                let slot = self.nodes.slots[i0 as int];
                assert(slot.item->0.children()[c] == child);
                assert(child.0.index < i0);
                self.lemma_lowered_children(t, prev.place, c);
                let at = choose|at: int|
                    0 <= at < step.children().len() && step.children()[at] == p as usize;
                assert(e.output[j].children()[at] < j);
                pp.lemma_result_of_prefix(cp, idx, p);
            }
            lemma_lower_keeps_value(idx, t, prev.place, pc, pb);
            assert forall|i: usize|
                #![trigger e.place.contains_key(i)]
                e.place.contains_key(i) implies cp.result(idx, e.place[i] as int) == bp.result(
                idx,
                i as int,
            ) by {
                if i != i0 {
                    assert(prev.place.contains_key(i));
                    let p = prev.place[i] as int;
                    assert(p < prev.output.len());
                    pp.lemma_result_of_prefix(cp, idx, p);
                }
            }
        }
    }

    /// The place of each node that a node is made of is among the nodes
    /// that the lowered node is made of.
    pub proof fn lemma_lowered_children(self, t: Term, place: Map<usize, NodeIdx>, c: int)
        requires
            0 <= c < t.children().len(),
        ensures
            exists|at: int|
                0 <= at < lower(t, place).children().len() && lower(t, place).children()[at]
                    == place[t.children()[c].0.index],
    {
        let step = lower(t, place);
        let p = place[t.children()[c].0.index];
        match t {
            Term::Union(list) => {
                lemma_canonical(places(list, place));
                assert(places(list, place)[c] == p);
                assert(places(list, place).contains(p));
                assert(canonical(places(list, place)).contains(p));
                let at = choose|at: int|
                    0 <= at < canonical(places(list, place)).len() && canonical(
                        places(list, place),
                    )[at] == p;
                assert(step.children()[at] == p);
            },
            Term::Intersect(list) => {
                lemma_canonical(places(list, place));
                assert(places(list, place)[c] == p);
                assert(places(list, place).contains(p));
                assert(canonical(places(list, place)).contains(p));
                let at = choose|at: int|
                    0 <= at < canonical(places(list, place)).len() && canonical(
                        places(list, place),
                    )[at] == p;
                assert(step.children()[at] == p);
            },
            Term::Difference(a, b) => {
                assert(step.children()[c] == p);
            },
            Term::Edge { target, .. } => {
                assert(step.children()[c] == p);
            },
            _ => {},
        }
    }

    /// Compiling keeps the meaning: over any indexes, the prepared query
    /// gives what the query gives as it was built.
    pub proof fn lemma_compile_keeps_meaning(self, idx: Indexes, root: NodeHandle)
        requires
            self.wf(),
            self.has_node(root),
        ensures
            self.compiled(root).outcome(idx) == self.as_plan(root).outcome(idx),
    {
        let order = self.build_order(root);
        self.lemma_build_order(root);
        self.lemma_emit(order, order.len() as int);
        self.lemma_emit_keeps_meaning(idx, root, order, order.len() as int);
        assert(order.take(order.len() as int) =~= order);
        let e = self.emit(order, order.len() as int);
        assert(e.place.contains_key(root.0.index));
        let cp = Plan { nodes: e.output, root: 0 };
        self.compiled(root).lemma_results_of_prefix(cp, idx, e.output.len() as int);
    }

    /// Compiling a query that was built to mirror a prepared query, node
    /// for node in its slot, gives a prepared query that is in order and
    /// tidy, has no more nodes, and gives over any indexes what the mirrored
    /// query gives. It need not number the nodes as the mirrored query does.
    pub proof fn lemma_mirror_compiles_to_same_outcome(
        self,
        idx: Indexes,
        root: NodeHandle,
        mirrored: Plan,
    )
        requires
            self.wf(),
            self.has_node(root),
            self.as_plan(root) == mirrored,
        ensures
            self.compiled(root).wf(),
            self.compiled(root).tidy(),
            self.compiled(root).nodes.len() <= mirrored.nodes.len(),
            self.compiled(root).outcome(idx) == mirrored.outcome(idx),
    {
        self.lemma_compiled(root);
        self.lemma_compile_keeps_meaning(idx, root);
        let order = self.build_order(root);
        self.lemma_build_order(root);
        self.lemma_emit(order, order.len() as int);
    }

    /// The nodes are walked from `root` in the order of their slots, each of them.
    pub open spec fn in_slot_order(self, root: NodeHandle) -> bool {
        let order = self.build_order(root);
        &&& order.len() == self.nodes.slots.len()
        &&& forall|k: int| 0 <= k < order.len() ==> (#[trigger] order[k]).0.index == k
    }

    /// What the compiler has put out of a tidy query that is walked in the
    /// order of its slots: the first nodes as they were built, each at the
    /// place of its slot.
    proof fn lemma_emit_in_slot_order(self, root: NodeHandle, k: int)
        requires
            self.wf(),
            self.has_node(root),
            self.in_slot_order(root),
            self.as_plan(root).tidy(),
            0 <= k <= self.nodes.slots.len(),
        ensures
            self.emit(self.build_order(root), k) == (Emission {
                output: self.as_plan(root).nodes.take(k),
                place: Map::new(|i: usize| i < k, |i: usize| i),
            }),
        decreases k,
    {
        let order = self.build_order(root);
        let plan = self.as_plan(root);
        let want = Emission {
            output: plan.nodes.take(k),
            place: Map::new(|i: usize| i < k, |i: usize| i),
        };
        if k > 0 {
            self.lemma_emit_in_slot_order(root, k - 1);
            self.lemma_build_order(root);
            let prev = self.emit(order, k - 1);
            let h = order[k - 1];
            let t = self.node(h);
            assert(self.has_node(h));
            assert(h.0.index == k - 1);
            assert(plan.nodes[k - 1] == shallow(t));
            let step = lower(t, prev.place);
            // each node that the node is made of stands at the place of its slot
            let slot = self.nodes.slots[k - 1];
            assert forall|c: int| 0 <= c < t.children().len() implies prev.place[(
            #[trigger] t.children()[c]).0.index] == t.children()[c].0.index by {
                assert(slot.item->0.children()[c].0.index < k - 1);
            }
            match t {
                Term::Union(list) => {
                    assert forall|c: int| 0 <= c < list.len() implies places(list, prev.place)[c]
                        == slots_of(list)[c] by {
                        assert(t.children()[c] == list[c]);
                    }
                    assert(places(list, prev.place) =~= slots_of(list));
                    assert(plan.nodes[k - 1] == Step::Union(slots_of(list)));
                    lemma_canonical_of_ascending(slots_of(list));
                },
                Term::Intersect(list) => {
                    assert forall|c: int| 0 <= c < list.len() implies places(list, prev.place)[c]
                        == slots_of(list)[c] by {
                        assert(t.children()[c] == list[c]);
                    }
                    assert(places(list, prev.place) =~= slots_of(list));
                    assert(plan.nodes[k - 1] == Step::Intersect(slots_of(list)));
                    lemma_canonical_of_ascending(slots_of(list));
                },
                Term::Difference(a, b) => {
                    assert(t.children()[0] == a && t.children()[1] == b);
                },
                Term::Edge { target, .. } => {
                    assert(t.children()[0] == target);
                },
                _ => {},
            }
            assert(step == shallow(t));
            // no equal node stands before it
            prev.output.index_of_first_ensures(step);
            if prev.output.index_of_first(step) is Some {
                let i = prev.output.index_of_first(step)->0;
                assert(plan.nodes[i] == plan.nodes[k - 1]);
                assert(false);
            }
            let e = self.emit(order, k);
            assert(e.output =~= want.output);
            assert(e.place =~= want.place);
        } else {
            assert(want.output =~= Seq::empty());
            assert(want.place =~= Map::empty());
        }
    }

    /// Compiling is idempotent on what it puts out in slot order: a query
    /// whose nodes are tidy and are walked from the root in the order of
    /// their slots is compiled to itself.
    pub proof fn lemma_compiles_to_itself(self, root: NodeHandle)
        requires
            self.wf(),
            self.has_node(root),
            self.in_slot_order(root),
            self.as_plan(root).tidy(),
        ensures
            self.compiled(root) == self.as_plan(root),
    {
        let n = self.nodes.slots.len() as int;
        self.lemma_emit_in_slot_order(root, n);
        let plan = self.as_plan(root);
        assert(plan.nodes.take(n) =~= plan.nodes);
    }

    /// What the compiler has put out stays: after more nodes the output
    /// begins with what it was, and has grown by one node for each of them
    /// at most.
    pub proof fn lemma_emit_grows(self, order: Seq<NodeHandle>, k: int, n: int)
        requires
            0 <= k <= n,
        ensures
            self.emit(order, k).output.len() <= self.emit(order, n).output.len(),
            self.emit(order, n).output.len() - self.emit(order, k).output.len() <= n - k,
            self.emit(order, n).output.take(self.emit(order, k).output.len() as int) == self.emit(
                order,
                k,
            ).output,
        decreases n - k,
    {
        let small = self.emit(order, k).output;
        if k < n {
            self.lemma_emit_grows(order, k, n - 1);
            let prev = self.emit(order, n - 1).output;
            let all = self.emit(order, n).output;
            assert(all.take(prev.len() as int) =~= prev);
            assert(all.take(small.len() as int) =~= prev.take(small.len() as int));
        } else {
            assert(small.take(small.len() as int) =~= small);
        }
    }

    /// Where a tidy query is compiled to its own nodes, the compiler has
    /// put out the first nodes as they were built, each at the place of its
    /// slot, and has walked them in the order of their slots.
    proof fn lemma_emit_of_own_nodes(self, root: NodeHandle, k: int)
        requires
            self.wf(),
            self.has_node(root),
            self.as_plan(root).tidy(),
            self.compiled(root).nodes == self.as_plan(root).nodes,
            0 <= k <= self.nodes.slots.len(),
        ensures
            self.build_order(root).len() == self.nodes.slots.len(),
            self.emit(self.build_order(root), k) == (Emission {
                output: self.as_plan(root).nodes.take(k),
                place: Map::new(|i: usize| i < k, |i: usize| i),
            }),
            forall|a: int| 0 <= a < k ==> (#[trigger] self.build_order(root)[a]).0.index == a,
        decreases k,
    {
        let order = self.build_order(root);
        let plan = self.as_plan(root);
        let size = self.nodes.slots.len() as int;
        let want = Emission {
            output: plan.nodes.take(k),
            place: Map::new(|i: usize| i < k, |i: usize| i),
        };
        self.lemma_build_order(root);
        self.lemma_emit(order, order.len() as int);
        // every node of the order was put out as a node of its own
        assert(order.len() == size);
        if k > 0 {
            self.lemma_emit_of_own_nodes(root, k - 1);
            self.lemma_emit(order, k - 1);
            self.lemma_emit(order, k);
            self.lemma_emit_grows(order, k, size);
            self.lemma_emit_grows(order, k - 1, k);
            let prev = self.emit(order, k - 1);
            let e = self.emit(order, k);
            let h = order[k - 1];
            let i = h.0.index as int;
            let t = self.node(h);
            assert(self.has_node(h));
            assert(plan.nodes[i] == shallow(t));
            let step = lower(t, prev.place);
            prev.output.index_of_first_ensures(step);
            assert(e.output.len() == k);
            assert(e.output == prev.output.push(step));
            assert(e.output[k - 1] == plan.nodes.take(k)[k - 1]);
            assert(step == plan.nodes[k - 1]);
            // each node that the node is made of stands at the place of its slot
            assert(self.children_of(h) == t.children());
            assert forall|c: int| 0 <= c < t.children().len() implies prev.place[(
            #[trigger] t.children()[c]).0.index] == t.children()[c].0.index by {
                let child = self.children_of(order[k - 1])[c];
                assert(visited(order.take(k - 1), child.0.index));
                let b = choose|b: int|
                    0 <= b < order.take(k - 1).len() && (#[trigger] order.take(k - 1)[b]).0.index
                        == child.0.index;
                assert(order[b].0.index == b);
            }
            match t {
                Term::Union(list) => {
                    assert forall|c: int| 0 <= c < list.len() implies places(list, prev.place)[c]
                        == slots_of(list)[c] by {
                        assert(t.children()[c] == list[c]);
                    }
                    assert(places(list, prev.place) =~= slots_of(list));
                    assert(plan.nodes[i] == Step::Union(slots_of(list)));
                    lemma_canonical_of_ascending(slots_of(list));
                },
                Term::Intersect(list) => {
                    assert forall|c: int| 0 <= c < list.len() implies places(list, prev.place)[c]
                        == slots_of(list)[c] by {
                        assert(t.children()[c] == list[c]);
                    }
                    assert(places(list, prev.place) =~= slots_of(list));
                    assert(plan.nodes[i] == Step::Intersect(slots_of(list)));
                    lemma_canonical_of_ascending(slots_of(list));
                },
                Term::Difference(a, b) => {
                    assert(t.children()[0] == a && t.children()[1] == b);
                },
                Term::Edge { target, .. } => {
                    assert(t.children()[0] == target);
                },
                _ => {},
            }
            assert(step == shallow(t));
            // no node stands twice in a tidy query
            if i != k - 1 {
                if i < k - 1 {
                    assert(plan.nodes[i] != plan.nodes[k - 1]);
                } else {
                    assert(plan.nodes[k - 1] != plan.nodes[i]);
                }
            }
            assert(i == k - 1);
            assert(e.output =~= want.output);
            assert(e.place =~= want.place);
        } else {
            assert(want.output =~= Seq::empty());
            assert(want.place =~= Map::empty());
        }
    }

    /// A tidy query is compiled to itself only where its nodes are walked
    /// from the root in the order of their slots.
    pub proof fn lemma_compiled_to_itself_is_in_slot_order(self, root: NodeHandle)
        requires
            self.wf(),
            self.has_node(root),
            self.as_plan(root).tidy(),
            self.compiled(root) == self.as_plan(root),
        ensures
            self.in_slot_order(root),
    {
        self.lemma_emit_of_own_nodes(root, self.nodes.slots.len() as int);
    }

    /// Compiler idempotence: the query that mirrors what this query
    /// compiles to, node for node in its slot, compiles to the same prepared
    /// query. This is stated for mirrors that are walked from the root in
    /// the order of their slots, and holds of no other mirror: one that is
    /// walked in another order compiles to the same nodes under other
    /// numbers.
    pub proof fn lemma_compile_is_idempotent(
        self,
        root: NodeHandle,
        mirror: Query,
        mirror_root: NodeHandle,
    )
        requires
            self.wf(),
            self.has_node(root),
            mirror.wf(),
            mirror.has_node(mirror_root),
            mirror.as_plan(mirror_root) == self.compiled(root),
            mirror.in_slot_order(mirror_root),
        ensures
            mirror.compiled(mirror_root) == self.compiled(root),
    {
        self.lemma_compiled(root);
        mirror.lemma_compiles_to_itself(mirror_root);
    }
}

} // verus!
