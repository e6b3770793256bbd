use crate::errors::LatticeError;
use crate::lattice_db::bitmap::{
    encode_error_of, lemma_finite, strictly_ascending, treemap_clone, treemap_decode,
    treemap_decoding, treemap_intersect_with, treemap_is_empty, treemap_new, treemap_size,
    treemap_subtract, treemap_to_vec, treemap_union_with, treemap_values,
};
use crate::props::properties::QUERY_MATCH;
use crate::query::query_builder::EdgeDirection;
use crate::query::query_prepared::{Node, NodeIdx, Plan, PreparedQuery, Step};
use roaring::RoaringTreemap;
use vstd::prelude::*;

verus! {

/// One of the three inverted indexes.
#[derive(Clone, Copy, PartialEq, Eq, Hash, Debug, Structural)]
pub enum Table {
    /// (property id, value hash) to the vertices that have the attribute.
    Scalar,
    /// (vertex id, label) to the vertices that the vertex points at.
    Forward,
    /// (vertex id, label) to the vertices that point at the vertex.
    Reverse,
}

/// A read of one entry of an index.
#[derive(Clone, Copy, PartialEq, Eq, Hash, Debug)]
pub struct Lookup {
    pub table: Table,
    pub key: (u64, u64),
}

/// What the indexes hold: for each table the set of vertex ids under each key.
pub struct Indexes {
    pub scalar: Map<(u64, u64), Set<u64>>,
    pub forward: Map<(u64, u64), Set<u64>>,
    pub reverse: Map<(u64, u64), Set<u64>>,
}

impl Indexes {
    /// The entries of one table.
    pub open spec fn table(self, table: Table) -> Map<(u64, u64), Set<u64>> {
        match table {
            Table::Scalar => self.scalar,
            Table::Forward => self.forward,
            Table::Reverse => self.reverse,
        }
    }

    /// The vertex ids under a key; none where the table has no such key.
    pub open spec fn get(self, table: Table, key: (u64, u64)) -> Set<u64> {
        if self.table(table).contains_key(key) {
            self.table(table)[key]
        } else {
            Set::empty()
        }
    }

    /// Whether `bytes` is what the store holds where the indexes hold this:
    /// nothing for an empty set, or bytes that decode to the set under the key.
    pub open spec fn stores(self, lookup: Lookup, bytes: Option<Seq<u8>>) -> bool {
        match bytes {
            Some(b) => treemap_decoding(b) == Some(self.get(lookup.table, lookup.key)),
            None => self.get(lookup.table, lookup.key) == Set::<u64>::empty(),
        }
    }

    /// The vertices that one hop along `label` leads to from the first `n` vertices of `ids`.
    pub open spec fn hop_over(self, table: Table, label: u64, ids: Seq<u64>, n: int) -> Set<u64>
        decreases n,
    {
        if n <= 0 {
            Set::empty()
        } else {
            self.hop_over(table, label, ids, n - 1).union(self.get(table, (ids[n - 1], label)))
        }
    }

    /// The vertices that one hop along `label` leads to from the vertices of `from`.
    pub open spec fn hop(self, table: Table, label: u64, from: Set<u64>) -> Set<u64> {
        Set::new(
            |v: u64| exists|id: u64| from.contains(id) && #[trigger] self.get(table, (id, label)).contains(v),
        )
    }

    /// A hop from a list of vertices is a hop from the set of its vertices.
    pub proof fn lemma_hop_over(self, table: Table, label: u64, ids: Seq<u64>, n: int)
        requires
            0 <= n <= ids.len(),
        ensures
            self.hop_over(table, label, ids, n) == self.hop(table, label, ids.take(n).to_set()),
        decreases n,
    {
        let lhs = self.hop_over(table, label, ids, n);
        let rhs = self.hop(table, label, ids.take(n).to_set());
        if n > 0 {
            self.lemma_hop_over(table, label, ids, n - 1);
            let front = ids.take(n - 1);
            let all = ids.take(n);
            let prev = self.hop(table, label, front.to_set());
            assert forall|v: u64| lhs.contains(v) <==> rhs.contains(v) by {
                if lhs.contains(v) {
                    if prev.contains(v) {
                        let id = choose|id: u64|
                            front.to_set().contains(id) && #[trigger] self.get(
                                table,
                                (id, label),
                            ).contains(v);
                        assert(front.contains(id));
                        let k = choose|k: int| 0 <= k < front.len() && front[k] == id;
                        assert(all[k] == id);
                        assert(all.contains(id));
                        assert(all.to_set().contains(id));
                    } else {
                        assert(all[n - 1] == ids[n - 1]);
                        assert(all.contains(ids[n - 1]));
                        assert(all.to_set().contains(ids[n - 1]));
                    }
                }
                if rhs.contains(v) {
                    let id = choose|id: u64|
                        all.to_set().contains(id) && #[trigger] self.get(
                            table,
                            (id, label),
                        ).contains(v);
                    assert(all.contains(id));
                    let k = choose|k: int| 0 <= k < all.len() && all[k] == id;
                    if k < n - 1 {
                        assert(front[k] == id);
                        assert(front.contains(id));
                        assert(front.to_set().contains(id));
                        assert(prev.contains(v));
                    }
                }
            }
            assert(lhs =~= rhs);
        } else {
            assert(lhs =~= rhs);
        }
    }
}

/// The result at position `k` of `prior`; the empty set where there is none.
pub open spec fn result_at(prior: Seq<Set<u64>>, k: int) -> Set<u64> {
    if 0 <= k < prior.len() {
        prior[k]
    } else {
        Set::empty()
    }
}

/// The union of the results of the first `n` nodes of `c`.
pub open spec fn union_over(prior: Seq<Set<u64>>, c: Seq<NodeIdx>, n: int) -> Set<u64>
    decreases n,
{
    if n <= 0 {
        Set::empty()
    } else {
        union_over(prior, c, n - 1).union(result_at(prior, c[n - 1] as int))
    }
}

/// The intersection of the results of the first `n` nodes of `c`; the empty
/// set where `n` is 0.
pub open spec fn intersect_over(prior: Seq<Set<u64>>, c: Seq<NodeIdx>, n: int) -> Set<u64>
    decreases n,
{
    if n <= 0 {
        Set::empty()
    } else if n == 1 {
        result_at(prior, c[0] as int)
    } else {
        intersect_over(prior, c, n - 1).intersect(result_at(prior, c[n - 1] as int))
    }
}

/// The index that an edge is followed in.
pub open spec fn table_of(dir: EdgeDirection) -> Table {
    match dir {
        EdgeDirection::Outgoing => Table::Forward,
        EdgeDirection::Incoming => Table::Reverse,
    }
}

/// The read that a node needs where its result is one entry of an index.
pub open spec fn entry_of(step: Step) -> Option<Lookup> {
    match step {
        Step::Attribute { attr, value } => Some(Lookup { table: Table::Scalar, key: (attr.0, value) }),
        Step::SavedQuery(id) => Some(Lookup { table: Table::Scalar, key: (QUERY_MATCH, id) }),
        _ => None,
    }
}

/// The result of a node of set algebra, given the results of the nodes
/// before it: the union, the intersection or the difference of the results
/// that the node names. Other nodes have no such result.
pub open spec fn algebra(step: Step, prior: Seq<Set<u64>>) -> Set<u64> {
    match step {
        Step::Union(c) => union_over(prior, c, c.len() as int),
        Step::Intersect(c) => intersect_over(prior, c, c.len() as int),
        Step::Difference(a, b) => result_at(prior, a as int).difference(result_at(prior, b as int)),
        _ => Set::empty(),
    }
}

/// The result of a node, given the indexes and the results of the nodes before it.
/// * An attribute and a saved query are one entry of the scalar index.
/// * An edge is one hop from the result of its target.
/// * Union, intersection and difference are those of the results they name.
pub open spec fn value_of(idx: Indexes, step: Step, prior: Seq<Set<u64>>) -> Set<u64> {
    match step {
        Step::Union(_) => algebra(step, prior),
        Step::Intersect(_) => algebra(step, prior),
        Step::Difference(_, _) => algebra(step, prior),
        Step::Attribute { attr, value } => idx.get(Table::Scalar, (attr.0, value)),
        Step::Edge { dir, label, target } => idx.hop(
            table_of(dir),
            label.0,
            result_at(prior, target as int),
        ),
        Step::SavedQuery(id) => idx.get(Table::Scalar, (QUERY_MATCH, id)),
    }
}

impl Plan {
    /// The results of the first `n` nodes over the indexes `idx`.
    pub open spec fn results(self, idx: Indexes, n: int) -> Seq<Set<u64>>
        decreases n,
    {
        if n <= 0 {
            Seq::empty()
        } else {
            let prior = self.results(idx, n - 1);
            prior.push(value_of(idx, self.nodes[n - 1], prior))
        }
    }

    /// The result of the query over the indexes `idx`.
    pub open spec fn outcome(self, idx: Indexes) -> Set<u64> {
        result_at(self.results(idx, self.nodes.len() as int), self.root as int)
    }

    /// The results come one for each node, and those of the first nodes do
    /// not depend on how many more are evaluated.
    pub proof fn lemma_results(self, idx: Indexes, m: int, n: int)
        requires
            0 <= m <= n,
        ensures
            self.results(idx, n).len() == n,
            self.results(idx, n).take(m) == self.results(idx, m),
        decreases n,
    {
        if n > 0 {
            if m < n {
                self.lemma_results(idx, m, n - 1);
                assert(self.results(idx, n).take(m) =~= self.results(idx, n - 1).take(m));
            } else {
                self.lemma_results(idx, n - 1, n - 1);
                assert(self.results(idx, n).take(n) =~= self.results(idx, n));
            }
        } else {
            assert(self.results(idx, 0).take(0) =~= self.results(idx, 0));
        }
    }
}

/// A value is in the union of the results of some nodes where it is in the
/// result of one of them.
pub proof fn lemma_union_over(prior: Seq<Set<u64>>, c: Seq<NodeIdx>, n: int)
    requires
        0 <= n <= c.len(),
    ensures
        forall|v: u64|
            #[trigger] union_over(prior, c, n).contains(v) <==> exists|k: int|
                0 <= k < n && #[trigger] result_at(prior, c[k] as int).contains(v),
    decreases n,
{
    if n > 0 {
        lemma_union_over(prior, c, n - 1);
        assert forall|v: u64|
            #[trigger] union_over(prior, c, n).contains(v) <==> exists|k: int|
                0 <= k < n && #[trigger] result_at(prior, c[k] as int).contains(v) by {
            if union_over(prior, c, n - 1).contains(v) {
                let k = choose|k: int|
                    0 <= k < n - 1 && #[trigger] result_at(prior, c[k] as int).contains(v);
                assert(0 <= k < n && result_at(prior, c[k] as int).contains(v));
            }
            if exists|k: int| 0 <= k < n && #[trigger] result_at(prior, c[k] as int).contains(v) {
                let k = choose|k: int|
                    0 <= k < n && #[trigger] result_at(prior, c[k] as int).contains(v);
                if k < n - 1 {
                    assert(union_over(prior, c, n - 1).contains(v));
                }
            }
        }
    }
}

/// A value is in the intersection of the results of some nodes where there
/// is such a node and the value is in the result of each.
pub proof fn lemma_intersect_over(prior: Seq<Set<u64>>, c: Seq<NodeIdx>, n: int)
    requires
        0 <= n <= c.len(),
    ensures
        forall|v: u64|
            #[trigger] intersect_over(prior, c, n).contains(v) <==> n >= 1 && forall|k: int|
                0 <= k < n ==> #[trigger] result_at(prior, c[k] as int).contains(v),
    decreases n,
{
    if n > 1 {
        lemma_intersect_over(prior, c, n - 1);
        assert forall|v: u64|
            #[trigger] intersect_over(prior, c, n).contains(v) <==> n >= 1 && forall|k: int|
                0 <= k < n ==> #[trigger] result_at(prior, c[k] as int).contains(v) by {
            if intersect_over(prior, c, n).contains(v) {
                assert(intersect_over(prior, c, n - 1).contains(v));
                assert forall|k: int| 0 <= k < n implies #[trigger] result_at(
                    prior,
                    c[k] as int,
                ).contains(v) by {
                    if k < n - 1 {
                    }
                }
            }
            if forall|k: int| 0 <= k < n ==> #[trigger] result_at(prior, c[k] as int).contains(v) {
                assert(result_at(prior, c[n - 1] as int).contains(v));
                assert(intersect_over(prior, c, n - 1).contains(v));
            }
        }
    } else if n == 1 {
        assert forall|v: u64|
            #[trigger] intersect_over(prior, c, n).contains(v) <==> n >= 1 && forall|k: int|
                0 <= k < n ==> #[trigger] result_at(prior, c[k] as int).contains(v) by {
            if intersect_over(prior, c, n).contains(v) {
                assert(result_at(prior, c[0] as int).contains(v));
            }
        }
    }
}

/// The result of a union has at least as many vertices as the result of
/// each node it is made of.
pub proof fn lemma_union_grows(idx: Indexes, prior: Seq<Set<u64>>, c: Seq<NodeIdx>, k: int)
    requires
        0 <= k < c.len(),
    ensures
        value_of(idx, Step::Union(c), prior).len() >= result_at(prior, c[k] as int).len(),
{
    let whole = value_of(idx, Step::Union(c), prior);
    let part = result_at(prior, c[k] as int);
    lemma_union_over(prior, c, c.len() as int);
    lemma_finite(whole);
    assert forall|v: u64| part.contains(v) implies whole.contains(v) by {
        assert(result_at(prior, c[k] as int).contains(v));
    }
    vstd::set_lib::lemma_len_subset(part, whole);
}

/// The result of an intersection has at most as many vertices as the result
/// of each node it is made of.
pub proof fn lemma_intersect_shrinks(idx: Indexes, prior: Seq<Set<u64>>, c: Seq<NodeIdx>, k: int)
    requires
        0 <= k < c.len(),
    ensures
        value_of(idx, Step::Intersect(c), prior).len() <= result_at(prior, c[k] as int).len(),
{
    let whole = value_of(idx, Step::Intersect(c), prior);
    let part = result_at(prior, c[k] as int);
    lemma_intersect_over(prior, c, c.len() as int);
    lemma_finite(part);
    assert forall|v: u64| whole.contains(v) implies part.contains(v) by {
        assert(intersect_over(prior, c, c.len() as int).contains(v));
    }
    vstd::set_lib::lemma_len_subset(whole, part);
}

/// The sets that a list of bitmaps holds.
pub open spec fn sets_of(bitmaps: Seq<RoaringTreemap>) -> Seq<Set<u64>> {
    bitmaps.map_values(|t: RoaringTreemap| treemap_values(t))
}

/// The positions of `sizes` in ascending order of size, positions of one
/// size in ascending order.
fn order_by_size(sizes: &Vec<u64>) -> (order: Vec<usize>)
    ensures
        order@.len() == sizes@.len(),
        forall|j: int| 0 <= j < order@.len() ==> (#[trigger] order@[j]) < sizes@.len(),
        forall|k: usize| k < sizes@.len() ==> #[trigger] order@.contains(k),
        forall|a: int, b: int|
            0 <= a < b < order@.len() ==> sizes@[order@[a] as int] < sizes@[order@[b] as int] || (
            sizes@[order@[a] as int] == sizes@[order@[b] as int] && order@[a] < order@[b]),
{
    let mut order: Vec<usize> = Vec::new();
    let mut i: usize = 0;
    while i < sizes.len()
        invariant
            i <= sizes.len(),
            order@.len() == i,
            forall|j: int| 0 <= j < order@.len() ==> (#[trigger] order@[j]) < i,
            forall|k: usize| k < i ==> #[trigger] order@.contains(k),
            forall|a: int, b: int|
                0 <= a < b < order@.len() ==> sizes@[order@[a] as int] < sizes@[order@[b] as int]
                    || (sizes@[order@[a] as int] == sizes@[order@[b] as int] && order@[a]
                    < order@[b]),
        decreases sizes.len() - i,
    {
        let size = sizes[i];
        let mut j: usize = order.len();
        while j > 0 && sizes[order[j - 1]] > size
            invariant
                j <= order.len(),
                order@.len() == i,
                i < sizes.len(),
                size == sizes@[i as int],
                forall|t: int| 0 <= t < order@.len() ==> (#[trigger] order@[t]) < i,
                forall|t: int| j <= t < order@.len() ==> sizes@[(#[trigger] order@[t]) as int] > size,
            decreases j,
        {
            j -= 1;
        }
        let ghost before = order@;
        order.insert(j, i);
        proof {
            assert forall|k: usize| k < i + 1 implies #[trigger] order@.contains(k) by {
                if k < i {
                    assert(before.contains(k));
                    let t = choose|t: int| 0 <= t < before.len() && before[t] == k;
                    if t < j {
                        assert(order@[t] == k);
                    } else {
                        assert(order@[t + 1] == k);
                    }
                } else {
                    assert(order@[j as int] == i);
                }
            }
            assert forall|a: int, b: int| 0 <= a < b < order@.len() implies sizes@[order@[a] as int]
                < sizes@[order@[b] as int] || (sizes@[order@[a] as int] == sizes@[order@[b] as int]
                && order@[a] < order@[b]) by {
                let pa = if a < j {
                    a
                } else {
                    a - 1
                };
                let pb = if b < j {
                    b
                } else {
                    b - 1
                };
                if a != j && b != j {
                    assert(order@[a] == before[pa] && order@[b] == before[pb]);
                } else if a == j {
                    assert(order@[b] == before[pb]);
                } else {
                    assert(order@[a] == before[pa]);
                    if j > 0 {
                        assert(sizes@[before[j - 1] as int] <= size);
                        if a < j - 1 {
                            assert(sizes@[before[a] as int] < sizes@[before[j - 1] as int] || (
                            sizes@[before[a] as int] == sizes@[before[j - 1] as int] && before[a]
                                < before[j - 1]));
                        }
                    }
                }
            }
        }
        i += 1;
    }
    order
}

/// The union of the results of the nodes of `children`.
fn union_node(results: &Vec<RoaringTreemap>, children: &Vec<NodeIdx>) -> (res: RoaringTreemap)
    requires
        forall|k: int| 0 <= k < children@.len() ==> (#[trigger] children@[k]) < results@.len(),
    ensures
        treemap_values(res) == union_over(sets_of(results@), children@, children@.len() as int),
{
    let mut res = treemap_new();
    let mut k: usize = 0;
    while k < children.len()
        invariant
            k <= children.len(),
            forall|j: int| 0 <= j < children@.len() ==> (#[trigger] children@[j]) < results@.len(),
            treemap_values(res) == union_over(sets_of(results@), children@, k as int),
        decreases children.len() - k,
    {
        assert(children@[k as int] < results@.len());
        treemap_union_with(&mut res, &results[children[k]]);
        proof {
            let c = children@[k as int] as int;
            assert(result_at(sets_of(results@), c) == treemap_values(results@[c]));
        }
        k += 1;
    }
    res
}

/// The intersection of the results of the nodes of `children`, taken from
/// the smallest result up, and given up once nothing is left.
fn intersect_node(results: &Vec<RoaringTreemap>, children: &Vec<NodeIdx>) -> (res: RoaringTreemap)
    requires
        forall|k: int| 0 <= k < children@.len() ==> (#[trigger] children@[k]) < results@.len(),
    ensures
        treemap_values(res) == intersect_over(sets_of(results@), children@, children@.len() as int),
{
    // get first child then intersect it sequentially with other children
    if children.len() == 0 {
        return treemap_new();
    }
    let ghost prior = sets_of(results@);
    let ghost goal = intersect_over(prior, children@, children@.len() as int);
    let mut sizes: Vec<u64> = Vec::new();
    let mut i: usize = 0;
    while i < children.len()
        invariant
            i <= children.len(),
            sizes@.len() == i,
            forall|k: int| 0 <= k < children@.len() ==> (#[trigger] children@[k]) < results@.len(),
        decreases children.len() - i,
    {
        assert(children@[i as int] < results@.len());
        sizes.push(treemap_size(&results[children[i]]));
        i += 1;
    }
    let order = order_by_size(&sizes);
    proof {
        lemma_intersect_over(prior, children@, children@.len() as int);
    }
    assert(children@[order@[0] as int] < results@.len());
    let mut res = treemap_clone(&results[children[order[0]]]);
    let mut j: usize = 1;
    let mut live = true;
    proof {
        let first = children@[order@[0] as int] as int;
        assert(result_at(prior, first) == treemap_values(results@[first]));
        assert forall|v: u64|
            #[trigger] treemap_values(res).contains(v) <==> forall|t: int|
                0 <= t < 1 ==> #[trigger] result_at(
                    prior,
                    children@[order@[t] as int] as int,
                ).contains(v) by {
            if treemap_values(res).contains(v) {
            }
            if forall|t: int|
                0 <= t < 1 ==> #[trigger] result_at(
                    prior,
                    children@[order@[t] as int] as int,
                ).contains(v) {
                assert(result_at(prior, children@[order@[0] as int] as int).contains(v));
            }
        }
    }
    while j < order.len() && live
        invariant
            1 <= j <= order.len(),
            order@.len() == children@.len(),
            prior == sets_of(results@),
            forall|k: int| 0 <= k < children@.len() ==> (#[trigger] children@[k]) < results@.len(),
            forall|t: int| 0 <= t < order@.len() ==> (#[trigger] order@[t]) < children@.len(),
            forall|v: u64|
                #[trigger] treemap_values(res).contains(v) <==> forall|t: int|
                    0 <= t < j ==> #[trigger] result_at(
                        prior,
                        children@[order@[t] as int] as int,
                    ).contains(v),
            !live ==> treemap_values(res) == Set::<u64>::empty(),
        decreases order.len() - j,
    {
        let ghost before = treemap_values(res);
        assert(children@[order@[j as int] as int] < results@.len());
        treemap_intersect_with(&mut res, &results[children[order[j]]]);
        proof {
            let next = children@[order@[j as int] as int] as int;
            assert(result_at(prior, next) == treemap_values(results@[next]));
            assert forall|v: u64|
                #[trigger] treemap_values(res).contains(v) <==> forall|t: int|
                    0 <= t < j + 1 ==> #[trigger] result_at(
                        prior,
                        children@[order@[t] as int] as int,
                    ).contains(v) by {
                if treemap_values(res).contains(v) {
                    assert(before.contains(v));
                }
                if forall|t: int|
                    0 <= t < j + 1 ==> #[trigger] result_at(
                        prior,
                        children@[order@[t] as int] as int,
                    ).contains(v) {
                    assert(result_at(prior, children@[order@[j as int] as int] as int).contains(v));
                    assert(before.contains(v));
                }
            }
        }
        j += 1;
        if treemap_is_empty(&res) {
            live = false;
        }
    }
    proof {
        assert forall|v: u64| treemap_values(res).contains(v) <==> goal.contains(v) by {
            if treemap_values(res).contains(v) {
                assert forall|k: int| 0 <= k < children@.len() implies #[trigger] result_at(
                    prior,
                    children@[k] as int,
                ).contains(v) by {
                    assert(order@.contains(k as usize));
                    let t = choose|t: int| 0 <= t < order@.len() && order@[t] == k as usize;
                    assert(order@[t] as int == k);
                    assert(result_at(prior, children@[order@[t] as int] as int).contains(v));
                }
            }
            if goal.contains(v) {
                assert forall|t: int| 0 <= t < j implies #[trigger] result_at(
                    prior,
                    children@[order@[t] as int] as int,
                ).contains(v) by {
                    assert(0 <= order@[t] < children@.len());
                    assert(result_at(prior, children@[order@[t] as int] as int).contains(v));
                }
            }
        }
        assert(treemap_values(res) =~= goal);
    }
    res
}

/// What an evaluation needs next, or what it came to.
#[derive(Debug)]
pub enum Progress {
    /// The entry of an index that has to be read and handed in.
    Need(Lookup),
    /// The result of the query: the vertex ids in ascending order.
    Done(Vec<u64>),
}

/// One hop in progress: the vertices to start from, how many of them were
/// followed, and where that led.
struct EdgeScan {
    ids: Vec<u64>,
    at: usize,
    found: RoaringTreemap,
}

/// A hop in progress, by content.
pub struct Scan {
    pub ids: Seq<u64>,
    pub at: int,
    pub found: Set<u64>,
}

/// The evaluation of a prepared query, node by node in prepared order. It
/// reads no index itself: it asks for the entries it needs, one at a time.
pub struct Search<'a> {
    query: &'a PreparedQuery,
    results: Vec<RoaringTreemap>,
    scan: Option<EdgeScan>,
}

/// The state of an evaluation.
pub struct SearchState {
    pub plan: Plan,
    /// The results of the nodes that are done.
    pub results: Seq<Set<u64>>,
    /// The hop in progress, where the next node is an edge.
    pub scan: Option<Scan>,
}

impl<'a> View for Search<'a> {
    type V = SearchState;

    closed spec fn view(&self) -> SearchState {
        SearchState {
            plan: self.query@,
            results: sets_of(self.results@),
            scan: match self.scan {
                Some(s) => Some(Scan { ids: s.ids@, at: s.at as int, found: treemap_values(s.found) }),
                None => None,
            },
        }
    }
}

impl SearchState {
    /// The node that is evaluated next.
    pub open spec fn next(self) -> Step {
        self.plan.nodes[self.results.len() as int]
    }

    /// Every node is done.
    pub open spec fn complete(self) -> bool {
        self.results.len() == self.plan.nodes.len()
    }

    /// The state's invariant: the plan is in order, and a hop in progress
    /// is the hop of the next node, from the vertices of its target.
    pub open spec fn wf(self) -> bool {
        &&& self.plan.wf()
        &&& self.results.len() <= self.plan.nodes.len()
        &&& self.scan matches Some(s) ==> {
            &&& !self.complete()
            &&& self.next() is Edge
            &&& strictly_ascending(s.ids)
            &&& s.ids.to_set() == result_at(self.results, self.next()->target as int)
            &&& 0 <= s.at <= s.ids.len()
        }
    }

    /// The entry of an index that the evaluation waits for, if it waits.
    pub open spec fn pending(self) -> Option<Lookup> {
        if self.complete() {
            None
        } else {
            match self.next() {
                Step::Edge { dir, label, .. } => match self.scan {
                    Some(s) => if s.at < s.ids.len() {
                        Some(Lookup { table: table_of(dir), key: (s.ids[s.at], label.0) })
                    } else {
                        None
                    },
                    None => None,
                },
                step => entry_of(step),
            }
        }
    }

    /// What is done so far is what the plan gives over the indexes `idx`.
    pub open spec fn agrees(self, idx: Indexes) -> bool {
        &&& self.results == self.plan.results(idx, self.results.len() as int)
        &&& self.scan matches Some(s) ==> self.next() matches Step::Edge { dir, label, .. }
            ==> s.found == idx.hop_over(table_of(dir), label.0, s.ids, s.at)
    }

    /// The state after the set `set` was handed in for the pending entry:
    /// it is the result of an attribute or a saved query, or one more part
    /// of the hop in progress.
    pub open spec fn supplied(self, set: Set<u64>) -> SearchState {
        match self.scan {
            Some(s) => SearchState {
                scan: Some(Scan { ids: s.ids, at: s.at + 1, found: s.found.union(set) }),
                ..self
            },
            None => SearchState { results: self.results.push(set), ..self },
        }
    }

    /// Whether the result of the node at `j`, which the state `before` did
    /// not have, follows from the results before it and from `before`.
    /// * A node of set algebra has the result of the algebra.
    /// * An edge whose hop `before` had in progress has what the hop had
    ///   found, and the hop had followed every vertex.
    /// * Another edge has no result, and its target has none.
    pub open spec fn derived(self, before: SearchState, j: int) -> bool {
        match self.plan.nodes[j] {
            Step::Edge { target, .. } => if j == before.results.len() && before.scan is Some {
                before.scan->0.at == before.scan->0.ids.len() && self.results[j]
                    == before.scan->0.found
            } else {
                result_at(self.results, target as int) == Set::<u64>::empty() && self.results[j]
                    == Set::<u64>::empty()
            },
            step => self.results[j] == algebra(step, self.results.take(j)),
        }
    }

    /// What evaluating on makes of the state `before`: the plan is the
    /// same, what was done stays, each node that is done now has the result
    /// that follows from the results before it, and none of them is an
    /// attribute or a saved query.
    /// * A hop that is in progress is the one of `before`, where `before`
    ///   had one and its edge is not done, else a new one.
    pub open spec fn follows(self, before: SearchState) -> bool {
        let done = before.results.len() as int;
        &&& self.plan == before.plan
        &&& done <= self.results.len()
        &&& self.results.take(done) == before.results
        &&& forall|j: int| done <= j < self.results.len() ==> #[trigger] self.derived(before, j)
        &&& forall|j: int|
            done <= j < self.results.len() ==> entry_of(#[trigger] self.plan.nodes[j]) is None
        &&& if self.results.len() == done && before.scan is Some {
            self.scan == before.scan
        } else {
            self.scan matches Some(s) ==> s.at == 0 && s.found == Set::<u64>::empty()
        }
    }

    /// Handing in what the store holds under the pending entry, where the
    /// store holds what the indexes hold, keeps the state in agreement with
    /// the indexes: the bytes decode, and they decode to the set of the entry.
    pub proof fn lemma_supplied_from_store(self, idx: Indexes, bytes: Option<Seq<u8>>)
        requires
            self.wf(),
            self.agrees(idx),
            self.pending() is Some,
            idx.stores(self.pending()->0, bytes),
        ensures
            bytes matches Some(b) ==> treemap_decoding(b) is Some,
            self.supplied(
                match bytes {
                    Some(b) => treemap_decoding(b)->0,
                    None => Set::empty(),
                },
            ).agrees(idx),
    {
        let l = self.pending()->0;
        let set = match bytes {
            Some(b) => treemap_decoding(b)->0,
            None => Set::empty(),
        };
        assert(idx.get(l.table, l.key) == set);
        self.lemma_supplied(idx, set);
    }

    /// One more result, the one that follows from the state, keeps a state
    /// that follows from `start` following from `start`.
    pub proof fn lemma_follows_push(self, start: SearchState, next: SearchState, set: Set<u64>)
        requires
            self.wf(),
            self.follows(start),
            !self.complete(),
            entry_of(self.next()) is None,
            next == (SearchState { results: self.results.push(set), scan: None, ..self }),
            set == match self.next() {
                Step::Edge { .. } => match self.scan {
                    Some(s) => s.found,
                    None => Set::empty(),
                },
                step => algebra(step, self.results),
            },
            self.next() is Edge ==> self.scan is Some && self.scan->0.at == self.scan->0.ids.len(),
        ensures
            next.follows(start),
    {
        let done = start.results.len() as int;
        let n = self.results.len() as int;
        assert(next.results.take(done) =~= self.results.take(done));
        assert forall|j: int| done <= j < next.results.len() implies #[trigger] next.derived(
            start,
            j,
        ) by {
            if j < n {
                assert(self.derived(start, j));
                assert(next.results[j] == self.results[j]);
                assert(next.results.take(j) =~= self.results.take(j));
                match self.plan.nodes[j] {
                    Step::Edge { target, .. } => {
                        assert(self.plan.nodes[j].children()[0] == target);
                        assert(target < j);
                        assert(next.results[target as int] == self.results[target as int]);
                    },
                    _ => {},
                }
            } else {
                assert(next.results.take(j) =~= self.results);
                match self.plan.nodes[j] {
                    Step::Edge { target, .. } => {
                        assert(self.plan.nodes[j].children()[0] == target);
                        assert(target < j);
                        assert(next.results[target as int] == self.results[target as int]);
                        let sc = self.scan->0;
                        if !(j == done && start.scan is Some) {
                            // a hop that has nothing to follow starts from no vertex
                            assert(sc.at == 0 && sc.ids.len() == 0);
                            assert(sc.ids.to_set() =~= Set::<u64>::empty());
                        }
                    },
                    _ => {},
                }
            }
        }
    }

    /// Handing in what the indexes store under the pending entry keeps the
    /// state in agreement with the indexes.
    pub proof fn lemma_supplied(self, idx: Indexes, set: Set<u64>)
        requires
            self.wf(),
            self.agrees(idx),
            self.pending() matches Some(l) && idx.get(l.table, l.key) == set,
        ensures
            self.supplied(set).wf(),
            self.supplied(set).agrees(idx),
    {
    }
}

impl<'a> Search<'a> {
    /// Starts the evaluation of a query.
    pub fn new(query: &'a PreparedQuery) -> (s: Self)
        requires
            query@.wf(),
        ensures
            s@ == (SearchState { plan: query@, results: Seq::empty(), scan: None }),
            s@.wf(),
    {
        let s = Search { query, results: Vec::new(), scan: None };
        assert(s@.results =~= Seq::empty());
        s
    }

    /// Records the result of the next node.
    fn push_result(&mut self, bitmap: RoaringTreemap)
        requires
            old(self).scan is None,
        ensures
            final(self)@ == (SearchState {
                results: old(self)@.results.push(treemap_values(bitmap)),
                ..old(self)@
            }),
            final(self).query == old(self).query,
            final(self).scan is None,
    {
        self.results.push(bitmap);
        assert(self@.results =~= old(self)@.results.push(treemap_values(bitmap)));
    }

    /// Evaluates nodes until an entry of an index is needed or every node is done.
    /// * Agreement with any indexes is kept.
    /// * `Need` names the entry that the evaluation now waits for.
    /// * `Done` lists the result of the root, in ascending order.
    pub fn advance(&mut self) -> (r: Progress)
        requires
            old(self)@.wf(),
        ensures
            final(self)@.wf(),
            final(self)@.follows(old(self)@),
            forall|idx: Indexes| old(self)@.agrees(idx) ==> final(self)@.agrees(idx),
            match r {
                Progress::Need(l) => final(self)@.pending() == Some(l),
                Progress::Done(list) => {
                    &&& final(self)@.complete()
                    &&& strictly_ascending(list@)
                    &&& list@.to_set() == result_at(
                        final(self)@.results,
                        final(self)@.plan.root as int,
                    )
                },
            },
    {
        let ghost plan = self@.plan;
        proof {
            assert(self@.results.take(self@.results.len() as int) =~= self@.results);
        }
        while self.results.len() < self.query.nodes.len()
            invariant
                self@.wf(),
                self@.plan == plan,
                plan == old(self)@.plan,
                self.query == old(self).query,
                old(self)@.wf(),
                self@.follows(old(self)@),
                forall|idx: Indexes| old(self)@.agrees(idx) ==> self@.agrees(idx),
            decreases
                    self.query.nodes.len() - self.results.len(),
                    if self.scan is None {
                        1int
                    } else {
                        0int
                    },
        {
            let i = self.results.len();
            let ghost before = self@;
            let ghost prior = before.results;
            let ghost step = plan.nodes[i as int];
            proof {
                assert(step == self.query.nodes@[i as int]@);
                assert forall|k: int| 0 <= k < step.children().len() implies (
                #[trigger] step.children()[k]) < i by {
                    assert(plan.nodes[i as int].children()[k] < i);
                }
            }
            match &self.query.nodes[i] {
                Node::Union(children) => {
                    let res = union_node(&self.results, children);
                    self.push_result(res);
                    proof {
                        assert forall|idx: Indexes| before.agrees(idx) implies self@.agrees(idx) by {
                            assert(value_of(idx, step, prior) == treemap_values(res));
                        }
                        before.lemma_follows_push(old(self)@, self@, treemap_values(res));
                    }
                },
                Node::Intersect(children) => {
                    let res = intersect_node(&self.results, children);
                    self.push_result(res);
                    proof {
                        assert forall|idx: Indexes| before.agrees(idx) implies self@.agrees(idx) by {
                            assert(value_of(idx, step, prior) == treemap_values(res));
                        }
                        before.lemma_follows_push(old(self)@, self@, treemap_values(res));
                    }
                },
                Node::Difference(a, b) => {
                    proof {
                        assert(step.children()[0] == *a && step.children()[1] == *b);
                        assert(prior[*a as int] == treemap_values(self.results@[*a as int]));
                        assert(prior[*b as int] == treemap_values(self.results@[*b as int]));
                    }
                    let mut res = treemap_clone(&self.results[*a]);
                    treemap_subtract(&mut res, &self.results[*b]);  // subtract bitmap
                    self.push_result(res);
                    proof {
                        assert forall|idx: Indexes| before.agrees(idx) implies self@.agrees(idx) by {
                            assert(value_of(idx, step, prior) == treemap_values(res));
                        }
                        before.lemma_follows_push(old(self)@, self@, treemap_values(res));
                    }
                },
                Node::Attribute { attr, value } => {
                    // all vertices with the value, from the index
                    return Progress::Need(Lookup { table: Table::Scalar, key: (attr.0, *value) });
                },
                Node::SavedQuery(id) => {
                    // similar to attribute lookup for pre-saved queries
                    return Progress::Need(Lookup { table: Table::Scalar, key: (QUERY_MATCH, *id) });
                },
                Node::Edge { dir, label, target } => {
                    proof {
                        assert(step.children()[0] == *target);
                        assert(prior[*target as int] == treemap_values(
                            self.results@[*target as int],
                        ));
                    }
                    if self.scan.is_none() {
                        let ids = treemap_to_vec(&self.results[*target]);
                        self.scan = Some(EdgeScan { ids, at: 0, found: treemap_new() });
                        proof {
                            assert(self@.results == prior);
                            assert forall|j: int|
                                old(self)@.results.len() <= j < self@.results.len() implies #[trigger] self@.derived(
                                old(self)@,
                                j,
                            ) by {
                                assert(before.derived(old(self)@, j));
                            }
                        }
                    } else {
                        let (at, count) = match &self.scan {
                            Some(s) => (s.at, s.ids.len()),
                            None => (0, 0),
                        };
                        if at < count {
                            let id = match &self.scan {
                                Some(s) => s.ids[s.at],
                                None => 0,
                            };
                            let table = match dir {
                                EdgeDirection::Outgoing => Table::Forward,  // all vertices that are pointed to by target
                                EdgeDirection::Incoming => Table::Reverse,  // all vertices that point to target
                            };
                            return Progress::Need(Lookup { table, key: (id, label.0) });
                        } else {
                            let found = match self.scan.take() {
                                Some(s) => s.found,
                                None => treemap_new(),
                            };
                            let ghost s = before.scan->0;
                            self.push_result(found);
                            proof {
                                assert forall|idx: Indexes| before.agrees(idx) implies self@.agrees(
                                    idx,
                                ) by {
                                    idx.lemma_hop_over(table_of(*dir), label.0, s.ids, s.at);
                                    assert(s.ids.take(s.at) =~= s.ids);
                                    assert(value_of(idx, step, prior) == treemap_values(found));
                                }
                                before.lemma_follows_push(old(self)@, self@, treemap_values(found));
                            }
                        }
                    }
                },
            }
        }
        let ghost root = self@.plan.root as int;
        assert(sets_of(self.results@)[root] == treemap_values(self.results@[root]));
        let list = treemap_to_vec(&self.results[self.query.root]);
        Progress::Done(list)
    }

    /// Hands in the set that the indexes hold under the pending entry.
    /// * Where no entry is pending, nothing changes.
    pub fn supply_bitmap(&mut self, bitmap: RoaringTreemap)
        requires
            old(self)@.wf(),
        ensures
            final(self)@.wf(),
            final(self)@ == if old(self)@.pending() is Some {
                old(self)@.supplied(treemap_values(bitmap))
            } else {
                old(self)@
            },
    {
        if !self.is_waiting() {
            return;
        }
        let ghost before = self@;
        let ghost held = self.scan;
        assert(before.scan is Some ==> before.next() is Edge && before.scan->0.at
            < before.scan->0.ids.len());
        match self.scan.take() {
            Some(s) => {
                assert(held == Some(s));
                assert(before.scan->0.at == s.at && before.scan->0.ids == s.ids@);
                let EdgeScan { ids, at, found } = s;
                assert(at < ids@.len() && ids@.len() == ids.len());
                let mut found = found;
                treemap_union_with(&mut found, &bitmap);
                self.scan = Some(EdgeScan { ids, at: at + 1, found });
            },
            None => {
                self.push_result(bitmap);
            },
        }
    }

    /// Whether the evaluation waits for an entry of an index.
    pub fn is_waiting(&self) -> (r: bool)
        requires
            self@.wf(),
        ensures
            r == self@.pending() is Some,
    {
        let i = self.results.len();
        if i >= self.query.nodes.len() {
            return false;
        }
        proof {
            assert(self@.next() == self.query.nodes@[i as int]@);
        }
        match &self.query.nodes[i] {
            Node::Attribute { .. } => true,
            Node::SavedQuery(_) => true,
            Node::Edge { .. } => match &self.scan {
                Some(s) => s.at < s.ids.len(),
                None => false,
            },
            _ => false,
        }
    }

    /// Whether the evaluation waits for an entry of a saved query.
    fn waits_for_saved_query(&self) -> (r: bool)
        requires
            self@.wf(),
        ensures
            r == (self@.pending() is Some && self@.next() is SavedQuery),
    {
        let i = self.results.len();
        if i >= self.query.nodes.len() {
            return false;
        }
        proof {
            assert(self@.next() == self.query.nodes@[i as int]@);
        }
        match &self.query.nodes[i] {
            Node::SavedQuery(_) => true,
            _ => false,
        }
    }

    /// Hands in what the store holds under the pending entry: the bytes of
    /// a bitmap, or nothing where the store has no such entry.
    /// * Where no entry is pending, nothing changes.
    /// * Bytes that do not decode are refused, and nothing changes.
    pub fn supply(&mut self, bytes: Option<Vec<u8>>) -> (r: Result<(), LatticeError>)
        requires
            old(self)@.wf(),
        ensures
            final(self)@.wf(),
            match (old(self)@.pending(), bytes) {
                (None, _) => r is Ok && final(self)@ == old(self)@,
                (Some(_), None) => r is Ok && final(self)@ == old(self)@.supplied(Set::empty()),
                (Some(_), Some(b)) => match treemap_decoding(b@) {
                    Some(set) => r is Ok && final(self)@ == old(self)@.supplied(set),
                    None => {
                        &&& final(self)@ == old(self)@
                        &&& r matches Err(e) && if old(self)@.next() is SavedQuery {
                            e is IOError
                        } else {
                            e is BincodeError
                        }
                    },
                },
            },
    {
        if !self.is_waiting() {
            return Ok(());
        }
        let bitmap = match bytes {
            Some(b) => match treemap_decode(b.as_slice()) {
                Ok(t) => t,
                Err(e) => {
                    if self.waits_for_saved_query() {
                        return Err(LatticeError::IOError(e));
                    } else {
                        return Err(LatticeError::BincodeError(encode_error_of(e)));
                    }
                },
            },
            None => treemap_new(),
        };
        self.supply_bitmap(bitmap);
        Ok(())
    }
}

impl Plan {
    /// The result of the node at position `i` over the indexes `idx`.
    pub open spec fn result(self, idx: Indexes, i: int) -> Set<u64> {
        result_at(self.results(idx, self.nodes.len() as int), i)
    }

    /// The result of a node is its value over the results of the nodes before it.
    pub proof fn lemma_result(self, idx: Indexes, i: int)
        requires
            0 <= i < self.nodes.len(),
        ensures
            self.result(idx, i) == value_of(idx, self.nodes[i], self.results(idx, i)),
            forall|c: int| 0 <= c < i ==> result_at(self.results(idx, i), c) == self.result(idx, c),
    {
        let n = self.nodes.len() as int;
        self.lemma_results(idx, i + 1, n);
        self.lemma_results(idx, i, n);
        assert(self.results(idx, n).take(i + 1)[i] == self.results(idx, n)[i]);
        assert forall|c: int| 0 <= c < i implies result_at(self.results(idx, i), c) == self.result(
            idx,
            c,
        ) by {
            assert(self.results(idx, n).take(i)[c] == self.results(idx, n)[c]);
        }
    }

    /// Union is monotone: the result of a union has at least as many
    /// vertices as the result of each node it is made of.
    pub proof fn lemma_union_is_monotone(self, idx: Indexes, i: int, k: int)
        requires
            self.wf(),
            0 <= i < self.nodes.len(),
            self.nodes[i] is Union,
            0 <= k < self.nodes[i].children().len(),
        ensures
            self.result(idx, i).len() >= self.result(idx, self.nodes[i].children()[k] as int).len(),
    {
        let c = self.nodes[i]->Union_0;
        assert(self.nodes[i].children()[k] < i);
        self.lemma_result(idx, i);
        lemma_union_grows(idx, self.results(idx, i), c, k);
    }

    /// Intersection is bounded: the result of an intersection has at most
    /// as many vertices as the result of each node it is made of.
    pub proof fn lemma_intersect_is_bounded(self, idx: Indexes, i: int, k: int)
        requires
            self.wf(),
            0 <= i < self.nodes.len(),
            self.nodes[i] is Intersect,
            0 <= k < self.nodes[i].children().len(),
        ensures
            self.result(idx, i).len() <= self.result(idx, self.nodes[i].children()[k] as int).len(),
    {
        let c = self.nodes[i]->Intersect_0;
        assert(self.nodes[i].children()[k] < i);
        self.lemma_result(idx, i);
        lemma_intersect_shrinks(idx, self.results(idx, i), c, k);
    }
}

impl SearchState {
    /// An evaluation that is done and agrees with the indexes has the
    /// plan's outcome over the indexes as the result of its root.
    pub proof fn lemma_done(self, idx: Indexes)
        requires
            self.wf(),
            self.complete(),
            self.agrees(idx),
        ensures
            result_at(self.results, self.plan.root as int) == self.plan.outcome(idx),
    {
    }
}

} // verus!
