use crate::graph::graph_builder::Graph;
use crate::graph::graph_prepared::{GraphCommitData, VertexRecord};
use crate::lattice_db::writer::Assignment;
use vstd::prelude::*;

verus! {

/// The map from the id of a vertex to the id of the graph that holds it.
pub type GraphMap = Map<u64, u64>;

/// One change of the map from vertices to graphs: the vertex is entered
/// under a graph, or, without a graph, taken out.
#[derive(Clone, Copy, PartialEq, Eq, Debug)]
pub struct MapWrite {
    pub vertex: u64,
    pub graph: Option<u64>,
}

/// The map after one change.
pub open spec fn written(m: GraphMap, w: MapWrite) -> GraphMap {
    match w.graph {
        Some(g) => m.insert(w.vertex, g),
        None => m.remove(w.vertex),
    }
}

/// The map after the first `n` changes of `writes`.
pub open spec fn written_all(m: GraphMap, writes: Seq<MapWrite>, n: int) -> GraphMap
    decreases n,
{
    if n <= 0 {
        m
    } else {
        written(written_all(m, writes, n - 1), writes[n - 1])
    }
}

/// The changes that enter the new vertices of a graph: one for each of the
/// ids that were reserved for it, in ascending order.
pub open spec fn new_vertex_entries(a: Assignment) -> Seq<MapWrite> {
    Seq::new(
        a.new_vertices as nat,
        |k: int| MapWrite { vertex: (a.start_id + k) as u64, graph: Some(a.graph_id) },
    )
}

/// The changes that take the deleted vertices out.
pub open spec fn deleted_vertex_entries(deleted: Seq<u64>) -> Seq<MapWrite> {
    deleted.map_values(|v: u64| MapWrite { vertex: v, graph: None })
}

/// The changes of the map that the commit of one graph stands for: its new
/// vertices are entered, then its deleted vertices are taken out.
pub open spec fn map_writes_of(a: Assignment, deleted: Seq<u64>) -> Seq<MapWrite> {
    new_vertex_entries(a) + deleted_vertex_entries(deleted)
}

/// Whether the id is one of those reserved for the new vertices of a graph.
pub open spec fn reserved(a: Assignment, id: u64) -> bool {
    a.start_id <= id < a.start_id + a.new_vertices
}

/// Whether the map files each of the vertices under the graph.
pub open spec fn files(m: GraphMap, vertices: Seq<VertexRecord>, graph_id: u64) -> bool {
    forall|k: int|
        0 <= k < vertices.len() ==> m.contains_key((#[trigger] vertices[k]).id) && m[vertices[k].id]
            == graph_id
}

/// The changes that enter the new vertices of a graph into the map, to be
/// written before the graph is compared with what it was loaded from.
pub fn new_vertex_writes(a: &Assignment) -> (r: Vec<MapWrite>)
    requires
        a.start_id + a.new_vertices <= u64::MAX,
    ensures
        r@ == new_vertex_entries(*a),
{
    let mut out: Vec<MapWrite> = Vec::new();
    let mut k: u64 = 0;
    while k < a.new_vertices
        invariant
            k <= a.new_vertices,
            a.start_id + a.new_vertices <= u64::MAX,
            out@ == new_vertex_entries(*a).take(k as int),
        decreases a.new_vertices - k,
    {
        out.push(MapWrite { vertex: a.start_id + k, graph: Some(a.graph_id) });
        assert(out@ =~= new_vertex_entries(*a).take(k + 1));
        k += 1;
    }
    assert(new_vertex_entries(*a).take(k as int) =~= new_vertex_entries(*a));
    out
}

/// The changes that take the vertices that a commit deletes out of the map.
pub fn deleted_vertex_writes(data: &GraphCommitData) -> (r: Vec<MapWrite>)
    ensures
        r@ == deleted_vertex_entries(data@.deleted_vertices),
{
    let mut out: Vec<MapWrite> = Vec::new();
    let mut k: usize = 0;
    while k < data.deleted_vertices.len()
        invariant
            k <= data.deleted_vertices.len(),
            out@ == deleted_vertex_entries(data.deleted_vertices@).take(k as int),
        decreases data.deleted_vertices.len() - k,
    {
        out.push(MapWrite { vertex: data.deleted_vertices[k], graph: None });
        assert(out@ =~= deleted_vertex_entries(data.deleted_vertices@).take(k + 1));
        k += 1;
    }
    assert(deleted_vertex_entries(data.deleted_vertices@).take(k as int)
        =~= deleted_vertex_entries(data.deleted_vertices@));
    out
}

/// Changes of one list after another are the changes of the joined list.
pub proof fn lemma_written_all_add(m: GraphMap, a: Seq<MapWrite>, b: Seq<MapWrite>, n: int)
    requires
        0 <= n <= b.len(),
    ensures
        written_all(m, a + b, a.len() + n) == written_all(
            written_all(m, a, a.len() as int),
            b,
            n,
        ),
    decreases n,
{
    if n > 0 {
        lemma_written_all_add(m, a, b, n - 1);
        assert((a + b)[a.len() + n - 1] == b[n - 1]);
    } else {
        lemma_written_all_prefix(m, a, a + b, a.len() as int);
    }
}

/// The first changes of a list are written as the list's prefix is.
pub proof fn lemma_written_all_prefix(m: GraphMap, a: Seq<MapWrite>, b: Seq<MapWrite>, n: int)
    requires
        0 <= n <= a.len(),
        n <= b.len(),
        forall|i: int| 0 <= i < n ==> a[i] == b[i],
    ensures
        written_all(m, a, n) == written_all(m, b, n),
    decreases n,
{
    if n > 0 {
        lemma_written_all_prefix(m, a, b, n - 1);
    }
}

/// After the first `n` new vertices of a graph are entered, the map holds
/// them under the graph, and every other vertex as before.
pub proof fn lemma_entered(m: GraphMap, a: Assignment, n: int, id: u64)
    requires
        0 <= n <= a.new_vertices,
        a.start_id + a.new_vertices <= u64::MAX,
    ensures
        ({
            let after = written_all(m, new_vertex_entries(a), n);
            let new = a.start_id <= id < a.start_id + n;
            &&& after.contains_key(id) <==> new || m.contains_key(id)
            &&& new ==> after[id] == a.graph_id
            &&& !new ==> after[id] == m[id]
        }),
    decreases n,
{
    if n > 0 {
        lemma_entered(m, a, n - 1, id);
    }
}

/// After the first `n` deleted vertices are taken out, the map holds none
/// of them, and every other vertex as before.
pub proof fn lemma_taken_out(m: GraphMap, deleted: Seq<u64>, n: int, id: u64)
    requires
        0 <= n <= deleted.len(),
    ensures
        ({
            let after = written_all(m, deleted_vertex_entries(deleted), n);
            &&& after.contains_key(id) <==> m.contains_key(id) && !deleted.take(n).contains(id)
            &&& after.contains_key(id) ==> after[id] == m[id]
        }),
    decreases n,
{
    if n > 0 {
        lemma_taken_out(m, deleted, n - 1, id);
        let front = deleted.take(n - 1);
        let upto = deleted.take(n);
        assert(upto =~= front.push(deleted[n - 1]));
        if front.contains(id) {
            let k = choose|k: int| 0 <= k < front.len() && front[k] == id;
            assert(upto[k] == id);
        }
        if deleted[n - 1] == id {
            assert(upto[n - 1] == id);
        }
        if upto.contains(id) {
            let k = choose|k: int| 0 <= k < upto.len() && upto[k] == id;
            if k < n - 1 {
                assert(front[k] == id);
            }
        }
    } else {
        assert(!deleted.take(0).contains(id));
    }
}

/// After the changes that the commit of a graph stands for, the map holds
/// a vertex where it is not deleted and was either held before or is one of
/// the new vertices; a new vertex it holds under the graph, any other as
/// before.
pub proof fn lemma_map_writes(m: GraphMap, a: Assignment, deleted: Seq<u64>, id: u64)
    requires
        a.start_id + a.new_vertices <= u64::MAX,
    ensures
        ({
            let writes = map_writes_of(a, deleted);
            let after = written_all(m, writes, writes.len() as int);
            &&& after.contains_key(id) <==> !deleted.contains(id) && (reserved(a, id)
                || m.contains_key(id))
            &&& after.contains_key(id) && reserved(a, id) ==> after[id] == a.graph_id
            &&& after.contains_key(id) && !reserved(a, id) ==> after[id] == m[id]
        }),
{
    let ins = new_vertex_entries(a);
    let del = deleted_vertex_entries(deleted);
    lemma_entered(m, a, a.new_vertices as int, id);
    let mid = written_all(m, ins, ins.len() as int);
    lemma_taken_out(mid, deleted, deleted.len() as int, id);
    lemma_written_all_add(m, ins, del, del.len() as int);
    assert(deleted.take(deleted.len() as int) =~= deleted);
}

/// Where the map files the vertices of two graphs under their graphs, no
/// vertex id appears in both graphs.
pub proof fn lemma_one_graph_per_vertex(
    m: GraphMap,
    first: Seq<VertexRecord>,
    first_id: u64,
    second: Seq<VertexRecord>,
    second_id: u64,
    i: int,
    j: int,
)
    requires
        files(m, first, first_id),
        files(m, second, second_id),
        first_id != second_id,
        0 <= i < first.len(),
        0 <= j < second.len(),
    ensures
        first[i].id != second[j].id,
{
}

impl Graph {
    /// Graph-map functionality. Where the map files the vertices that a
    /// graph was loaded with under the graph, then after the changes that
    /// its commit stands for
    /// * the map files every vertex that is persisted under the graph,
    /// * it holds none of the loaded vertices that are gone,
    /// * and it holds every vertex that is neither new nor deleted as before,
    ///   so what it files under other graphs stays.
    pub proof fn lemma_graph_map_files_the_graph(self, m: GraphMap, a: Assignment)
        requires
            self.wf(),
            a.new_vertices == self.fresh,
            a.start_id + a.new_vertices <= u64::MAX,
            self.separate_ids(a.start_id),
            files(m, self.old_vertices(), a.graph_id),
        ensures
            ({
                let c = self.commit(a.start_id, a.graph_id);
                let writes = map_writes_of(a, c.deleted_vertices);
                let after = written_all(m, writes, writes.len() as int);
                &&& files(after, c.prepared.vertices, a.graph_id)
                &&& forall|p: int|
                    0 <= p < self.old_vertices().len() && !self.carried(p) ==> !after.contains_key(
                        (#[trigger] self.old_vertices()[p]).id,
                    )
                &&& forall|id: u64|
                    !reserved(a, id) && !c.deleted_vertices.contains(id) ==> (
                    #[trigger] after.contains_key(id) <==> m.contains_key(id))
                &&& forall|id: u64|
                    !reserved(a, id) && #[trigger] after.contains_key(id) ==> after[id] == m[id]
            }),
    {
        let n = self.vertices.slots.len() as int;
        let c = self.commit(a.start_id, a.graph_id);
        let writes = map_writes_of(a, c.deleted_vertices);
        let after = written_all(m, writes, writes.len() as int);
        self.lemma_commit_ids(a.start_id, a.graph_id);
        assert forall|k: int| 0 <= k < c.prepared.vertices.len() implies after.contains_key(
            (#[trigger] c.prepared.vertices[k]).id,
        ) && after[c.prepared.vertices[k].id] == a.graph_id by {
            let id = c.prepared.vertices[k].id;
            lemma_map_writes(m, a, c.deleted_vertices, id);
            self.lemma_phase_deletes(a.start_id, n, id);
            if c.deleted_vertices.contains(id) {
                let p = choose|p: int|
                    0 <= p < n && p < self.old_vertices().len() && !self.carried(p) && (
                    #[trigger] self.old_vertices()[p]).id == id;
                if reserved(a, id) {
                    assert(!(a.start_id <= self.old_vertices()[p].id < a.start_id + self.fresh));
                } else {
                    let i = choose|i: int| self.carried(i) && self.old_vertices()[i].id == id;
                    if p < i {
                        assert(self.old_vertices()[p].id != self.old_vertices()[i].id);
                    } else {
                        assert(self.old_vertices()[i].id != self.old_vertices()[p].id);
                    }
                }
            }
            if !reserved(a, id) {
                let i = choose|i: int| self.carried(i) && self.old_vertices()[i].id == id;
                assert(m.contains_key(self.old_vertices()[i].id));
            }
        }
        assert forall|p: int|
            0 <= p < self.old_vertices().len() && !self.carried(p) implies !after.contains_key(
            (#[trigger] self.old_vertices()[p]).id,
        ) by {
            let id = self.old_vertices()[p].id;
            lemma_map_writes(m, a, c.deleted_vertices, id);
            self.lemma_phase_deletes(a.start_id, n, id);
        }
        assert forall|id: u64| !reserved(a, id) && !c.deleted_vertices.contains(id) implies (
        #[trigger] after.contains_key(id) <==> m.contains_key(id)) by {
            lemma_map_writes(m, a, c.deleted_vertices, id);
        }
        assert forall|id: u64| !reserved(a, id) && #[trigger] after.contains_key(id) implies after[id]
            == m[id] by {
            lemma_map_writes(m, a, c.deleted_vertices, id);
        }
    }
}

} // verus!
