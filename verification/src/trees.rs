//! Trees of a query graph: testing for one, cutting one out, and listing those near the
//! cheapest.
use crate::connect::{
    acyclic, acyclic_with_one_more, distinct_ids, ids_of, lemma_empty_partition,
    lemma_partition_step, linked, no_edges_are_acyclic, partition_of,
};
use crate::lookups::{lemma_one_more_place, lists_places};
use crate::order::sorted;
use crate::query::{
    lemma_edge_at, EdgeId, EdgeView, GraphView, QueryEdge, QueryGraph, QueryVertex, VertexId,
    VertexView,
};
use crate::spanning::{ascending_is_unique, copy_ids, sort_ids};
use crate::union_find::{
    partition_is_rooted, redirected, root_in, rooted, together, with_vertex, UnionFind,
};
use std::collections::HashSet;
use vstd::prelude::*;

verus! {

broadcast use vstd::std_specs::hash::group_hash_axioms;

/// Whether a vertex is an end of a chosen edge.
pub open spec fn touches(edges: Seq<EdgeView>, chosen: Set<EdgeId>, v: VertexId) -> bool {
    exists|k: int|
        0 <= k < edges.len() && chosen.contains(edges[k].id) && ((#[trigger] edges[k]).src == v
            || edges[k].dst == v)
}

/// Whether chosen edges form a tree: there are some, they close no cycle, and they join all of
/// their ends.
pub open spec fn is_tree_of(edges: Seq<EdgeView>, chosen: Set<EdgeId>) -> bool {
    &&& exists|id: EdgeId| chosen.contains(id)
    &&& acyclic(edges, chosen)
    &&& forall|a: VertexId, b: VertexId|
        #![trigger linked(edges, chosen, a, b)]
        touches(edges, chosen, a) && touches(edges, chosen, b) ==> linked(edges, chosen, a, b)
}

/// A vertex with a set of its own adds one root; another one adds none.
proof fn lemma_roots_with_vertex(sets: Map<u64, u64>, x: u64)
    requires
        rooted(sets),
        sets.dom().finite(),
        sets.values().finite(),
    ensures
        rooted(with_vertex(sets, x)),
        with_vertex(sets, x).dom() == sets.dom().insert(x),
        with_vertex(sets, x).dom().finite(),
        with_vertex(sets, x).values().finite(),
        with_vertex(sets, x).dom().len() - with_vertex(sets, x).values().len() == sets.dom().len()
            - sets.values().len(),
        root_in(with_vertex(sets, x), x) == root_in(sets, x),
{
    let after = with_vertex(sets, x);
    if sets.contains_key(x) {
        assert(after =~= sets);
        assert(sets.dom().insert(x) =~= sets.dom());
    } else {
        assert(after.values() =~= sets.values().insert(x)) by {
            assert forall|v: u64| after.values().contains(v) <==> sets.values().insert(x).contains(
                v,
            ) by {
                if after.values().contains(v) {
                    let k = choose|k: u64| after.contains_key(k) && #[trigger] after[k] == v;
                    if k != x {
                        assert(sets.contains_key(k) && sets[k] == v);
                    }
                }
                if sets.values().contains(v) {
                    let k = choose|k: u64| sets.contains_key(k) && #[trigger] sets[k] == v;
                    assert(after.contains_key(k) && after[k] == v);
                }
                assert(after.contains_key(x) && after[x] == x);
            }
        }
        assert(!sets.values().contains(x)) by {
            if sets.values().contains(x) {
                let k = choose|k: u64| sets.contains_key(k) && #[trigger] sets[k] == x;
                assert(sets.contains_key(sets[k]));
            }
        }
        assert(after.dom() =~= sets.dom().insert(x));
        assert forall|y: u64| #![trigger after[y]] after.contains_key(y) implies after.contains_key(
            after[y],
        ) && after[after[y]] == after[y] by {
            if y != x {
                assert(sets.contains_key(sets[y]));
            }
        }
    }
}

/// Merging two sets removes one root.
proof fn lemma_roots_redirected(sets: Map<u64, u64>, from: u64, to: u64)
    requires
        rooted(sets),
        sets.dom().finite(),
        sets.values().finite(),
        from != to,
        sets.values().contains(from),
        sets.values().contains(to),
    ensures
        redirected(sets, from, to).dom() == sets.dom(),
        redirected(sets, from, to).values().finite(),
        redirected(sets, from, to).values().len() == sets.values().len() - 1,
{
    let after = redirected(sets, from, to);
    assert(after.dom() =~= sets.dom());
    assert(after.values() =~= sets.values().remove(from)) by {
        assert forall|v: u64| after.values().contains(v) <==> sets.values().remove(from).contains(
            v,
        ) by {
            if after.values().contains(v) {
                let k = choose|k: u64| after.contains_key(k) && #[trigger] after[k] == v;
                assert(sets.contains_key(k));
                if sets[k] == from {
                    assert(v == to);
                } else {
                    assert(sets[k] == v);
                }
            }
            if sets.values().remove(from).contains(v) {
                let k = choose|k: u64| sets.contains_key(k) && #[trigger] sets[k] == v;
                assert(after.contains_key(k) && after[k] == v);
            }
        }
    }
}

/// One root is left exactly where all vertices are together.
proof fn lemma_one_root(sets: Map<u64, u64>)
    requires
        sets.dom().finite(),
        sets.values().finite(),
        exists|v: u64| sets.contains_key(v),
    ensures
        sets.values().len() == 1 <==> forall|a: u64, b: u64|
            #![trigger sets[a], sets[b]]
            sets.contains_key(a) && sets.contains_key(b) ==> sets[a] == sets[b],
{
    let v = choose|v: u64| sets.contains_key(v);
    let values = sets.values();
    assert(values.contains(sets[v]));
    if values.len() == 1 {
        assert forall|a: u64, b: u64|
            #![trigger sets[a], sets[b]]
            sets.contains_key(a) && sets.contains_key(b) implies sets[a] == sets[b] by {
            assert(values.contains(sets[a]) && values.contains(sets[b]));
            Set::lemma_is_singleton(values);
        }
    } else {
        if forall|a: u64, b: u64|
            #![trigger sets[a], sets[b]]
            sets.contains_key(a) && sets.contains_key(b) ==> sets[a] == sets[b] {
            assert(values =~= Set::empty().insert(sets[v])) by {
                assert forall|x: u64| values.contains(x) implies x == sets[v] by {
                    let k = choose|k: u64| sets.contains_key(k) && #[trigger] sets[k] == x;
                }
            }
        }
    }
}

proof fn lemma_take_to_set(ids: Seq<EdgeId>, i: int)
    requires
        ids.no_duplicates(),
        0 <= i < ids.len(),
    ensures
        ids.take(i + 1).to_set() == ids.take(i).to_set().insert(ids[i]),
        !ids.take(i).to_set().contains(ids[i]),
{
    assert(ids.take(i + 1) =~= ids.take(i).push(ids[i]));
    ids.take(i).lemma_push_to_set_commute(ids[i]);
    if ids.take(i).contains(ids[i]) {
        let j = choose|j: int| 0 <= j < i && ids.take(i)[j] == ids[i];
        assert(ids[j] != ids[i]);
    }
}

/// Whether every id of a list is that of an edge.
pub open spec fn all_edges(edges: Seq<EdgeView>, ids: Seq<EdgeId>) -> bool {
    forall|i: int| 0 <= i < ids.len() ==> ids_of(edges).contains(#[trigger] ids[i])
}

proof fn lemma_listed_edge(graph: GraphView, id: EdgeId)
    requires
        ids_of(graph.edges).contains(id),
    ensures
        graph.edge_at(id) is Some,
{
    let ids = graph.edges.map_values(|e: EdgeView| e.id);
    let k = choose|k: int| 0 <= k < ids.len() && ids[k] == id;
    assert(graph.edges[k].id == id);
}

/// An acyclic set of edges is a tree exactly where its partition has one root.
proof fn lemma_tree_by_roots(
    graph: GraphView,
    chosen: Set<EdgeId>,
    sets: Map<u64, u64>,
    some: EdgeId,
)
    requires
        graph.wf(),
        chosen.contains(some),
        ids_of(graph.edges).contains(some),
        partition_of(sets, graph.edges, chosen),
        acyclic(graph.edges, chosen),
        sets.dom().finite(),
        sets.values().finite(),
        forall|v: VertexId| #[trigger]
            sets.contains_key(v) <==> touches(graph.edges, chosen, v),
    ensures
        sets.dom().len() > 0,
        sets.values().len() == 1 <==> is_tree_of(graph.edges, chosen),
{
    let edges = graph.edges;
    lemma_listed_edge(graph, some);
    let p = graph.edge_at(some)->0;
    assert(edges[p].id == some);
    assert(touches(edges, chosen, edges[p].src));
    assert(sets.contains_key(edges[p].src));
    lemma_one_root(sets);
    if sets.values().len() == 1 {
        assert forall|a: VertexId, b: VertexId|
            #![trigger linked(edges, chosen, a, b)]
            touches(edges, chosen, a) && touches(edges, chosen, b) implies linked(
            edges,
            chosen,
            a,
            b,
        ) by {
            assert(sets.contains_key(a) && sets.contains_key(b));
            assert(sets[a] == sets[b]);
            assert(together(sets, a, b));
        }
    }
    if is_tree_of(edges, chosen) {
        assert forall|a: u64, b: u64|
            #![trigger sets[a], sets[b]]
            sets.contains_key(a) && sets.contains_key(b) implies sets[a] == sets[b] by {
            assert(linked(edges, chosen, a, b));
            assert(together(sets, a, b));
        }
    }
    assert(sets.dom().contains(edges[p].src));
}

/// What merging the ends of one more edge does to a partition and to the vertices it has.
proof fn lemma_tree_step(
    graph: GraphView,
    before: Map<u64, u64>,
    after: Map<u64, u64>,
    merged: bool,
    chosen: Set<EdgeId>,
    p: int,
)
    requires
        graph.wf(),
        0 <= p < graph.edges.len(),
        !chosen.contains(graph.edges[p].id),
        rooted(before),
        before.dom().finite(),
        before.values().finite(),
        merged == !together(before, graph.edges[p].src, graph.edges[p].dst),
        ({
            let both = with_vertex(
                with_vertex(before, graph.edges[p].src),
                graph.edges[p].dst,
            );
            let x = root_in(before, graph.edges[p].src);
            let y = root_in(before, graph.edges[p].dst);
            &&& !merged ==> after == both
            &&& merged ==> after == redirected(both, x, y) || after == redirected(both, y, x)
        }),
        forall|v: VertexId| #[trigger]
            before.contains_key(v) <==> touches(graph.edges, chosen, v),
    ensures
        after.dom() == before.dom().insert(graph.edges[p].src).insert(graph.edges[p].dst),
        after.dom().finite(),
        after.values().finite(),
        merged ==> after.dom().len() - after.values().len() == before.dom().len()
            - before.values().len() + 1,
        forall|v: VertexId| #[trigger]
            after.contains_key(v) <==> touches(
                graph.edges,
                chosen.insert(graph.edges[p].id),
                v,
            ),
{
    let edges = graph.edges;
    let more = chosen.insert(edges[p].id);
    let x = edges[p].src;
    let y = edges[p].dst;
    let one = with_vertex(before, x);
    let both = with_vertex(one, y);
    lemma_roots_with_vertex(before, x);
    lemma_roots_with_vertex(one, y);
    if merged {
        let rx = root_in(before, x);
        let ry = root_in(before, y);
        assert(both.contains_key(x) && both[x] == rx);
        assert(both.contains_key(y) && both[y] == ry);
        assert(both.values().contains(rx) && both.values().contains(ry));
        lemma_roots_redirected(both, rx, ry);
        lemma_roots_redirected(both, ry, rx);
    }
    assert forall|v: VertexId| #[trigger] after.contains_key(v) <==> touches(edges, more, v) by {
        assert(after.contains_key(v) <==> both.contains_key(v));
        assert(both.contains_key(v) <==> before.contains_key(v) || v == x || v == y);
        if before.contains_key(v) {
            let k = choose|k: int|
                0 <= k < edges.len() && chosen.contains(edges[k].id) && ((#[trigger] edges[k]).src
                    == v || edges[k].dst == v);
            assert(more.contains(edges[k].id));
        }
        if v == x || v == y {
            assert(more.contains(edges[p].id));
        }
        if touches(edges, more, v) {
            let k = choose|k: int|
                0 <= k < edges.len() && more.contains(edges[k].id) && ((#[trigger] edges[k]).src
                    == v || edges[k].dst == v);
            if chosen.contains(edges[k].id) {
                assert(touches(edges, chosen, v));
            } else {
                lemma_edge_at(graph, k);
                lemma_edge_at(graph, p);
            }
        }
    }
}

impl QueryGraph {
    /// Whether edges form a tree.
    pub fn is_tree(&self, edge_set: &Vec<EdgeId>) -> (result: bool)
        requires
            self@.wf(),
            edge_set@.no_duplicates(),
            all_edges(self@.edges, edge_set@),
        ensures
            result == is_tree_of(self@.edges, edge_set@.to_set()),
    {
        let ghost edges = self@.edges;
        let ghost ids = edge_set@;
        if edge_set.len() == 0 {
            return false;
        }
        let mut sets = UnionFind::new();
        let mut vertices: HashSet<VertexId> = HashSet::new();
        let mut i: usize = 0;
        proof {
            lemma_empty_partition(edges);
            no_edges_are_acyclic(edges);
            assert(ids.take(0).to_set() =~= Set::empty());
            assert(sets@.dom() =~= Set::empty());
            assert(sets@.values() =~= Set::empty());
            assert(ids.to_set().contains(ids[0])) by {
                assert(ids.contains(ids[0]));
            }
        }
        while i < edge_set.len()
            invariant
                self@.wf(),
                edges == self@.edges,
                edges.len() == self.edges@.len(),
                ids == edge_set@,
                ids.no_duplicates(),
                all_edges(edges, ids),
                sets.wf(),
                rooted(sets@),
                i <= ids.len(),
                partition_of(sets@, edges, ids.take(i as int).to_set()),
                acyclic(edges, ids.take(i as int).to_set()),
                vertices@ == sets@.dom(),
                sets@.dom().finite(),
                sets@.values().finite(),
                sets@.values().len() + i == sets@.dom().len(),
                forall|v: VertexId| #[trigger]
                    sets@.contains_key(v) <==> touches(edges, ids.take(i as int).to_set(), v),
            decreases edge_set.len() - i,
        {
            let ghost before = sets@;
            let ghost chosen = ids.take(i as int).to_set();
            let ghost more = ids.take(i + 1).to_set();
            proof {
                lemma_take_to_set(ids, i as int);
                assert(ids_of(edges).contains(ids[i as int]));
                lemma_listed_edge(self@, ids[i as int]);
            }
            let position: usize = self.find_edge(edge_set[i]).unwrap();
            let edge = &self.edges[position];
            let ghost p = position as int;
            assert(edge@ == edges[p]);
            vertices.insert(edge.src_vertex_id);
            vertices.insert(edge.dst_vertex_id);
            let merged = sets.union(edge.src_vertex_id, edge.dst_vertex_id);
            proof {
                partition_is_rooted(sets);
                lemma_partition_step(before, sets@, merged, edges, chosen, p);
                acyclic_with_one_more(edges, chosen, p);
                lemma_tree_step(self@, before, sets@, merged, chosen, p);
                if !merged {
                    assert(!acyclic(edges, more));
                    assert(more.subset_of(ids.to_set())) by {
                        assert forall|id: EdgeId| more.contains(id) implies ids.to_set().contains(
                            id,
                        ) by {
                            let head = ids.take(i + 1);
                            let j = choose|j: int| 0 <= j < head.len() && head[j] == id;
                            assert(ids[j] == id);
                            assert(ids.contains(id));
                        }
                    }
                    if acyclic(edges, ids.to_set()) {
                        crate::connect::acyclic_in_part(edges, more, ids.to_set());
                    }
                }
                assert(vertices@ =~= sets@.dom());
            }
            if !merged {
                return false;
            }
            i = i + 1;
        }
        proof {
            assert(ids.take(ids.len() as int) =~= ids);
            assert(ids_of(edges).contains(ids[0]));
            lemma_tree_by_roots(self@, ids.to_set(), sets@, ids[0]);
        }
        edge_set.len() == vertices.len() - 1
    }
}

/// The edges with the given ids, in the order of the ids.
pub open spec fn edges_with_ids(graph: GraphView, ids: Seq<EdgeId>) -> Seq<EdgeView>
    decreases ids.len(),
{
    if ids.len() == 0 {
        Seq::empty()
    } else {
        match graph.edge(ids.last()) {
            Some(e) => edges_with_ids(graph, ids.drop_last()).push(e),
            None => edges_with_ids(graph, ids.drop_last()),
        }
    }
}

/// The vertices with one more, unless it is among them.
pub open spec fn with_end(graph: GraphView, vertices: Seq<VertexView>, id: VertexId) -> Seq<
    VertexView,
> {
    if has_vertex(vertices, id) || graph.vertex(id) is None {
        vertices
    } else {
        vertices.push(graph.vertex(id)->0)
    }
}

/// Whether a vertex with an id is among vertices.
pub open spec fn has_vertex(vertices: Seq<VertexView>, id: VertexId) -> bool {
    exists|i: int| 0 <= i < vertices.len() && (#[trigger] vertices[i]).id == id
}

/// The ends of edges, each once, in the order in which the edges name them.
pub open spec fn ends_in_order(graph: GraphView, edges: Seq<EdgeView>) -> Seq<VertexView>
    decreases edges.len(),
{
    if edges.len() == 0 {
        Seq::empty()
    } else {
        with_end(
            graph,
            with_end(graph, ends_in_order(graph, edges.drop_last()), edges.last().src),
            edges.last().dst,
        )
    }
}

/// The part of a graph with the given edges and their ends. The index stays that of the graph.
pub open spec fn subgraph(graph: GraphView, ids: Seq<EdgeId>) -> GraphView {
    GraphView {
        vertices: ends_in_order(graph, edges_with_ids(graph, ids)),
        edges: edges_with_ids(graph, ids),
        index: graph.index,
    }
}

/// Vertices of a graph, each once.
spec fn are_vertices(graph: GraphView, vertices: Seq<VertexView>) -> bool {
    &&& forall|i: int, j: int|
        #![trigger vertices[i], vertices[j]]
        0 <= i < j < vertices.len() ==> vertices[i].id != vertices[j].id
    &&& forall|i: int|
        #![trigger vertices[i]]
        0 <= i < vertices.len() ==> graph.vertex(vertices[i].id) == Some(vertices[i])
}

proof fn lemma_with_end(graph: GraphView, vertices: Seq<VertexView>, id: VertexId)
    requires
        graph.wf(),
        are_vertices(graph, vertices),
    ensures
        are_vertices(graph, with_end(graph, vertices, id)),
        graph.vertex(id) is Some ==> has_vertex(with_end(graph, vertices, id), id),
        forall|v: VertexId| has_vertex(vertices, v) ==> #[trigger] has_vertex(with_end(graph, vertices, id), v),
{
    let after = with_end(graph, vertices, id);
    assert forall|v: VertexId| has_vertex(vertices, v) implies #[trigger] has_vertex(after, v) by {
        let i = choose|i: int| 0 <= i < vertices.len() && (#[trigger] vertices[i]).id == v;
        assert(after[i].id == v);
    }
    if !has_vertex(vertices, id) && graph.vertex(id) is Some {
        let v = graph.vertex(id)->0;
        assert(v.id == id);
        assert(after[vertices.len() as int].id == id);
        assert forall|i: int, j: int|
            #![trigger after[i], after[j]]
            0 <= i < j < after.len() implies after[i].id != after[j].id by {
            if j == vertices.len() {
                assert(vertices[i].id != id);
            }
        }
    }
}

proof fn lemma_ends_in_order(graph: GraphView, edges: Seq<EdgeView>)
    requires
        graph.wf(),
        forall|i: int|
            #![trigger edges[i]]
            0 <= i < edges.len() ==> graph.vertex(edges[i].src) is Some && graph.vertex(
                edges[i].dst,
            ) is Some,
    ensures
        are_vertices(graph, ends_in_order(graph, edges)),
        forall|i: int|
            #![trigger edges[i]]
            0 <= i < edges.len() ==> has_vertex(ends_in_order(graph, edges), edges[i].src)
                && has_vertex(ends_in_order(graph, edges), edges[i].dst),
    decreases edges.len(),
{
    if edges.len() > 0 {
        let before = edges.drop_last();
        assert forall|i: int| #![trigger before[i]] 0 <= i < before.len() implies graph.vertex(
            before[i].src,
        ) is Some && graph.vertex(before[i].dst) is Some by {
            assert(before[i] == edges[i]);
        }
        lemma_ends_in_order(graph, before);
        let some = ends_in_order(graph, before);
        lemma_with_end(graph, some, edges.last().src);
        lemma_with_end(graph, with_end(graph, some, edges.last().src), edges.last().dst);
        assert(edges[edges.len() - 1] == edges.last());
        assert forall|i: int| #![trigger edges[i]] 0 <= i < edges.len() implies has_vertex(
            ends_in_order(graph, edges),
            edges[i].src,
        ) && has_vertex(ends_in_order(graph, edges), edges[i].dst) by {
            if i < edges.len() - 1 {
                assert(before[i] == edges[i]);
                assert(has_vertex(some, edges[i].src));
                assert(has_vertex(some, edges[i].dst));
                assert(has_vertex(with_end(graph, some, edges.last().src), edges[i].src));
                assert(has_vertex(with_end(graph, some, edges.last().src), edges[i].dst));
            } else {
                assert(has_vertex(with_end(graph, some, edges.last().src), edges[i].src));
            }
        }
    }
}

proof fn lemma_edges_with_ids(graph: GraphView, ids: Seq<EdgeId>)
    requires
        graph.wf(),
        ids.no_duplicates(),
    ensures
        forall|i: int|
            #![trigger edges_with_ids(graph, ids)[i]]
            0 <= i < edges_with_ids(graph, ids).len() ==> graph.edge(
                edges_with_ids(graph, ids)[i].id,
            ) == Some(edges_with_ids(graph, ids)[i]) && ids.contains(
                edges_with_ids(graph, ids)[i].id,
            ) && graph.vertex(edges_with_ids(graph, ids)[i].src) is Some && graph.vertex(
                edges_with_ids(graph, ids)[i].dst,
            ) is Some,
        distinct_ids(edges_with_ids(graph, ids)),
    decreases ids.len(),
{
    if ids.len() > 0 {
        let before = ids.drop_last();
        let some = edges_with_ids(graph, before);
        let all = edges_with_ids(graph, ids);
        lemma_edges_with_ids(graph, before);
        assert forall|i: int| #![trigger all[i]] 0 <= i < all.len() implies graph.edge(all[i].id)
            == Some(all[i]) && ids.contains(all[i].id) && graph.vertex(all[i].src) is Some
            && graph.vertex(all[i].dst) is Some by {
            if i < some.len() {
                assert(all[i] == some[i]);
                assert(before.contains(some[i].id));
                let j = choose|j: int| 0 <= j < before.len() && before[j] == some[i].id;
                assert(ids[j] == all[i].id);
            } else {
                let k = graph.edge_at(ids.last())->0;
                assert(graph.edges[k].id == ids.last());
                assert(ids[ids.len() - 1] == all[i].id);
                assert(graph.vertex_at(graph.edges[k].src) is Some);
            }
        }
        assert forall|i: int, j: int|
            #![trigger all[i], all[j]]
            0 <= i < j < all.len() implies all[i].id != all[j].id by {
            if j < some.len() {
                assert(some[i].id != some[j].id);
            } else {
                assert(before.contains(some[i].id));
                let m = choose|m: int| 0 <= m < before.len() && before[m] == some[i].id;
                assert(ids[m] != ids[ids.len() - 1]);
            }
        }
    }
}

/// A part of a well-formed graph is well-formed.
pub proof fn subgraphs_are_well_formed(graph: GraphView, ids: Seq<EdgeId>)
    requires
        graph.wf(),
        ids.no_duplicates(),
    ensures
        subgraph(graph, ids).wf(),
{
    let edges = edges_with_ids(graph, ids);
    let part = subgraph(graph, ids);
    lemma_edges_with_ids(graph, ids);
    lemma_ends_in_order(graph, edges);
    assert forall|i: int| #![trigger part.edges[i]] 0 <= i < part.edges.len() implies part.vertex_at(
        part.edges[i].src,
    ) is Some && part.vertex_at(part.edges[i].dst) is Some by {
        assert(has_vertex(part.vertices, edges[i].src));
        assert(has_vertex(part.vertices, edges[i].dst));
    }
}

impl QueryGraph {
    /// Adds a copy of a vertex of the graph to vertices, unless it is among them.
    pub fn add_end(&self, vertices: &mut Vec<QueryVertex>, id: VertexId)
        requires
            self@.wf(),
        ensures
            final(vertices)@.map_values(|v: QueryVertex| v@) == with_end(
                self@,
                old(vertices)@.map_values(|v: QueryVertex| v@),
                id,
            ),
    {
        let ghost views = vertices@.map_values(|v: QueryVertex| v@);
        let mut i: usize = 0;
        while i < vertices.len()
            invariant
                vertices@ == old(vertices)@,
                views == vertices@.map_values(|v: QueryVertex| v@),
                i <= vertices@.len(),
                forall|j: int| 0 <= j < i ==> (#[trigger] views[j]).id != id,
            decreases vertices.len() - i,
        {
            if vertices[i].id == id {
                assert(views[i as int].id == id);
                return;
            }
            assert(views[i as int].id != id);
            i = i + 1;
        }
        assert(!has_vertex(views, id));
        if let Some(v) = self.get_vertex(id) {
            vertices.push(v.copy());
            assert(vertices@.map_values(|v: QueryVertex| v@) =~= views.push(v@));
        }
    }

    /// The part of the graph with the given edges and their ends.
    pub fn build_subgraph_from_edges(&self, selected_edge_ids: &Vec<EdgeId>) -> (result: QueryGraph)
        requires
            self@.wf(),
            selected_edge_ids@.no_duplicates(),
        ensures
            result@ == subgraph(self@, sorted(selected_edge_ids@)),
            result@.wf(),
    {
        let ids = sort_ids(copy_ids(selected_edge_ids));
        proof {
            crate::spanning::lemma_sorted_ids(selected_edge_ids@);
            ascending_is_unique(ids@, sorted(selected_edge_ids@));
            subgraphs_are_well_formed(self@, ids@);
        }
        let mut vertices: Vec<QueryVertex> = Vec::new();
        let mut edges: Vec<QueryEdge> = Vec::new();
        let mut i: usize = 0;
        proof {
            assert(ids@.take(0) =~= Seq::empty());
            assert(vertices@.map_values(|v: QueryVertex| v@) =~= Seq::empty());
            assert(edges@.map_values(|e: QueryEdge| e@) =~= Seq::empty());
        }
        while i < ids.len()
            invariant
                self@.wf(),
                i <= ids@.len(),
                edges@.map_values(|e: QueryEdge| e@) == edges_with_ids(self@, ids@.take(i as int)),
                vertices@.map_values(|v: QueryVertex| v@) == ends_in_order(
                    self@,
                    edges_with_ids(self@, ids@.take(i as int)),
                ),
            decreases ids.len() - i,
        {
            let ghost views = edges@.map_values(|e: QueryEdge| e@);
            proof {
                assert(ids@.take(i + 1).drop_last() =~= ids@.take(i as int));
                assert(ids@.take(i + 1).last() == ids@[i as int]);
            }
            if let Some(edge) = self.get_edge(ids[i]) {
                edges.push(edge.copy());
                proof {
                    assert(edges@.map_values(|e: QueryEdge| e@) =~= views.push(edge@));
                    assert(views.push(edge@).drop_last() =~= views);
                }
                self.add_end(&mut vertices, edge.src_vertex_id);
                self.add_end(&mut vertices, edge.dst_vertex_id);
            }
            i = i + 1;
        }
        assert(ids@.take(ids@.len() as int) =~= ids@);
        let result = QueryGraph { vertices, edges, predicate_index: self.predicate_index.clone() };
        assert(result@ =~= subgraph(self@, ids@));
        result
    }
}

/// A part of a graph has the edges with the given ids, in their order, and exactly the ends of
/// these edges as vertices, as the graph has them.
pub proof fn parts_have_the_edges_and_their_ends(graph: GraphView, ids: Seq<EdgeId>) -> (at: Seq<int>)
    requires
        graph.wf(),
    ensures
        ({
            let part = subgraph(graph, ids);
            &&& lists_places(at, ids.len() as int, |k: int| graph.edge(ids[k]) is Some)
            &&& part.edges == at.map_values(|k: int| graph.edge(ids[k])->0)
            &&& forall|v: VertexView|
                #![trigger part.vertices.contains(v)]
                part.vertices.contains(v) <==> graph.vertex(v.id) == Some(v) && exists|i: int|
                    0 <= i < part.edges.len() && ((#[trigger] part.edges[i]).src == v.id
                        || part.edges[i].dst == v.id)
        }),
{
    let at = lemma_edges_at(graph, ids);
    lemma_ends(graph, edges_with_ids(graph, ids));
    at
}

proof fn lemma_edges_at(graph: GraphView, ids: Seq<EdgeId>) -> (at: Seq<int>)
    ensures
        lists_places(at, ids.len() as int, |k: int| graph.edge(ids[k]) is Some),
        edges_with_ids(graph, ids) == at.map_values(|k: int| graph.edge(ids[k])->0),
    decreases ids.len(),
{
    let wanted = |k: int| graph.edge(ids[k]) is Some;
    let found = |k: int| graph.edge(ids[k])->0;
    if ids.len() == 0 {
        let at = Seq::<int>::empty();
        assert(at.map_values(found) =~= edges_with_ids(graph, ids));
        at
    } else {
        let n = ids.len() as int;
        let fewer = ids.drop_last();
        let before = lemma_edges_at(graph, fewer);
        assert(lists_places(before, n - 1, wanted)) by {
            assert forall|p: int| 0 <= p < n - 1 && #[trigger] wanted(p) implies before.contains(
                p,
            ) by {
                assert((|q: int| graph.edge(fewer[q]) is Some)(p));
            }
        }
        lemma_one_more_place(before, n, wanted);
        let at = if wanted(n - 1) {
            before.push(n - 1)
        } else {
            before
        };
        assert(before.map_values(found) =~= before.map_values(|k: int| graph.edge(fewer[k])->0));
        assert(at.map_values(found) =~= edges_with_ids(graph, ids));
        at
    }
}

proof fn lemma_one_end(graph: GraphView, vertices: Seq<VertexView>, id: VertexId, v: VertexView)
    requires
        graph.wf(),
        forall|w: VertexView|
            #![trigger vertices.contains(w)]
            vertices.contains(w) ==> graph.vertex(w.id) == Some(w),
    ensures
        with_end(graph, vertices, id).contains(v) <==> vertices.contains(v) || (v.id == id
            && graph.vertex(id) == Some(v)),
{
    let all = with_end(graph, vertices, id);
    if vertices.contains(v) {
        let i = choose|i: int| 0 <= i < vertices.len() && vertices[i] == v;
        assert(all[i] == v);
    }
    if v.id == id && graph.vertex(id) == Some(v) && !vertices.contains(v) {
        if has_vertex(vertices, id) {
            let i = choose|i: int| 0 <= i < vertices.len() && (#[trigger] vertices[i]).id == id;
            assert(vertices.contains(vertices[i]));
        } else {
            assert(all[all.len() - 1] == v);
        }
    }
    if all.contains(v) && !vertices.contains(v) {
        let k = graph.vertex_at(id)->0;
        assert(graph.vertices[k].id == id);
    }
}

proof fn lemma_ends(graph: GraphView, edges: Seq<EdgeView>)
    requires
        graph.wf(),
    ensures
        forall|v: VertexView|
            #![trigger ends_in_order(graph, edges).contains(v)]
            ends_in_order(graph, edges).contains(v) <==> graph.vertex(v.id) == Some(v) && exists|
                i: int,
            |
                0 <= i < edges.len() && ((#[trigger] edges[i]).src == v.id || edges[i].dst == v.id),
    decreases edges.len(),
{
    if edges.len() > 0 {
        let n = edges.len() - 1;
        let fewer = edges.drop_last();
        let e = edges.last();
        let before = ends_in_order(graph, fewer);
        let once = with_end(graph, before, e.src);
        let all = ends_in_order(graph, edges);
        lemma_ends(graph, fewer);
        assert forall|v: VertexView| #![trigger once.contains(v)] once.contains(v) implies
            graph.vertex(v.id) == Some(v) by {
            lemma_one_end(graph, before, e.src, v);
        }
        assert forall|v: VertexView| #![trigger all.contains(v)] all.contains(v) <==> graph.vertex(
            v.id,
        ) == Some(v) && exists|i: int|
            0 <= i < edges.len() && ((#[trigger] edges[i]).src == v.id || edges[i].dst == v.id) by {
            lemma_one_end(graph, before, e.src, v);
            lemma_one_end(graph, once, e.dst, v);
            if before.contains(v) {
                let i = choose|i: int|
                    0 <= i < fewer.len() && ((#[trigger] fewer[i]).src == v.id || fewer[i].dst
                        == v.id);
                assert(edges[i] == fewer[i]);
            }
            if e.src == v.id || e.dst == v.id {
                assert(edges[n] == e);
            }
            if graph.vertex(v.id) == Some(v) && exists|i: int|
                0 <= i < edges.len() && ((#[trigger] edges[i]).src == v.id || edges[i].dst
                    == v.id) {
                let i = choose|i: int|
                    0 <= i < edges.len() && ((#[trigger] edges[i]).src == v.id || edges[i].dst
                        == v.id);
                if i < n {
                    assert(fewer[i] == edges[i]);
                    assert(before.contains(v));
                }
            }
        }
    }
}

} // verus!
