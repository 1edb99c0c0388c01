//! What the edges of a query are expected to match, and how the edges that a decomposition leaves
//! out close triangles of the query.
use crate::abstraction::AbstractView;
use crate::decompose::{edges_used, AbstractGraph, AbstractGraphView};
use crate::flat::FlatGraph;
use crate::order::{sort, sorted, sorting_orders_the_values};
use crate::paths::{is_two_hop, links, links_lead};
use crate::query::{
    contains_id, lemma_edge_at, EdgeId, EdgeView, GraphView, QueryEdge, QueryGraph, QueryVertex,
    VertexId,
};
use crate::spanning::leads;
use std::collections::HashMap;
use vstd::prelude::*;

verus! {

/// What a number is when it is to be at least one.
pub open spec fn at_least_one(n: u64) -> u64 {
    if n == 0 {
        1
    } else {
        n
    }
}

/// Whether an edge is expected to match a number of the edges with its label, of which there are
/// `base`: all of them where nothing restricts it or its ends, otherwise what `scaled` says, and
/// never none.
pub open spec fn is_expected<F: Fn(u64, &QueryEdge, &QueryVertex, &QueryVertex) -> u64>(
    scaled: F,
    base: u64,
    edge: QueryEdge,
    src: QueryVertex,
    dst: QueryVertex,
    expected: u64,
) -> bool {
    if edge.predicates@.len() == 0 && src.predicates@.len() == 0 && dst.predicates@.len() == 0 {
        expected == at_least_one(base)
    } else {
        exists|share: u64| #[trigger]
            scaled.ensures((base, &edge, &src, &dst), share) && expected == at_least_one(share)
    }
}

/// What an edge is expected to match.
fn expect<F: Fn(u64, &QueryEdge, &QueryVertex, &QueryVertex) -> u64>(
    scaled: &F,
    base: u64,
    edge: &QueryEdge,
    src: &QueryVertex,
    dst: &QueryVertex,
) -> (result: u64)
    requires
        scaled.requires((base, edge, src, dst)),
    ensures
        is_expected(*scaled, base, *edge, *src, *dst, result),
{
    let share: u64 = if edge.predicates.len() == 0 && src.predicates.len() == 0
        && dst.predicates.len() == 0 {
        base
    } else {
        scaled(base, edge, src, dst)
    };
    if share == 0 {
        1
    } else {
        share
    }
}

impl QueryGraph {
    /// The vertex that stands at an id.
    pub open spec fn vertex_with(self, id: VertexId) -> QueryVertex {
        self.vertices@[self@.vertex_at(id)->0]
    }

    /// What each edge is expected to match: nothing is known without data; otherwise the edges
    /// with its label, scaled by `scaled` to what the predicates on it and on its ends let pass
    /// where there are any. No edge is expected to match nothing.
    pub fn estimate_edge_cardinalities<F: Fn(u64, &QueryEdge, &QueryVertex, &QueryVertex) -> u64>(
        &self,
        flat_graph: Option<&FlatGraph>,
        scaled: &F,
    ) -> (result: HashMap<EdgeId, u64>)
        requires
            self@.wf(),
            forall|base: u64, edge: &QueryEdge, src: &QueryVertex, dst: &QueryVertex|
                #[trigger] scaled.requires((base, edge, src, dst)),
        ensures
            forall|id: EdgeId| #[trigger] result@.contains_key(id) <==> self@.edge(id) is Some,
            forall|id: EdgeId| #[trigger] result@.contains_key(id) ==> result@[id] >= 1,
            flat_graph is None ==> forall|id: EdgeId| #[trigger]
                result@.contains_key(id) ==> result@[id] == 1,
            flat_graph matches Some(data) ==> forall|i: int|
                #![trigger self.edges@[i]]
                0 <= i < self.edges@.len() ==> is_expected(
                    *scaled,
                    data@.edges_labelled(self.edges@[i].label@).len() as u64,
                    self.edges@[i],
                    self.vertex_with(self.edges@[i].src_vertex_id),
                    self.vertex_with(self.edges@[i].dst_vertex_id),
                    result@[self.edges@[i].id],
                ),
    {
        broadcast use vstd::std_specs::hash::group_hash_axioms;

        let mut result: HashMap<EdgeId, u64> = HashMap::new();
        let mut i: usize = 0;
        while i < self.edges.len()
            invariant
                self@.wf(),
                forall|base: u64, edge: &QueryEdge, src: &QueryVertex, dst: &QueryVertex|
                    #[trigger] scaled.requires((base, edge, src, dst)),
                i <= self.edges@.len(),
                forall|id: EdgeId| #[trigger]
                    result@.contains_key(id) <==> exists|j: int|
                        0 <= j < i && (#[trigger] self@.edges[j]).id == id,
                forall|id: EdgeId| #[trigger] result@.contains_key(id) ==> result@[id] >= 1,
                flat_graph is None ==> forall|id: EdgeId| #[trigger]
                    result@.contains_key(id) ==> result@[id] == 1,
                flat_graph matches Some(data) ==> forall|j: int|
                    #![trigger self.edges@[j]]
                    0 <= j < i ==> is_expected(
                        *scaled,
                        data@.edges_labelled(self.edges@[j].label@).len() as u64,
                        self.edges@[j],
                        self.vertex_with(self.edges@[j].src_vertex_id),
                        self.vertex_with(self.edges@[j].dst_vertex_id),
                        result@[self.edges@[j].id],
                    ),
            decreases self.edges.len() - i,
        {
            let edge: &QueryEdge = &self.edges[i];
            assert(self@.edges[i as int] == edge@);
            let cardinality: u64 = match flat_graph {
                None => 1,
                Some(data) => {
                    let base: u64 = data.edge_count_by_label(&edge.label) as u64;
                    let src: Option<usize> = self.find_vertex(edge.src_vertex_id);
                    let dst: Option<usize> = self.find_vertex(edge.dst_vertex_id);
                    match (src, dst) {
                        (Some(src), Some(dst)) => expect(
                            scaled,
                            base,
                            edge,
                            &self.vertices[src],
                            &self.vertices[dst],
                        ),
                        _ => {
                            assert(false);
                            1
                        },
                    }
                },
            };
            let ghost before = result@;
            result.insert(edge.id, cardinality);
            proof {
                assert forall|j: int| #![trigger self.edges@[j]] 0 <= j < i implies self.edges@[j].id
                    != edge.id by {
                    assert(self@.edges[j].id != self@.edges[i as int].id);
                }
                assert forall|id: EdgeId| #[trigger] result@.contains_key(id) <==> exists|j: int|
                    0 <= j < i + 1 && (#[trigger] self@.edges[j]).id == id by {
                    if id == edge.id {
                        assert(self@.edges[i as int].id == id);
                    }
                    if before.contains_key(id) {
                        let j = choose|j: int| 0 <= j < i && (#[trigger] self@.edges[j]).id == id;
                        assert(0 <= j < i + 1 && self@.edges[j].id == id);
                    }
                }
            }
            i = i + 1;
        }
        proof {
            assert forall|id: EdgeId| #[trigger] result@.contains_key(id) <==> self@.edge(
                id,
            ) is Some by {
                if self@.edge(id) is Some {
                    let j = self@.edge_at(id)->0;
                    assert(0 <= j < i && self@.edges[j].id == id);
                }
            }
        }
        result
    }
}

/// Whether the links at two places are the first two chosen ones, one after the other, that lead
/// from a vertex over another one to an end.
pub open spec fn is_first_two_hop(
    edges: Seq<EdgeView>,
    chosen: Seq<EdgeId>,
    start: VertexId,
    end: VertexId,
    i: int,
    j: int,
) -> bool {
    &&& start != end
    &&& is_two_hop(edges, chosen, start, end, i, j)
    &&& forall|a: int, b: int|
        #![trigger is_two_hop(edges, chosen, start, end, a, b)]
        is_two_hop(edges, chosen, start, end, a, b) ==> i < a || (i == a && j <= b)
}

/// A way of two edges, and what it passes.
#[verifier::ext_equal]
pub struct TwoHop {
    pub first: EdgeId,
    pub middle: VertexId,
    pub second: EdgeId,
}

/// The first way of two chosen edges between two vertices.
pub open spec fn two_hop(
    edges: Seq<EdgeView>,
    chosen: Seq<EdgeId>,
    start: VertexId,
    end: VertexId,
) -> Option<TwoHop> {
    if exists|i: int, j: int| #[trigger] is_first_two_hop(edges, chosen, start, end, i, j) {
        let (i, j) = choose|i: int, j: int| #[trigger]
            is_first_two_hop(edges, chosen, start, end, i, j);
        let first = links(edges, start)[i];
        Some(TwoHop { first: first.1, middle: first.0, second: links(edges, first.0)[j].1 })
    } else {
        None
    }
}

/// An edge of a triangle, with the way that the two others make from its end to its start.
#[derive(Debug, Clone)]
pub struct Closing {
    pub edge: EdgeId,
    pub path_vertices: [VertexId; 3],
    pub path_edges: [EdgeId; 2],
}

/// What an edge of a triangle closes.
#[verifier::ext_equal]
pub struct ClosingView {
    pub edge: EdgeId,
    pub start: VertexId,
    pub end: VertexId,
    pub path: TwoHop,
}

impl View for Closing {
    type V = ClosingView;

    open spec fn view(&self) -> ClosingView {
        ClosingView {
            edge: self.edge,
            start: self.path_vertices[0],
            end: self.path_vertices[2],
            path: TwoHop {
                first: self.path_edges[0],
                middle: self.path_vertices[1],
                second: self.path_edges[1],
            },
        }
    }
}

/// What an edge closes with the others of a cycle.
pub open spec fn closing_at(graph: GraphView, cycle: Seq<EdgeId>, k: int) -> Option<ClosingView> {
    match graph.edge(cycle[k]) {
        Some(edge) => match two_hop(graph.edges, cycle.remove(k), edge.dst, edge.src) {
            Some(path) => Some(
                ClosingView { edge: edge.id, start: edge.dst, end: edge.src, path },
            ),
            None => None,
        },
        None => None,
    }
}

/// What each edge of a cycle closes, where every one does.
pub open spec fn closings_around(graph: GraphView, cycle: Seq<EdgeId>) -> Option<
    Seq<ClosingView>,
> {
    if forall|k: int|
        #![trigger closing_at(graph, cycle, k)]
        0 <= k < cycle.len() ==> closing_at(graph, cycle, k) is Some {
        Some(Seq::new(cycle.len(), |k: int| closing_at(graph, cycle, k)->0))
    } else {
        None
    }
}

/// What the edges of the triangle close that an edge makes with two covered ones, the edges in
/// ascending order.
pub open spec fn closings_of(graph: GraphView, covered: Seq<EdgeId>, edge: EdgeView) -> Option<
    Seq<ClosingView>,
> {
    match two_hop(graph.edges, covered, edge.dst, edge.src) {
        Some(path) => closings_around(graph, sorted(seq![edge.id, path.first, path.second])),
        None => None,
    }
}

/// The first edges that are not covered and close a triangle of covered ones.
pub open spec fn open_triangles(graph: GraphView, covered: Seq<EdgeId>, n: int) -> Seq<
    Seq<ClosingView>,
>
    decreases n,
{
    if n <= 0 {
        Seq::empty()
    } else {
        let before = open_triangles(graph, covered, n - 1);
        let edge = graph.edges[n - 1];
        if covered.contains(edge.id) {
            before
        } else {
            match closings_of(graph, covered, edge) {
                Some(closings) => before.push(closings),
                None => before,
            }
        }
    }
}

/// The triangles that a decomposition leaves open: none where it covers fewer edges than a tree
/// has.
pub open spec fn left_open(graph: GraphView, covered: Seq<EdgeId>) -> Seq<Seq<ClosingView>> {
    if covered.to_set().len() + 1 < graph.vertices.len() {
        Seq::empty()
    } else {
        open_triangles(graph, covered, graph.edges.len() as int)
    }
}

/// What triangles say.
pub open spec fn triangle_views(triangles: Seq<Vec<Closing>>) -> Seq<Seq<ClosingView>> {
    triangles.map_values(|t: Vec<Closing>| t@.map_values(|c: Closing| c@))
}

/// The ids among others that are used by abstract edges.
pub open spec fn covered_by(graph: AbstractGraphView) -> Seq<EdgeId> {
    edges_used(graph.edges.map_values(|e: (EdgeId, AbstractView)| e.1))
}

/// How many different ids there are.
fn count_distinct(ids: &Vec<EdgeId>) -> (result: usize)
    ensures
        result == ids@.to_set().len(),
{
    let mut kept: Vec<EdgeId> = Vec::new();
    let mut i: usize = 0;
    assert(ids@.take(0).to_set() =~= Set::<EdgeId>::empty());
    while i < ids.len()
        invariant
            i <= ids@.len(),
            kept@.no_duplicates(),
            kept@.to_set() == ids@.take(i as int).to_set(),
        decreases ids.len() - i,
    {
        let id: EdgeId = ids[i];
        let ghost before = kept@;
        let ghost earlier = ids@.take(i as int);
        assert(ids@.take(i + 1) =~= earlier.push(id));
        proof {
            earlier.lemma_push_to_set_commute(id);
        }
        if contains_id(&kept, id) {
            assert(before.to_set().contains(id));
            assert(earlier.to_set().insert(id) =~= earlier.to_set());
        } else {
            kept.push(id);
            proof {
                before.lemma_push_to_set_commute(id);
            }
        }
        i = i + 1;
    }
    proof {
        assert(ids@.take(i as int) =~= ids@);
        kept@.unique_seq_to_set();
    }
    kept.len()
}

/// The edges of the query that a decomposition uses.
fn gather_covered(graph: &AbstractGraph) -> (result: Vec<EdgeId>)
    ensures
        result@ == covered_by(graph@),
{
    let mut result: Vec<EdgeId> = Vec::new();
    let ghost all = graph@.edges.map_values(|e: (EdgeId, AbstractView)| e.1);
    let mut i: usize = 0;
    assert(all.take(0) =~= Seq::<AbstractView>::empty());
    while i < graph.edges.len()
        invariant
            all == graph@.edges.map_values(|e: (EdgeId, AbstractView)| e.1),
            i <= graph.edges@.len(),
            result@ == edges_used(all.take(i as int)),
        decreases graph.edges.len() - i,
    {
        let ghost before = result@;
        let ids: &Vec<EdgeId> = &graph.edges[i].1.original_edge_ids;
        let mut j: usize = 0;
        assert(before + ids@.take(0) =~= before);
        while j < ids.len()
            invariant
                j <= ids@.len(),
                result@ == before + ids@.take(j as int),
            decreases ids.len() - j,
        {
            result.push(ids[j]);
            assert(result@ =~= before + ids@.take(j + 1));
            j = j + 1;
        }
        proof {
            assert(ids@.take(j as int) =~= ids@);
            assert(all.take(i + 1).drop_last() =~= all.take(i as int));
            assert(all.take(i + 1).last() == graph.edges@[i as int].1@);
        }
        i = i + 1;
    }
    assert(all.take(i as int) =~= all);
    result
}

impl QueryGraph {
    /// The first way of two chosen edges between two vertices.
    fn find_two_hop(&self, chosen: &Vec<EdgeId>, start: VertexId, end: VertexId) -> (result: Option<
        ([VertexId; 3], [EdgeId; 2]),
    >)
        ensures
            match result {
                Some((vertices, ids)) => {
                    &&& vertices[0] == start
                    &&& vertices[2] == end
                    &&& ids[0] != ids[1]
                    &&& chosen@.contains(ids[0])
                    &&& chosen@.contains(ids[1])
                    &&& two_hop(self@.edges, chosen@, start, end) == Some(
                        TwoHop { first: ids[0], middle: vertices[1], second: ids[1] },
                    )
                },
                None => two_hop(self@.edges, chosen@, start, end) is None,
            },
    {
        let found = self.find_two_hop_path_in_edge_set(chosen, start, end);
        proof {
            let edges = self@.edges;
            match found {
                Some((vertices, ids)) => {
                    let (i, j) = choose|i: int, j: int|
                        #![trigger is_two_hop(self@.edges, chosen@, start, end, i, j)]
                        {
                            &&& is_two_hop(self@.edges, chosen@, start, end, i, j)
                            &&& links(self@.edges, start)[i] == (vertices[1], ids[0])
                            &&& links(self@.edges, vertices[1])[j] == (end, ids[1])
                            &&& forall|a: int, b: int|
                                #![trigger is_two_hop(self@.edges, chosen@, start, end, a, b)]
                                is_two_hop(self@.edges, chosen@, start, end, a, b) ==> i < a || (i
                                    == a && j <= b)
                        };
                    assert(is_first_two_hop(edges, chosen@, start, end, i, j));
                    let (a, b) = choose|a: int, b: int| #[trigger]
                        is_first_two_hop(edges, chosen@, start, end, a, b);
                    assert(is_two_hop(edges, chosen@, start, end, a, b));
                    assert(a == i && b == j);
                },
                None => {},
            }
        }
        found
    }

    /// What the edges of the triangle close that an edge makes with two covered ones, the edges
    /// in ascending order; `None` where there is no such triangle.
    pub fn find_closings(&self, edge: &QueryEdge, covered: &Vec<EdgeId>) -> (result: Option<
        Vec<Closing>,
    >)
        requires
            self@.wf(),
            !covered@.contains(edge.id),
        ensures
            match result {
                Some(closings) => closings_of(self@, covered@, edge@) == Some(
                    closings@.map_values(|c: Closing| c@),
                ),
                None => closings_of(self@, covered@, edge@) is None,
            },
    {
        let ids: [EdgeId; 2] = match self.find_two_hop(
            covered,
            edge.dst_vertex_id,
            edge.src_vertex_id,
        ) {
            Some((_, ids)) => ids,
            None => {
                return None;
            },
        };
        let mut unsorted: Vec<EdgeId> = Vec::new();
        unsorted.push(edge.id);
        unsorted.push(ids[0]);
        unsorted.push(ids[1]);
        assert(unsorted@ =~= seq![edge.id, ids[0], ids[1]]);
        let cycle: Vec<EdgeId> = sort(unsorted);
        let ghost graph = self@;
        let mut result: Vec<Closing> = Vec::new();
        let mut k: usize = 0;
        while k < cycle.len()
            invariant
                self@.wf(),
                graph == self@,
                k <= cycle@.len(),
                result@.len() == k,
                closings_of(graph, covered@, edge@) == closings_around(graph, cycle@),
                forall|j: int|
                    #![trigger closing_at(graph, cycle@, j)]
                    #![trigger result@[j]]
                    0 <= j < k ==> closing_at(graph, cycle@, j) == Some(result@[j]@),
            decreases cycle.len() - k,
        {
            let closing: &QueryEdge = match self.get_edge(cycle[k]) {
                Some(closing) => closing,
                None => {
                    assert(closing_at(graph, cycle@, k as int) is None);
                    return None;
                },
            };
            let mut others: Vec<EdgeId> = Vec::new();
            let mut j: usize = 0;
            while j < cycle.len()
                invariant
                    k < cycle@.len(),
                    j <= cycle@.len(),
                    others@ == if j <= k {
                        cycle@.take(j as int)
                    } else {
                        cycle@.take(k as int) + cycle@.subrange(k + 1, j as int)
                    },
                decreases cycle.len() - j,
            {
                if j != k {
                    others.push(cycle[j]);
                }
                j = j + 1;
                assert(others@ =~= if j <= k {
                    cycle@.take(j as int)
                } else {
                    cycle@.take(k as int) + cycle@.subrange(k + 1, j as int)
                });
            }
            assert(others@ =~= cycle@.remove(k as int));
            match self.find_two_hop(&others, closing.dst_vertex_id, closing.src_vertex_id) {
                Some((path_vertices, path_edges)) => {
                    let found = Closing { edge: closing.id, path_vertices, path_edges };
                    assert(closing_at(graph, cycle@, k as int) == Some(found@));
                    result.push(found);
                },
                None => {
                    assert(closing_at(graph, cycle@, k as int) is None);
                    return None;
                },
            }
            k = k + 1;
        }
        proof {
            let around = Seq::new(cycle@.len(), |j: int| closing_at(graph, cycle@, j)->0);
            let said = result@.map_values(|c: Closing| c@);
            assert forall|j: int| 0 <= j < said.len() implies said[j] == around[j] by {
                assert(closing_at(graph, cycle@, j) == Some(result@[j]@));
            }
            assert(said =~= around);
        }
        Some(result)
    }

    /// The triangles of the query that a decomposition of it leaves open.
    pub fn find_open_triangles(&self, abstract_graph: &AbstractGraph) -> (result: Vec<Vec<Closing>>)
        requires
            self@.wf(),
        ensures
            triangle_views(result@) == left_open(self@, covered_by(abstract_graph@)),
    {
        let covered: Vec<EdgeId> = gather_covered(abstract_graph);
        let mut result: Vec<Vec<Closing>> = Vec::new();
        let enough: usize = if self.vertices.len() == 0 {
            0
        } else {
            self.vertices.len() - 1
        };
        assert(triangle_views(result@) =~= Seq::empty());
        if count_distinct(&covered) < enough {
            return result;
        }
        let mut i: usize = 0;
        while i < self.edges.len()
            invariant
                self@.wf(),
                i <= self.edges@.len(),
                triangle_views(result@) == open_triangles(self@, covered@, i as int),
            decreases self.edges.len() - i,
        {
            let edge: &QueryEdge = &self.edges[i];
            assert(self@.edges[i as int] == edge@);
            if !contains_id(&covered, edge.id) {
                if let Some(closings) = self.find_closings(edge, &covered) {
                    let ghost before = result@;
                    result.push(closings);
                    assert(triangle_views(result@) =~= triangle_views(before).push(
                        closings@.map_values(|c: Closing| c@),
                    ));
                }
            }
            i = i + 1;
        }
        result
    }
}

/// Whether an edge of the query closes a way, which leads from its end back to its start.
pub open spec fn closes(graph: GraphView, closing: ClosingView) -> bool {
    graph.edge(closing.edge) matches Some(edge) && closing.start == edge.dst && closing.end
        == edge.src
}

/// A triangle that a decomposition leaves open has three edges of the query, and each of them
/// closes a way that leads from its end back to its start.
pub proof fn open_triangles_have_three_edges(graph: GraphView, covered: Seq<EdgeId>, i: int, k: int)
    requires
        graph.wf(),
        0 <= i < left_open(graph, covered).len(),
    ensures
        left_open(graph, covered)[i].len() == 3,
        0 <= k < 3 ==> closes(graph, left_open(graph, covered)[i][k]),
{
    lemma_open_triangles(graph, covered, graph.edges.len() as int, i, k);
}

proof fn lemma_open_triangles(graph: GraphView, covered: Seq<EdgeId>, n: int, i: int, k: int)
    requires
        graph.wf(),
        0 <= n <= graph.edges.len(),
        0 <= i < open_triangles(graph, covered, n).len(),
    ensures
        open_triangles(graph, covered, n)[i].len() == 3,
        0 <= k < 3 ==> closes(graph, open_triangles(graph, covered, n)[i][k]),
    decreases n,
{
    let before = open_triangles(graph, covered, n - 1);
    if i < before.len() {
        lemma_open_triangles(graph, covered, n - 1, i, k);
    } else {
        let edge = graph.edges[n - 1];
        let path = two_hop(graph.edges, covered, edge.dst, edge.src)->0;
        let three = seq![edge.id, path.first, path.second];
        sorting_orders_the_values(three);
        let cycle = sorted(three);
        assert(cycle.to_multiset().len() == three.to_multiset().len());
        if 0 <= k < 3 {
            let c = closing_at(graph, cycle, k);
            assert(c is Some);
            let found = graph.edge(cycle[k])->0;
            lemma_edge_at(graph, graph.edge_at(cycle[k])->0);
        }
    }
}

/// A way of two chosen edges between two vertices leads from the one over a third to the other,
/// along two different edges.
pub proof fn two_hops_lead_over(
    edges: Seq<EdgeView>,
    chosen: Seq<EdgeId>,
    start: VertexId,
    end: VertexId,
)
    ensures
        two_hop(edges, chosen, start, end) matches Some(path) ==> {
            &&& start != end
            &&& chosen.contains(path.first) && chosen.contains(path.second)
            &&& path.first != path.second
            &&& path.middle != start
            &&& leads(edges, path.first, start, path.middle)
            &&& leads(edges, path.second, path.middle, end)
        },
{
    if two_hop(edges, chosen, start, end) is Some {
        let (i, j) = choose|i: int, j: int| #[trigger]
            is_first_two_hop(edges, chosen, start, end, i, j);
        let first = links(edges, start)[i];
        let second = links(edges, first.0)[j];
        assert(links(edges, start).contains(first));
        assert(links(edges, first.0).contains(second));
        links_lead(edges, start, first.0, first.1);
        links_lead(edges, first.0, second.0, second.1);
    }
}

/// What closes a triangle that a decomposition leaves open is an edge with the two others: they
/// lead from its end over a third vertex back to its start.
pub proof fn open_triangles_are_closed_by_ways(
    graph: GraphView,
    covered: Seq<EdgeId>,
    i: int,
    k: int,
)
    requires
        graph.wf(),
        0 <= i < left_open(graph, covered).len(),
        0 <= k < 3,
    ensures
        ({
            let c = left_open(graph, covered)[i][k];
            &&& c.path.first != c.path.second
            &&& leads(graph.edges, c.path.first, c.start, c.path.middle)
            &&& leads(graph.edges, c.path.second, c.path.middle, c.end)
        }),
{
    lemma_open_ways(graph, covered, graph.edges.len() as int, i, k);
}

proof fn lemma_open_ways(graph: GraphView, covered: Seq<EdgeId>, n: int, i: int, k: int)
    requires
        graph.wf(),
        0 <= n <= graph.edges.len(),
        0 <= i < open_triangles(graph, covered, n).len(),
        0 <= k < 3,
    ensures
        ({
            let c = open_triangles(graph, covered, n)[i][k];
            &&& c.path.first != c.path.second
            &&& leads(graph.edges, c.path.first, c.start, c.path.middle)
            &&& leads(graph.edges, c.path.second, c.path.middle, c.end)
        }),
    decreases n,
{
    let before = open_triangles(graph, covered, n - 1);
    if i < before.len() {
        lemma_open_ways(graph, covered, n - 1, i, k);
    } else {
        let edge = graph.edges[n - 1];
        let path = two_hop(graph.edges, covered, edge.dst, edge.src)->0;
        let three = seq![edge.id, path.first, path.second];
        sorting_orders_the_values(three);
        let cycle = sorted(three);
        assert(closing_at(graph, cycle, k) is Some);
        let found = graph.edge(cycle[k])->0;
        two_hops_lead_over(graph.edges, cycle.remove(k), found.dst, found.src);
    }
}

} // verus!
