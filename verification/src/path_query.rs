//! Paths of a query as lines of vertices and edges, and plans to walk them in the data.
use crate::abstraction::AbstractEdge;
use crate::flat::{
    resolution, resolved_views, FlatError, FlatErrorView, FlatGraph, FlatView, ResolvedPredicate,
    ResolvedView,
};
use crate::query::{
    predicate_views, EdgeId, EdgeView, GraphView, PredicateDef, PredicateView, QueryEdge,
    QueryGraph, QueryVertex, VertexId,
};
use crate::text::is_text;
use crate::value::ScalarValue;
use std::collections::HashMap;
use vstd::prelude::*;
use vstd::string::*;

verus! {

broadcast use vstd::std_specs::hash::group_hash_axioms;

/// In which direction a path follows an edge.
#[derive(Debug, Clone, Copy, PartialEq, Eq, Structural)]
pub enum EdgeDirection {
    Outgoing,
    Incoming,
}

/// A vertex or an edge on a path.
#[derive(Debug, Clone)]
pub enum PathElement {
    Vertex { label: String, position: usize },
    Edge { label: String, position: usize, direction: EdgeDirection },
}

/// What is on a path.
pub enum ElementView {
    Vertex { label: Seq<char>, position: usize },
    Edge { label: Seq<char>, position: usize, direction: EdgeDirection },
}

impl View for PathElement {
    type V = ElementView;

    open spec fn view(&self) -> ElementView {
        match self {
            PathElement::Vertex { label, position } => ElementView::Vertex {
                label: label@,
                position: *position,
            },
            PathElement::Edge { label, position, direction } => ElementView::Edge {
                label: label@,
                position: *position,
                direction: *direction,
            },
        }
    }
}

/// A path of a query, with the predicates at its positions.
#[derive(Debug, Clone)]
pub struct PathQuery {
    pub path_elements: Vec<PathElement>,
    pub vertex_predicates: HashMap<usize, Vec<PredicateDef>>,
    pub edge_predicates: HashMap<usize, Vec<PredicateDef>>,
}

/// What the elements of a path are.
pub open spec fn element_views(elements: Seq<PathElement>) -> Seq<ElementView> {
    elements.map_values(|e: PathElement| e@)
}

/// The predicates at a position.
pub open spec fn predicates_at(map: Map<usize, Vec<PredicateDef>>, position: usize) -> Seq<
    PredicateView,
> {
    if map.contains_key(position) {
        predicate_views(map[position]@)
    } else {
        Seq::empty()
    }
}

/// Why a path of a query cannot be written as a line.
#[derive(Debug, Clone, Copy, PartialEq, Eq, Structural)]
pub enum PathQueryError {
    VertexNotFound(VertexId),
    EdgeNotFound(EdgeId),
    /// An edge does not start or end at the vertex before it.
    NotIncident { edge: EdgeId, vertex: VertexId },
    /// There is not one vertex more than edges.
    LengthMismatch { vertices: usize, edges: usize },
}

/// Whether a predicate is meant for a vertex.
pub open spec fn is_for_vertex(p: PredicateView, id: VertexId) -> bool {
    p.target == "vertex"@ && p.id == (id as u32)
}

/// Whether a predicate is meant for an edge.
pub open spec fn is_for_edge(p: PredicateView, id: EdgeId) -> bool {
    p.target == "edge"@ && p.id == (id as u32)
}

/// The predicates that are meant for a vertex.
pub open spec fn for_vertex(predicates: Seq<PredicateView>, id: VertexId) -> Seq<PredicateView>
    decreases predicates.len(),
{
    if predicates.len() == 0 {
        Seq::empty()
    } else if is_for_vertex(predicates.last(), id) {
        for_vertex(predicates.drop_last(), id).push(predicates.last())
    } else {
        for_vertex(predicates.drop_last(), id)
    }
}

/// The predicates that are meant for an edge.
pub open spec fn for_edge(predicates: Seq<PredicateView>, id: EdgeId) -> Seq<PredicateView>
    decreases predicates.len(),
{
    if predicates.len() == 0 {
        Seq::empty()
    } else if is_for_edge(predicates.last(), id) {
        for_edge(predicates.drop_last(), id).push(predicates.last())
    } else {
        for_edge(predicates.drop_last(), id)
    }
}

fn pick_predicates(predicates: &Vec<PredicateDef>, id: u64, on_edge: bool) -> (result: Vec<
    PredicateDef,
>)
    ensures
        predicate_views(result@) == (if on_edge {
            for_edge(predicate_views(predicates@), id)
        } else {
            for_vertex(predicate_views(predicates@), id)
        }),
{
    let ghost all = predicate_views(predicates@);
    let mut result: Vec<PredicateDef> = Vec::new();
    let mut i: usize = 0;
    assert(all.take(0) =~= Seq::empty());
    assert(predicate_views(result@) =~= Seq::empty());
    while i < predicates.len()
        invariant
            all == predicate_views(predicates@),
            i <= predicates@.len(),
            predicate_views(result@) == (if on_edge {
                for_edge(all.take(i as int), id)
            } else {
                for_vertex(all.take(i as int), id)
            }),
        decreases predicates.len() - i,
    {
        let p: &PredicateDef = &predicates[i];
        assert(all.take(i + 1).drop_last() =~= all.take(i as int));
        assert(all.take(i + 1).last() == p@);
        let target: &str = if on_edge {
            "edge"
        } else {
            "vertex"
        };
        if is_text(p.target.as_str(), target) && p.id == (#[verifier::truncate] (id as u32)) {
            let ghost before = result@;
            result.push(p.copy());
            assert(predicate_views(result@) =~= predicate_views(before).push(p@));
        }
        i = i + 1;
    }
    assert(all.take(i as int) =~= all);
    result
}

/// In which direction an edge is followed from a vertex.
pub open spec fn direction_from(e: EdgeView, v: VertexId) -> Option<EdgeDirection> {
    if e.src == v {
        Some(EdgeDirection::Outgoing)
    } else if e.dst == v {
        Some(EdgeDirection::Incoming)
    } else {
        None
    }
}

/// What is wrong with the first `n` vertices of a path and the edges after them, if anything.
pub open spec fn first_fault(
    graph: GraphView,
    vertices: Seq<VertexId>,
    edges: Seq<EdgeId>,
    n: int,
) -> Option<PathQueryError>
    decreases n,
{
    if n <= 0 {
        None
    } else if let Some(error) = first_fault(graph, vertices, edges, n - 1) {
        Some(error)
    } else if graph.vertex(vertices[n - 1]) is None {
        Some(PathQueryError::VertexNotFound(vertices[n - 1]))
    } else if n - 1 >= edges.len() {
        None
    } else {
        match graph.edge(edges[n - 1]) {
            None => Some(PathQueryError::EdgeNotFound(edges[n - 1])),
            Some(e) => if direction_from(e, vertices[n - 1]) is None {
                Some(
                    PathQueryError::NotIncident { edge: edges[n - 1], vertex: vertices[n - 1] },
                )
            } else {
                None
            },
        }
    }
}

/// The line of the first `n` vertices of a path and the edges after them.
pub open spec fn line(
    graph: GraphView,
    vertices: Seq<VertexId>,
    edges: Seq<EdgeId>,
    n: int,
) -> Seq<ElementView>
    decreases n,
{
    if n <= 0 {
        Seq::empty()
    } else {
        let v = ElementView::Vertex {
            label: graph.vertex(vertices[n - 1])->0.label,
            position: (2 * (n - 1)) as usize,
        };
        let before = line(graph, vertices, edges, n - 1).push(v);
        if n - 1 < edges.len() {
            let e = graph.edge(edges[n - 1])->0;
            before.push(
                ElementView::Edge {
                    label: e.label,
                    position: (2 * (n - 1) + 1) as usize,
                    direction: direction_from(e, vertices[n - 1])->0,
                },
            )
        } else {
            before
        }
    }
}

/// Whether the predicates of a path are at the positions of what they are meant for, and at no
/// others.
pub open spec fn predicates_placed(
    query: PathQuery,
    vertices: Seq<VertexId>,
    edges: Seq<EdgeId>,
    predicates: Seq<PredicateView>,
    n: int,
) -> bool {
    &&& forall|position: usize|
        #![trigger query.vertex_predicates@.contains_key(position)]
        query.vertex_predicates@.contains_key(position) <==> position % 2 == 0 && position / 2 < n
            && for_vertex(predicates, vertices[position as int / 2]).len() > 0
    &&& forall|position: usize|
        #![trigger query.vertex_predicates@[position]]
        query.vertex_predicates@.contains_key(position) ==> predicate_views(
            query.vertex_predicates@[position]@,
        ) == for_vertex(predicates, vertices[position as int / 2])
    &&& forall|position: usize|
        #![trigger query.edge_predicates@.contains_key(position)]
        query.edge_predicates@.contains_key(position) <==> position % 2 == 1 && position / 2 < n
            && position / 2 < edges.len() && for_edge(
            predicates,
            edges[position as int / 2],
        ).len() > 0
    &&& forall|position: usize|
        #![trigger query.edge_predicates@[position]]
        query.edge_predicates@.contains_key(position) ==> predicate_views(
            query.edge_predicates@[position]@,
        ) == for_edge(predicates, edges[position as int / 2])
}

impl QueryGraph {
    /// A path of the query as a line, with the predicates that are meant for what is on it.
    pub fn build_path_query_from_parts(
        &self,
        path_vertices: &Vec<VertexId>,
        original_edge_ids: &Vec<EdgeId>,
        predicates: &Vec<PredicateDef>,
    ) -> (result: Result<PathQuery, PathQueryError>)
        requires
            self@.wf(),
            2 * path_vertices@.len() <= usize::MAX,
        ensures
            match first_fault(
                self@,
                path_vertices@,
                original_edge_ids@,
                path_vertices@.len() as int,
            ) {
                Some(error) => result matches Err(e) && e == error,
                None => result matches Ok(query) && element_views(query.path_elements@) == line(
                    self@,
                    path_vertices@,
                    original_edge_ids@,
                    path_vertices@.len() as int,
                ) && predicates_placed(
                    query,
                    path_vertices@,
                    original_edge_ids@,
                    predicate_views(predicates@),
                    path_vertices@.len() as int,
                ),
            },
    {
        let ghost graph = self@;
        let ghost vertices = path_vertices@;
        let ghost edges = original_edge_ids@;
        let ghost all = predicate_views(predicates@);
        let mut query = PathQuery {
            path_elements: Vec::new(),
            vertex_predicates: HashMap::new(),
            edge_predicates: HashMap::new(),
        };
        let mut i: usize = 0;
        assert(element_views(query.path_elements@) =~= Seq::empty());
        while i < path_vertices.len()
            invariant
                self@.wf(),
                graph == self@,
                vertices == path_vertices@,
                edges == original_edge_ids@,
                all == predicate_views(predicates@),
                2 * vertices.len() <= usize::MAX,
                i <= vertices.len(),
                first_fault(graph, vertices, edges, i as int) is None,
                element_views(query.path_elements@) == line(graph, vertices, edges, i as int),
                predicates_placed(query, vertices, edges, all, i as int),
            decreases path_vertices.len() - i,
        {
            let vertex_id: VertexId = path_vertices[i];
            let ghost before = query;
            let vertex: &QueryVertex = match self.get_vertex(vertex_id) {
                Some(v) => v,
                None => {
                    proof {
                        lemma_fault_stays(
                            graph,
                            vertices,
                            edges,
                            i + 1,
                            vertices.len() as int,
                        );
                    }
                    return Err(PathQueryError::VertexNotFound(vertex_id));
                },
            };
            let position: usize = 2 * i;
            query.path_elements.push(
                PathElement::Vertex { label: vertex.label.clone(), position },
            );
            let ghost elements = query.path_elements@;
            assert(element_views(elements) =~= element_views(before.path_elements@).push(
                ElementView::Vertex { label: vertex@.label, position },
            ));
            let own: Vec<PredicateDef> = pick_predicates(predicates, vertex_id, false);
            assert(predicate_views(own@).len() == own@.len());
            if own.len() > 0 {
                query.vertex_predicates.insert(position, own);
            }
            if i < original_edge_ids.len() {
                let edge_id: EdgeId = original_edge_ids[i];
                let edge: &QueryEdge = match self.get_edge(edge_id) {
                    Some(e) => e,
                    None => {
                        proof {
                            lemma_fault_stays(
                                graph,
                                vertices,
                                edges,
                                i + 1,
                                vertices.len() as int,
                            );
                        }
                        return Err(PathQueryError::EdgeNotFound(edge_id));
                    },
                };
                let direction: EdgeDirection = if edge.src_vertex_id == vertex_id {
                    EdgeDirection::Outgoing
                } else if edge.dst_vertex_id == vertex_id {
                    EdgeDirection::Incoming
                } else {
                    proof {
                        lemma_fault_stays(
                            graph,
                            vertices,
                            edges,
                            i + 1,
                            vertices.len() as int,
                        );
                    }
                    return Err(PathQueryError::NotIncident { edge: edge_id, vertex: vertex_id });
                };
                let edge_position: usize = 2 * i + 1;
                query.path_elements.push(
                    PathElement::Edge {
                        label: edge.label.clone(),
                        position: edge_position,
                        direction,
                    },
                );
                assert(element_views(query.path_elements@) =~= element_views(elements).push(
                    ElementView::Edge { label: edge@.label, position: edge_position, direction },
                ));
                let own: Vec<PredicateDef> = pick_predicates(predicates, edge_id, true);
                assert(predicate_views(own@).len() == own@.len());
                if own.len() > 0 {
                    query.edge_predicates.insert(edge_position, own);
                }
            }
            proof {
                assert(2 * i / 2 == i);
                assert((2 * i + 1) / 2 == i);
                assert forall|position: usize|
                    #![trigger query.vertex_predicates@.contains_key(position)]
                    query.vertex_predicates@.contains_key(position) <==> position % 2 == 0
                        && position / 2 < i + 1 && for_vertex(
                        all,
                        vertices[position as int / 2],
                    ).len() > 0 by {
                    assert(before.vertex_predicates@.contains_key(position) <==> position % 2 == 0
                        && position / 2 < i && for_vertex(
                        all,
                        vertices[position as int / 2],
                    ).len() > 0);
                }
                assert forall|position: usize|
                    #![trigger query.edge_predicates@.contains_key(position)]
                    query.edge_predicates@.contains_key(position) <==> position % 2 == 1
                        && position / 2 < i + 1 && position / 2 < edges.len() && for_edge(
                        all,
                        edges[position as int / 2],
                    ).len() > 0 by {
                    assert(before.edge_predicates@.contains_key(position) <==> position % 2 == 1
                        && position / 2 < i && position / 2 < edges.len() && for_edge(
                        all,
                        edges[position as int / 2],
                    ).len() > 0);
                }
                assert forall|position: usize|
                    #![trigger query.vertex_predicates@[position]]
                    query.vertex_predicates@.contains_key(position) implies predicate_views(
                    query.vertex_predicates@[position]@,
                ) == for_vertex(all, vertices[position as int / 2]) by {
                    if position != 2 * i {
                        assert(before.vertex_predicates@.contains_key(position));
                        assert(before.vertex_predicates@[position]
                            == query.vertex_predicates@[position]);
                    }
                }
                assert forall|position: usize|
                    #![trigger query.edge_predicates@[position]]
                    query.edge_predicates@.contains_key(position) implies predicate_views(
                    query.edge_predicates@[position]@,
                ) == for_edge(all, edges[position as int / 2]) by {
                    if position != 2 * i + 1 {
                        assert(before.edge_predicates@.contains_key(position));
                        assert(before.edge_predicates@[position]
                            == query.edge_predicates@[position]);
                    }
                }
            }
            i = i + 1;
        }
        Ok(query)
    }

    /// The path of an abstract edge as a line.
    pub fn build_path_query(&self, abstract_edge: &AbstractEdge) -> (result: Result<
        PathQuery,
        PathQueryError,
    >)
        requires
            self@.wf(),
            2 * abstract_edge.path_vertices@.len() <= usize::MAX,
        ensures
            match first_fault(
                self@,
                abstract_edge@.path_vertices,
                abstract_edge@.original_edge_ids,
                abstract_edge@.path_vertices.len() as int,
            ) {
                Some(error) => result matches Err(e) && e == error,
                None => result matches Ok(query) && element_views(query.path_elements@) == line(
                    self@,
                    abstract_edge@.path_vertices,
                    abstract_edge@.original_edge_ids,
                    abstract_edge@.path_vertices.len() as int,
                ) && predicates_placed(
                    query,
                    abstract_edge@.path_vertices,
                    abstract_edge@.original_edge_ids,
                    abstract_edge@.predicates,
                    abstract_edge@.path_vertices.len() as int,
                ),
            },
    {
        self.build_path_query_from_parts(
            &abstract_edge.path_vertices,
            &abstract_edge.original_edge_ids,
            &abstract_edge.predicates,
        )
    }
}

proof fn lemma_fault_stays(
    graph: GraphView,
    vertices: Seq<VertexId>,
    edges: Seq<EdgeId>,
    n: int,
    m: int,
)
    requires
        0 <= n <= m,
        first_fault(graph, vertices, edges, n) is Some,
    ensures
        first_fault(graph, vertices, edges, m) == first_fault(graph, vertices, edges, n),
    decreases m,
{
    if n < m {
        lemma_fault_stays(graph, vertices, edges, n, m - 1);
    }
}

/// Whether a predicate is meant for one hop of a path: for its edge, for the vertex before it,
/// or, on the last hop, for the vertex after it.
pub open spec fn is_for_hop(
    p: PredicateView,
    src: VertexId,
    edge: EdgeId,
    dst: VertexId,
    last: bool,
) -> bool {
    is_for_edge(p, edge) || is_for_vertex(p, src) || (last && is_for_vertex(p, dst))
}

/// The predicates that are meant for one hop.
pub open spec fn for_hop(
    predicates: Seq<PredicateView>,
    src: VertexId,
    edge: EdgeId,
    dst: VertexId,
    last: bool,
) -> Seq<PredicateView>
    decreases predicates.len(),
{
    if predicates.len() == 0 {
        Seq::empty()
    } else if is_for_hop(predicates.last(), src, edge, dst, last) {
        for_hop(predicates.drop_last(), src, edge, dst, last).push(predicates.last())
    } else {
        for_hop(predicates.drop_last(), src, edge, dst, last)
    }
}

/// A predicate on a vertex of a path is meant for exactly one hop: the one that leaves the
/// vertex, or for the last vertex the one that enters it.
pub proof fn vertex_predicates_are_placed_once(
    p: PredicateView,
    vertices: Seq<VertexId>,
    edges: Seq<EdgeId>,
    at: int,
    hop: int,
)
    requires
        edges.len() > 0,
        vertices.len() == edges.len() + 1,
        forall|i: int, j: int|
            #![trigger vertices[i], vertices[j]]
            0 <= i < j < vertices.len() ==> (vertices[i] as u32) != (vertices[j] as u32),
        0 <= at < vertices.len(),
        is_for_vertex(p, vertices[at]),
        0 <= hop < edges.len(),
    ensures
        is_for_hop(
            p,
            vertices[hop],
            edges[hop],
            vertices[hop + 1],
            hop == edges.len() - 1,
        ) <==> hop == (if at < edges.len() {
            at
        } else {
            edges.len() - 1
        }),
{
    reveal_strlit("vertex");
    reveal_strlit("edge");
    assert("vertex"@.len() != "edge"@.len());
    if hop != at {
        if hop < at {
            assert((vertices[hop] as u32) != (vertices[at] as u32));
        } else {
            assert((vertices[at] as u32) != (vertices[hop] as u32));
        }
    }
    if hop + 1 != at {
        if hop + 1 < at {
            assert((vertices[hop + 1] as u32) != (vertices[at] as u32));
        } else {
            assert((vertices[at] as u32) != (vertices[hop + 1] as u32));
        }
    }
}

/// A predicate on an edge of a path is meant for exactly the hop along that edge.
pub proof fn edge_predicates_are_placed_once(
    p: PredicateView,
    vertices: Seq<VertexId>,
    edges: Seq<EdgeId>,
    at: int,
    hop: int,
)
    requires
        vertices.len() == edges.len() + 1,
        forall|i: int, j: int|
            #![trigger edges[i], edges[j]]
            0 <= i < j < edges.len() ==> (edges[i] as u32) != (edges[j] as u32),
        0 <= at < edges.len(),
        is_for_edge(p, edges[at]),
        0 <= hop < edges.len(),
    ensures
        is_for_hop(
            p,
            vertices[hop],
            edges[hop],
            vertices[hop + 1],
            hop == edges.len() - 1,
        ) <==> hop == at,
{
    reveal_strlit("vertex");
    reveal_strlit("edge");
    assert("vertex"@.len() != "edge"@.len());
    if hop < at {
        assert((edges[hop] as u32) != (edges[at] as u32));
    } else if at < hop {
        assert((edges[at] as u32) != (edges[hop] as u32));
    }
}

fn pick_for_hop(
    predicates: &Vec<PredicateDef>,
    src: VertexId,
    edge: EdgeId,
    dst: VertexId,
    last: bool,
) -> (result: Vec<PredicateDef>)
    ensures
        predicate_views(result@) == for_hop(predicate_views(predicates@), src, edge, dst, last),
{
    let ghost all = predicate_views(predicates@);
    let mut result: Vec<PredicateDef> = Vec::new();
    let mut i: usize = 0;
    assert(all.take(0) =~= Seq::empty());
    assert(predicate_views(result@) =~= Seq::empty());
    while i < predicates.len()
        invariant
            all == predicate_views(predicates@),
            i <= predicates@.len(),
            predicate_views(result@) == for_hop(all.take(i as int), src, edge, dst, last),
        decreases predicates.len() - i,
    {
        let p: &PredicateDef = &predicates[i];
        assert(all.take(i + 1).drop_last() =~= all.take(i as int));
        assert(all.take(i + 1).last() == p@);
        let keep: bool = if is_text(p.target.as_str(), "edge") {
            proof {
                reveal_strlit("vertex");
                reveal_strlit("edge");
                assert("vertex"@.len() != "edge"@.len());
            }
            p.id == (#[verifier::truncate] (edge as u32))
        } else if is_text(p.target.as_str(), "vertex") {
            p.id == (#[verifier::truncate] (src as u32)) || (last && p.id
                == (#[verifier::truncate] (dst as u32)))
        } else {
            false
        };
        if keep {
            let ghost before = result@;
            result.push(p.copy());
            assert(predicate_views(result@) =~= predicate_views(before).push(p@));
        }
        i = i + 1;
    }
    assert(all.take(i as int) =~= all);
    result
}

/// What is wrong with the first `n` hops of a path, if anything.
pub open spec fn first_hop_fault(
    graph: GraphView,
    vertices: Seq<VertexId>,
    edges: Seq<EdgeId>,
    n: int,
) -> Option<PathQueryError>
    decreases n,
{
    if n <= 0 {
        None
    } else if let Some(error) = first_hop_fault(graph, vertices, edges, n - 1) {
        Some(error)
    } else {
        first_fault(graph, seq![vertices[n - 1], vertices[n]], seq![edges[n - 1]], 2)
    }
}

proof fn lemma_hop_fault_stays(
    graph: GraphView,
    vertices: Seq<VertexId>,
    edges: Seq<EdgeId>,
    n: int,
    m: int,
)
    requires
        0 <= n <= m,
        first_hop_fault(graph, vertices, edges, n) is Some,
    ensures
        first_hop_fault(graph, vertices, edges, m) == first_hop_fault(graph, vertices, edges, n),
    decreases m,
{
    if n < m {
        lemma_hop_fault_stays(graph, vertices, edges, n, m - 1);
    }
}

/// Whether a path is one hop of a longer one, with the predicates that are meant for it.
pub open spec fn is_unit(
    graph: GraphView,
    vertices: Seq<VertexId>,
    edges: Seq<EdgeId>,
    predicates: Seq<PredicateView>,
    hop: int,
    query: PathQuery,
) -> bool {
    let ends = seq![vertices[hop], vertices[hop + 1]];
    let along = seq![edges[hop]];
    &&& element_views(query.path_elements@) == line(graph, ends, along, 2)
    &&& predicates_placed(
        query,
        ends,
        along,
        for_hop(
            predicates,
            vertices[hop],
            edges[hop],
            vertices[hop + 1],
            hop == edges.len() - 1,
        ),
        2,
    )
}

impl QueryGraph {
    /// The hops of an abstract edge, each as a path of its own. Every predicate goes to one hop.
    pub fn build_unit_path_queries(&self, abstract_edge: &AbstractEdge) -> (result: Result<
        Vec<PathQuery>,
        PathQueryError,
    >)
        requires
            self@.wf(),
        ensures
            ({
                let edge = abstract_edge@;
                let n = edge.original_edge_ids.len() as int;
                if edge.path_vertices.len() != n + 1 {
                    result matches Err(PathQueryError::LengthMismatch { vertices, edges })
                        && vertices == edge.path_vertices.len() && edges == n
                } else {
                    match first_hop_fault(self@, edge.path_vertices, edge.original_edge_ids, n) {
                        Some(error) => result matches Err(e) && e == error,
                        None => result matches Ok(queries) && queries@.len() == n && forall|i: int|
                            #![trigger queries@[i]]
                            0 <= i < n ==> is_unit(
                                self@,
                                edge.path_vertices,
                                edge.original_edge_ids,
                                edge.predicates,
                                i,
                                queries@[i],
                            ),
                    }
                }
            }),
    {
        let ghost graph = self@;
        let ghost vertices = abstract_edge@.path_vertices;
        let ghost edges = abstract_edge@.original_edge_ids;
        let count: usize = abstract_edge.original_edge_ids.len();
        if abstract_edge.path_vertices.len() == 0 || abstract_edge.path_vertices.len() - 1
            != count {
            return Err(
                PathQueryError::LengthMismatch {
                    vertices: abstract_edge.path_vertices.len(),
                    edges: count,
                },
            );
        }
        let mut queries: Vec<PathQuery> = Vec::new();
        let mut i: usize = 0;
        while i < count
            invariant
                self@.wf(),
                graph == self@,
                vertices == abstract_edge@.path_vertices,
                edges == abstract_edge@.original_edge_ids,
                count == edges.len(),
                vertices.len() == count + 1,
                vertices.len() == abstract_edge.path_vertices.len(),
                i <= count,
                first_hop_fault(graph, vertices, edges, i as int) is None,
                queries@.len() == i,
                forall|j: int|
                    #![trigger queries@[j]]
                    0 <= j < i ==> is_unit(
                        graph,
                        vertices,
                        edges,
                        abstract_edge@.predicates,
                        j,
                        queries@[j],
                    ),
            decreases count - i,
        {
            let src: VertexId = abstract_edge.path_vertices[i];
            let dst: VertexId = abstract_edge.path_vertices[i + 1];
            let edge: EdgeId = abstract_edge.original_edge_ids[i];
            let own: Vec<PredicateDef> = pick_for_hop(
                &abstract_edge.predicates,
                src,
                edge,
                dst,
                i == count - 1,
            );
            let mut ends: Vec<VertexId> = Vec::new();
            ends.push(src);
            ends.push(dst);
            let mut along: Vec<EdgeId> = Vec::new();
            along.push(edge);
            assert(ends@ =~= seq![vertices[i as int], vertices[i + 1]]);
            assert(along@ =~= seq![edges[i as int]]);
            match self.build_path_query_from_parts(&ends, &along, &own) {
                Ok(query) => {
                    queries.push(query);
                },
                Err(error) => {
                    proof {
                        lemma_hop_fault_stays(graph, vertices, edges, i + 1, count as int);
                    }
                    return Err(error);
                },
            }
            i = i + 1;
        }
        Ok(queries)
    }
}

/// One step of a walk: to a vertex whose conditions are looked at, or along an edge.
#[derive(Debug, Clone)]
pub enum FlatCompiledStep {
    Vertex { label: String, predicates: Vec<ResolvedPredicate> },
    Edge {
        label: String,
        edge_label: String,
        outgoing: bool,
        predicates: Vec<ResolvedPredicate>,
    },
}

/// What a step says. An edge is followed from vertices with a label.
pub enum StepView {
    Vertex { label: Seq<char>, predicates: Seq<ResolvedView> },
    Edge {
        label: Seq<char>,
        edge_label: Seq<char>,
        outgoing: bool,
        predicates: Seq<ResolvedView>,
    },
}

impl View for FlatCompiledStep {
    type V = StepView;

    open spec fn view(&self) -> StepView {
        match self {
            FlatCompiledStep::Vertex { label, predicates } => StepView::Vertex {
                label: label@,
                predicates: resolved_views(predicates@),
            },
            FlatCompiledStep::Edge { label, edge_label, outgoing, predicates } => StepView::Edge {
                label: label@,
                edge_label: edge_label@,
                outgoing: *outgoing,
                predicates: resolved_views(predicates@),
            },
        }
    }
}

/// What steps say.
pub open spec fn step_views(steps: Seq<FlatCompiledStep>) -> Seq<StepView> {
    steps.map_values(|s: FlatCompiledStep| s@)
}

/// A plan to walk a path: from one of its vertices to the left and to the right.
#[derive(Debug, Clone)]
pub struct FlatCompiledPathQuery {
    pub start_idx: usize,
    pub start_label: String,
    pub start_predicates: Vec<ResolvedPredicate>,
    pub left_segment: Vec<FlatCompiledStep>,
    pub right_segment: Vec<FlatCompiledStep>,
}

/// What a plan says.
#[verifier::ext_equal]
pub struct PlanView {
    pub start_idx: int,
    pub start_label: Seq<char>,
    pub start_predicates: Seq<ResolvedView>,
    pub left: Seq<StepView>,
    pub right: Seq<StepView>,
}

impl View for FlatCompiledPathQuery {
    type V = PlanView;

    open spec fn view(&self) -> PlanView {
        PlanView {
            start_idx: self.start_idx as int,
            start_label: self.start_label@,
            start_predicates: resolved_views(self.start_predicates@),
            left: step_views(self.left_segment@),
            right: step_views(self.right_segment@),
        }
    }
}

/// A vertex of a path with its conditions.
pub struct StopView {
    pub label: Seq<char>,
    pub predicates: Seq<ResolvedView>,
}

/// An edge of a path with its conditions.
pub struct TrackView {
    pub label: Seq<char>,
    pub direction: EdgeDirection,
    pub predicates: Seq<ResolvedView>,
}

/// The vertices and edges of a path with their conditions.
pub struct Track {
    pub stops: Seq<StopView>,
    pub tracks: Seq<TrackView>,
}

/// The first `n` elements of a path with their conditions, or the first property that the data
/// does not have.
pub open spec fn track_of(data: FlatView, query: PathQuery, n: int) -> Result<Track, FlatErrorView>
    decreases n,
{
    if n <= 0 {
        Ok(Track { stops: Seq::empty(), tracks: Seq::empty() })
    } else {
        match track_of(data, query, n - 1) {
            Err(error) => Err(error),
            Ok(before) => match query.path_elements@[n - 1]@ {
                ElementView::Vertex { label, position } => match resolution(
                    data.vertex_schemas,
                    label,
                    predicates_at(query.vertex_predicates@, position),
                ) {
                    Err(property) => Err(FlatErrorView { on_edge: false, label, property }),
                    Ok(predicates) => Ok(
                        Track {
                            stops: before.stops.push(StopView { label, predicates }),
                            tracks: before.tracks,
                        },
                    ),
                },
                ElementView::Edge { label, position, direction } => match resolution(
                    data.edge_schemas,
                    label,
                    predicates_at(query.edge_predicates@, position),
                ) {
                    Err(property) => Err(FlatErrorView { on_edge: true, label, property }),
                    Ok(predicates) => Ok(
                        Track {
                            stops: before.stops,
                            tracks: before.tracks.push(
                                TrackView { label, direction, predicates },
                            ),
                        },
                    ),
                },
            },
        }
    }
}

/// The steps to the left of a vertex: against the edges before it, back to the first vertex.
pub open spec fn left_steps(track: Track, start: int) -> Seq<StepView> {
    Seq::new(
        (2 * start) as nat,
        |j: int|
            {
                let i = start - 1 - j / 2;
                if j % 2 == 0 {
                    StepView::Edge {
                        label: track.stops[i + 1].label,
                        edge_label: track.tracks[i].label,
                        outgoing: track.tracks[i].direction == EdgeDirection::Incoming,
                        predicates: track.tracks[i].predicates,
                    }
                } else {
                    StepView::Vertex {
                        label: track.stops[i].label,
                        predicates: track.stops[i].predicates,
                    }
                }
            },
    )
}

/// The steps to the right of a vertex: along the edges after it, on to the last vertex.
pub open spec fn right_steps(track: Track, start: int) -> Seq<StepView> {
    Seq::new(
        (2 * (track.tracks.len() - start)) as nat,
        |j: int|
            {
                let i = start + j / 2;
                if j % 2 == 0 {
                    StepView::Edge {
                        label: track.stops[i].label,
                        edge_label: track.tracks[i].label,
                        outgoing: track.tracks[i].direction == EdgeDirection::Outgoing,
                        predicates: track.tracks[i].predicates,
                    }
                } else {
                    StepView::Vertex {
                        label: track.stops[i + 1].label,
                        predicates: track.stops[i + 1].predicates,
                    }
                }
            },
    )
}

/// The plan that starts at a vertex of a path.
pub open spec fn plan_from(track: Track, start: int) -> PlanView {
    PlanView {
        start_idx: start,
        start_label: track.stops[start].label,
        start_predicates: track.stops[start].predicates,
        left: left_steps(track, start),
        right: right_steps(track, start),
    }
}

/// How many vertices are among the first `n` elements of a path.
pub open spec fn vertex_count(query: PathQuery, n: int) -> nat
    decreases n,
{
    if n <= 0 {
        0
    } else {
        vertex_count(query, n - 1) + (if query.path_elements@[n - 1]@ is Vertex {
            1nat
        } else {
            0
        })
    }
}

proof fn lemma_track_len(data: FlatView, query: PathQuery, n: int)
    requires
        n >= 0,
    ensures
        track_of(data, query, n) matches Ok(track) ==> track.stops.len() == vertex_count(query, n)
            && track.tracks.len() == n - vertex_count(query, n),
    decreases n,
{
    if n > 0 {
        lemma_track_len(data, query, n - 1);
    }
}

proof fn lemma_track_fails(data: FlatView, query: PathQuery, n: int, m: int)
    requires
        0 <= n <= m,
        track_of(data, query, n) is Err,
    ensures
        track_of(data, query, m) == track_of(data, query, n),
    decreases m,
{
    if n < m {
        lemma_track_fails(data, query, n, m - 1);
    }
}

impl ResolvedPredicate {
    /// A copy of the condition.
    pub fn copy(&self) -> (result: ResolvedPredicate)
        ensures
            result@ == self@,
    {
        ResolvedPredicate {
            prop_index: self.prop_index,
            op: self.op,
            value: self.value.copy(),
            values: copy_values(&self.values),
        }
    }
}

/// Copies of values.
pub fn copy_values(values: &Vec<ScalarValue>) -> (result: Vec<ScalarValue>)
    ensures
        result@ == values@,
{
    let mut result: Vec<ScalarValue> = Vec::new();
    let mut i: usize = 0;
    while i < values.len()
        invariant
            i <= values@.len(),
            result@ == values@.take(i as int),
        decreases values.len() - i,
    {
        result.push(values[i].copy());
        assert(result@ =~= values@.take(i + 1));
        i = i + 1;
    }
    assert(result@ =~= values@);
    result
}

/// Copies of conditions.
pub fn copy_resolved(predicates: &Vec<ResolvedPredicate>) -> (result: Vec<ResolvedPredicate>)
    ensures
        resolved_views(result@) == resolved_views(predicates@),
{
    let mut result: Vec<ResolvedPredicate> = Vec::new();
    let mut i: usize = 0;
    while i < predicates.len()
        invariant
            i <= predicates@.len(),
            result@.len() == i,
            forall|j: int| #![trigger result@[j]] 0 <= j < i ==> result@[j]@ == predicates@[j]@,
        decreases predicates.len() - i,
    {
        result.push(predicates[i].copy());
        i = i + 1;
    }
    assert(resolved_views(result@) =~= resolved_views(predicates@));
    result
}

struct Stop {
    label: String,
    predicates: Vec<ResolvedPredicate>,
}

struct Rail {
    label: String,
    direction: EdgeDirection,
    predicates: Vec<ResolvedPredicate>,
}

spec fn stops_as_view(stops: Seq<Stop>) -> Seq<StopView> {
    stops.map_values(
        |s: Stop| StopView { label: s.label@, predicates: resolved_views(s.predicates@) },
    )
}

spec fn rails_as_view(rails: Seq<Rail>) -> Seq<TrackView> {
    rails.map_values(
        |r: Rail|
            TrackView {
                label: r.label@,
                direction: r.direction,
                predicates: resolved_views(r.predicates@),
            },
    )
}

fn resolve_at(
    flat_graph: &FlatGraph,
    label: &str,
    map: &HashMap<usize, Vec<PredicateDef>>,
    position: usize,
    on_edge: bool,
) -> (result: Result<Vec<ResolvedPredicate>, FlatError>)
    ensures
        match resolution(
            if on_edge {
                flat_graph@.edge_schemas
            } else {
                flat_graph@.vertex_schemas
            },
            label@,
            predicates_at(map@, position),
        ) {
            Ok(views) => result matches Ok(resolved) && resolved_views(resolved@) == views,
            Err(property) => result matches Err(e) && e@ == (FlatErrorView {
                on_edge,
                label: label@,
                property,
            }),
        },
{
    match map.get(&position) {
        Some(predicates) => if on_edge {
            flat_graph.resolve_edge_predicates(label, predicates)
        } else {
            flat_graph.resolve_vertex_predicates(label, predicates)
        },
        None => {
            let none: Vec<ResolvedPredicate> = Vec::new();
            assert(resolved_views(none@) =~= Seq::empty());
            Ok(none)
        },
    }
}

fn read_track(query: &PathQuery, flat_graph: &FlatGraph) -> (result: Result<
    (Vec<Stop>, Vec<Rail>),
    FlatError,
>)
    ensures
        match track_of(flat_graph@, *query, query.path_elements@.len() as int) {
            Ok(track) => result matches Ok((stops, rails)) && stops_as_view(stops@) == track.stops
                && rails_as_view(rails@) == track.tracks,
            Err(error) => result matches Err(e) && e@ == error,
        },
{
    let ghost data = flat_graph@;
    let ghost n = query.path_elements@.len() as int;
    let mut stops: Vec<Stop> = Vec::new();
    let mut rails: Vec<Rail> = Vec::new();
    let mut i: usize = 0;
    assert(stops_as_view(stops@) =~= Seq::empty());
    assert(rails_as_view(rails@) =~= Seq::empty());
    while i < query.path_elements.len()
        invariant
            data == flat_graph@,
            n == query.path_elements@.len(),
            i <= n,
            track_of(data, *query, i as int) == Ok::<_, FlatErrorView>(
                Track { stops: stops_as_view(stops@), tracks: rails_as_view(rails@) },
            ),
        decreases query.path_elements.len() - i,
    {
        match &query.path_elements[i] {
            PathElement::Vertex { label, position } => {
                match resolve_at(
                    flat_graph,
                    label.as_str(),
                    &query.vertex_predicates,
                    *position,
                    false,
                ) {
                    Ok(predicates) => {
                        let ghost before = stops@;
                        let stop = Stop { label: label.clone(), predicates };
                        stops.push(stop);
                        assert(stops_as_view(stops@) =~= stops_as_view(before).push(
                            StopView {
                                label: label@,
                                predicates: resolved_views(predicates@),
                            },
                        ));
                    },
                    Err(error) => {
                        proof {
                            lemma_track_fails(data, *query, i + 1, n);
                        }
                        return Err(error);
                    },
                }
            },
            PathElement::Edge { label, position, direction } => {
                match resolve_at(
                    flat_graph,
                    label.as_str(),
                    &query.edge_predicates,
                    *position,
                    true,
                ) {
                    Ok(predicates) => {
                        let ghost before = rails@;
                        let rail = Rail { label: label.clone(), direction: *direction, predicates };
                        rails.push(rail);
                        assert(rails_as_view(rails@) =~= rails_as_view(before).push(
                            TrackView {
                                label: label@,
                                direction: *direction,
                                predicates: resolved_views(predicates@),
                            },
                        ));
                    },
                    Err(error) => {
                        proof {
                            lemma_track_fails(data, *query, i + 1, n);
                        }
                        return Err(error);
                    },
                }
            },
        }
        i = i + 1;
    }
    Ok((stops, rails))
}

fn edge_step(from: &Stop, rail: &Rail, outgoing: bool) -> (result: FlatCompiledStep)
    ensures
        result@ == (StepView::Edge {
            label: from.label@,
            edge_label: rail.label@,
            outgoing,
            predicates: resolved_views(rail.predicates@),
        }),
{
    FlatCompiledStep::Edge {
        label: from.label.clone(),
        edge_label: rail.label.clone(),
        outgoing,
        predicates: copy_resolved(&rail.predicates),
    }
}

fn vertex_step(stop: &Stop) -> (result: FlatCompiledStep)
    ensures
        result@ == (StepView::Vertex {
            label: stop.label@,
            predicates: resolved_views(stop.predicates@),
        }),
{
    FlatCompiledStep::Vertex {
        label: stop.label.clone(),
        predicates: copy_resolved(&stop.predicates),
    }
}

fn steps_to_left(stops: &Vec<Stop>, rails: &Vec<Rail>, start: usize) -> (result: Vec<
    FlatCompiledStep,
>)
    requires
        start <= rails@.len() < stops@.len(),
    ensures
        step_views(result@) == left_steps(
            Track { stops: stops_as_view(stops@), tracks: rails_as_view(rails@) },
            start as int,
        ),
{
    let ghost track = Track { stops: stops_as_view(stops@), tracks: rails_as_view(rails@) };
    let ghost all = left_steps(track, start as int);
    let mut result: Vec<FlatCompiledStep> = Vec::new();
    let mut i: usize = start;
    while i > 0
        invariant
            start <= rails@.len() < stops@.len(),
            track == (Track { stops: stops_as_view(stops@), tracks: rails_as_view(rails@) }),
            all == left_steps(track, start as int),
            i <= start,
            result@.len() == 2 * (start - i),
            forall|j: int|
                #![trigger result@[j]]
                0 <= j < result@.len() ==> result@[j]@ == all[j],
        decreases i,
    {
        i = i - 1;
        let outgoing: bool = match rails[i].direction {
            EdgeDirection::Incoming => true,
            EdgeDirection::Outgoing => false,
        };
        let ghost j = result@.len() as int;
        proof {
            assert(j == 2 * (start - 1 - i));
            assert(j / 2 == start - 1 - i);
            assert((j + 1) / 2 == start - 1 - i);
            assert((j + 1) % 2 == 1);
            assert(track.stops[i + 1].label == stops@[i + 1].label@);
            assert(track.tracks[i as int].label == rails@[i as int].label@);
            assert(track.stops[i as int].label == stops@[i as int].label@);
        }
        result.push(edge_step(&stops[i + 1], &rails[i], outgoing));
        assert(result@[j]@ == all[j]);
        result.push(vertex_step(&stops[i]));
        assert(result@[j + 1]@ == all[j + 1]);
    }
    assert(step_views(result@) =~= all);
    result
}

fn steps_to_right(stops: &Vec<Stop>, rails: &Vec<Rail>, start: usize) -> (result: Vec<
    FlatCompiledStep,
>)
    requires
        start <= rails@.len() < stops@.len(),
    ensures
        step_views(result@) == right_steps(
            Track { stops: stops_as_view(stops@), tracks: rails_as_view(rails@) },
            start as int,
        ),
{
    let ghost track = Track { stops: stops_as_view(stops@), tracks: rails_as_view(rails@) };
    let ghost all = right_steps(track, start as int);
    let mut result: Vec<FlatCompiledStep> = Vec::new();
    let mut i: usize = start;
    while i < rails.len()
        invariant
            start <= rails@.len() < stops@.len(),
            track == (Track { stops: stops_as_view(stops@), tracks: rails_as_view(rails@) }),
            all == right_steps(track, start as int),
            start <= i <= rails@.len(),
            result@.len() == 2 * (i - start),
            forall|j: int|
                #![trigger result@[j]]
                0 <= j < result@.len() ==> result@[j]@ == all[j],
        decreases rails.len() - i,
    {
        let outgoing: bool = match rails[i].direction {
            EdgeDirection::Incoming => false,
            EdgeDirection::Outgoing => true,
        };
        let ghost j = result@.len() as int;
        proof {
            assert(j / 2 == i - start);
            assert((j + 1) / 2 == i - start);
            assert((j + 1) % 2 == 1);
            assert(track.stops[i + 1].label == stops@[i + 1].label@);
            assert(track.tracks[i as int].label == rails@[i as int].label@);
            assert(track.stops[i as int].label == stops@[i as int].label@);
        }
        result.push(edge_step(&stops[i], &rails[i], outgoing));
        assert(result@[j]@ == all[j]);
        result.push(vertex_step(&stops[i + 1]));
        assert(result@[j + 1]@ == all[j + 1]);
        i = i + 1;
    }
    assert(step_views(result@) =~= all);
    result
}

/// What plans say.
pub open spec fn plan_views(plans: Seq<FlatCompiledPathQuery>) -> Seq<PlanView> {
    plans.map_values(|p: FlatCompiledPathQuery| p@)
}

impl FlatCompiledPathQuery {
    /// The plans for a path: one from each of its vertices. A path without vertices has none.
    pub fn compile_all(path_query: &PathQuery, flat_graph: &FlatGraph) -> (result: Result<
        Vec<FlatCompiledPathQuery>,
        FlatError,
    >)
        requires
            ({
                let n = path_query.path_elements@.len() as int;
                let vertices = vertex_count(*path_query, n);
                vertices == 0 || vertices > n - vertices
            }),
        ensures
            match track_of(
                flat_graph@,
                *path_query,
                path_query.path_elements@.len() as int,
            ) {
                Err(error) => result matches Err(e) && e@ == error,
                Ok(track) => result matches Ok(plans) && plan_views(plans@) == (
                if track.stops.len() == 0 {
                    Seq::<PlanView>::empty()
                } else {
                    Seq::new(track.tracks.len() + 1, |i: int| plan_from(track, i))
                }),
            },
    {
        let ghost n = path_query.path_elements@.len() as int;
        proof {
            lemma_track_len(flat_graph@, *path_query, n);
        }
        let (stops, rails) = match read_track(path_query, flat_graph) {
            Ok(read) => read,
            Err(error) => {
                return Err(error);
            },
        };
        let ghost track = Track { stops: stops_as_view(stops@), tracks: rails_as_view(rails@) };
        let mut plans: Vec<FlatCompiledPathQuery> = Vec::new();
        assert(track.stops.len() == stops@.len());
        assert(track.tracks.len() == rails@.len());
        if stops.len() == 0 {
            assert(plan_views(plans@) =~= Seq::empty());
            return Ok(plans);
        }
        let mut start: usize = 0;
        while start <= rails.len()
            invariant
                rails@.len() < stops@.len(),
                stops@.len() == stops.len(),
                track == (Track { stops: stops_as_view(stops@), tracks: rails_as_view(rails@) }),
                start <= rails@.len() + 1,
                plans@.len() == start,
                forall|j: int|
                    #![trigger plans@[j]]
                    0 <= j < start ==> plans@[j]@ == plan_from(track, j),
            decreases rails@.len() + 1 - start,
        {
            let plan = FlatCompiledPathQuery {
                start_idx: start,
                start_label: stops[start].label.clone(),
                start_predicates: copy_resolved(&stops[start].predicates),
                left_segment: steps_to_left(&stops, &rails, start),
                right_segment: steps_to_right(&stops, &rails, start),
            };
            assert(track.stops[start as int].label == stops@[start as int].label@);
            assert(plan@ =~= plan_from(track, start as int));
            plans.push(plan);
            start = start + 1;
        }
        assert(plan_views(plans@) =~= Seq::new(
            track.tracks.len() + 1,
            |i: int| plan_from(track, i),
        ));
        Ok(plans)
    }
}

proof fn lemma_line_prefix(
    graph: GraphView,
    vertices: Seq<VertexId>,
    edges: Seq<EdgeId>,
    n: int,
    m: int,
)
    requires
        0 <= n <= m,
    ensures
        line(graph, vertices, edges, n).len() <= line(graph, vertices, edges, m).len(),
        forall|i: int|
            0 <= i < line(graph, vertices, edges, n).len() ==> #[trigger] line(
                graph,
                vertices,
                edges,
                n,
            )[i] == line(graph, vertices, edges, m)[i],
    decreases m,
{
    if n < m {
        lemma_line_prefix(graph, vertices, edges, n, m - 1);
    }
}

proof fn lemma_line_vertices(
    graph: GraphView,
    vertices: Seq<VertexId>,
    edges: Seq<EdgeId>,
    query: PathQuery,
    n: int,
)
    requires
        0 <= n <= vertices.len(),
        element_views(query.path_elements@) == line(
            graph,
            vertices,
            edges,
            vertices.len() as int,
        ),
    ensures
        vertex_count(query, line(graph, vertices, edges, n).len() as int) == n,
        line(graph, vertices, edges, n).len() == n + (if n < edges.len() {
            n
        } else {
            edges.len() as int
        }),
    decreases n,
{
    if n > 0 {
        let all = line(graph, vertices, edges, vertices.len() as int);
        let shorter = line(graph, vertices, edges, n - 1).len() as int;
        lemma_line_vertices(graph, vertices, edges, query, n - 1);
        lemma_line_prefix(graph, vertices, edges, n, vertices.len() as int);
        let here = line(graph, vertices, edges, n);
        assert(here[shorter] is Vertex);
        assert(all[shorter] == here[shorter]);
        assert(query.path_elements@[shorter]@ == element_views(query.path_elements@)[shorter]);
        assert(vertex_count(query, shorter + 1) == n);
        if n - 1 < edges.len() {
            assert(here[shorter + 1] is Edge);
            assert(all[shorter + 1] == here[shorter + 1]);
            assert(query.path_elements@[shorter + 1]@ == element_views(
                query.path_elements@,
            )[shorter + 1]);
        }
    }
}

/// A line with fewer edges than vertices can be compiled: its vertices are those of the path, and
/// there are more of them than edges.
pub proof fn lines_can_be_compiled(
    graph: GraphView,
    vertices: Seq<VertexId>,
    edges: Seq<EdgeId>,
    query: PathQuery,
)
    requires
        edges.len() < vertices.len(),
        element_views(query.path_elements@) == line(
            graph,
            vertices,
            edges,
            vertices.len() as int,
        ),
    ensures
        ({
            let n = query.path_elements@.len() as int;
            vertex_count(query, n) == vertices.len() && vertices.len() > n - vertices.len()
        }),
{
    lemma_line_vertices(graph, vertices, edges, query, vertices.len() as int);
    assert(element_views(query.path_elements@).len() == query.path_elements@.len());
}

} // verus!
