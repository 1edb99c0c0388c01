//! What the catalog and the data say of abstract edges.
use crate::abstraction::{
    cardinality_of, edge_labels, vertex_labels, AbstractEdge, AbstractView,
};
use crate::catalog::{listed_degrees, DegreeSeqGraph};
use crate::chance::contents;
use crate::decompose::{
    determines, determines_back, determines_forth, first_missing_edge, first_missing_vertex,
    follows, is_determined, DecompositionError,
};
use crate::estimate::{
    compute_selectivity_flat_for_path_query, may_yield, FlatWalk, SelectivityEvidence, StartSample,
};
use crate::flat::{FlatError, FlatGraph, FlatView};
use crate::path_query::{
    element_views, first_fault, first_hop_fault, is_unit, line, lines_can_be_compiled,
    predicates_placed, FlatCompiledPathQuery, PathQuery, PathQueryError,
};
use crate::pattern::{first_direction, make_alt_key, AltKey, PathView};
use crate::query::{
    flags_determine_direction, predicate_views, EdgeId, FunctionalDirection, GraphView, QueryGraph,
    VertexId,
};
use crate::raw_stars::{samples_predicates, PredicateApplyType};
use crate::schema::EdgeCardinality;
use crate::spanning::copy_ids;
use crate::text::label_views;
use dashmap::DashMap;
use rand::rngs::StdRng;
use vstd::prelude::*;
use vstd::string::*;

verus! {

/// The text for a path: the first `n` vertices, each with the edge after it.
pub open spec fn described(nodes: Seq<Seq<char>>, edges: Seq<Seq<char>>, n: int) -> Seq<char>
    decreases n,
{
    if n <= 0 {
        ""@
    } else {
        let before = described(nodes, edges, n - 1) + nodes[n - 1] + " -> "@;
        if n - 1 < edges.len() {
            before + edges[n - 1] + " ->"@
        } else {
            before
        }
    }
}

/// The text for a path.
pub fn describe_path(nodes: &Vec<String>, edges: &Vec<String>) -> (result: String)
    ensures
        result@ == described(label_views(nodes@), label_views(edges@), nodes@.len() as int),
{
    let ghost ns = label_views(nodes@);
    let ghost es = label_views(edges@);
    let mut out: String = "".to_owned();
    let mut i: usize = 0;
    while i < nodes.len()
        invariant
            ns == label_views(nodes@),
            es == label_views(edges@),
            i <= nodes@.len(),
            out@ == described(ns, es, i as int),
        decreases nodes.len() - i,
    {
        assert(ns[i as int] == nodes@[i as int]@);
        out.append(nodes[i].as_str());
        out.append(" -> ");
        if i < edges.len() {
            assert(es[i as int] == edges@[i as int]@);
            out.append(edges[i].as_str());
            out.append(" ->");
        }
        i = i + 1;
    }
    out
}

/// What the catalog has for an abstract edge: the key of its path, the degree sequences at its
/// ends, and whether its predicates are to be sampled.
#[derive(Debug)]
pub struct EdgeFill {
    pub key: AltKey,
    pub src_degrees: Option<Vec<u64>>,
    pub dst_degrees: Option<Vec<u64>>,
    pub samples: bool,
}

/// The labels along an abstract edge.
pub open spec fn labels_of(graph: GraphView, edge: AbstractView) -> PathView {
    PathView {
        vs: vertex_labels(graph, edge.path_vertices),
        es: edge_labels(graph, edge.original_edge_ids),
    }
}

/// The first vertex or edge of an abstract edge that the query does not have.
pub open spec fn first_absence(graph: GraphView, edge: AbstractView) -> Option<DecompositionError> {
    match first_missing_vertex(graph, edge.path_vertices) {
        Some(id) => Some(DecompositionError::VertexNotFound(id)),
        None => match first_missing_edge(graph, edge.original_edge_ids) {
            Some(id) => Some(DecompositionError::EdgeNotFound(id)),
            None => if graph.vertex(edge.src) is None {
                Some(DecompositionError::VertexNotFound(edge.src))
            } else if graph.vertex(edge.dst) is None {
                Some(DecompositionError::VertexNotFound(edge.dst))
            } else {
                None
            },
        },
    }
}

/// The direction in which an abstract edge determines its ends.
pub open spec fn direction_of(
    graph: GraphView,
    catalog: DegreeSeqGraph,
    refine: bool,
    edge: AbstractView,
) -> FunctionalDirection {
    let n = edge.original_edge_ids.len() as int;
    if !refine || !follows(graph, edge) {
        FunctionalDirection::Neither
    } else if determines_forth(graph, catalog, edge, n) {
        if determines_back(graph, catalog, edge, n) {
            FunctionalDirection::Both
        } else {
            FunctionalDirection::SrcToDst
        }
    } else if determines_back(graph, catalog, edge, n) {
        FunctionalDirection::DstToSrc
    } else {
        FunctionalDirection::Neither
    }
}

/// An abstract edge with its text and its direction.
pub open spec fn noted(
    graph: GraphView,
    catalog: DegreeSeqGraph,
    refine: bool,
    edge: AbstractView,
) -> AbstractView {
    let labels = labels_of(graph, edge);
    AbstractView {
        functional: direction_of(graph, catalog, refine, edge),
        path_str: described(labels.vs, labels.es, labels.vs.len() as int),
        ..edge
    }
}

/// Degrees that are there.
pub open spec fn degrees_view(degrees: Option<Vec<u64>>) -> Option<Seq<u64>> {
    match degrees {
        Some(list) => Some(list@),
        None => None,
    }
}

/// Whether this is what the catalog has for an abstract edge.
pub open spec fn is_fill(
    graph: GraphView,
    catalog: DegreeSeqGraph,
    has_data: bool,
    mode: PredicateApplyType,
    edge: AbstractView,
    fill: EdgeFill,
) -> bool {
    let entries = catalog.edge_set_to_endpoints@;
    &&& fill.key@ == first_direction(labels_of(graph, edge).interleaved())
    &&& degrees_view(fill.src_degrees) == listed_degrees(
        entries,
        fill.key@,
        graph.vertex(edge.src)->0.label,
    )
    &&& degrees_view(fill.dst_degrees) == listed_degrees(
        entries,
        fill.key@,
        graph.vertex(edge.dst)->0.label,
    )
    &&& fill.samples == (has_data && edge.predicates.len() > 0 && samples_predicates(mode))
}

proof fn lemma_all_labels(graph: GraphView, vertices: Seq<VertexId>, edges: Seq<EdgeId>)
    ensures
        first_missing_vertex(graph, vertices) is None ==> vertex_labels(graph, vertices).len()
            == vertices.len(),
        first_missing_edge(graph, edges) is None ==> edge_labels(graph, edges).len()
            == edges.len(),
    decreases vertices.len() + edges.len(),
{
    if vertices.len() > 0 {
        lemma_all_labels(graph, vertices.drop_last(), edges);
    } else if edges.len() > 0 {
        lemma_all_labels(graph, vertices, edges.drop_last());
    }
}

fn copy_found(found: Option<&Vec<u64>>) -> (result: Option<Vec<u64>>)
    ensures
        match found {
            Some(degrees) => degrees_view(result) == Some(degrees@),
            None => result is None,
        },
{
    match found {
        Some(degrees) => Some(copy_ids(degrees)),
        None => None,
    }
}

impl QueryGraph {
    /// Looks up what the catalog has for an abstract edge, and notes its text and the direction
    /// in which it determines its ends.
    pub fn fill_abstract_edge(
        &self,
        abstract_edge: &mut AbstractEdge,
        catalog: &DegreeSeqGraph,
        has_data: bool,
        mode: PredicateApplyType,
        refine: bool,
    ) -> (result: Result<EdgeFill, DecompositionError>)
        requires
            self@.wf(),
            old(abstract_edge).path_vertices@.len() == old(
                abstract_edge,
            ).original_edge_ids@.len() + 1,
        ensures
            match first_absence(self@, old(abstract_edge)@) {
                Some(error) => result == Err::<EdgeFill, _>(error) && final(abstract_edge)@ == old(
                    abstract_edge,
                )@,
                None => {
                    &&& result matches Ok(fill) && is_fill(
                        self@,
                        *catalog,
                        has_data,
                        mode,
                        old(abstract_edge)@,
                        fill,
                    )
                    &&& final(abstract_edge)@ == noted(
                        self@,
                        *catalog,
                        refine,
                        old(abstract_edge)@,
                    )
                },
            },
    {
        let ghost edge = abstract_edge@;
        if let Some(id) = self.find_missing_vertex(&abstract_edge.path_vertices) {
            return Err(DecompositionError::VertexNotFound(id));
        }
        if let Some(id) = self.find_missing_edge(&abstract_edge.original_edge_ids) {
            return Err(DecompositionError::EdgeNotFound(id));
        }
        let nodes: Vec<String> = self.labels_of_vertices(
            &abstract_edge.path_vertices,
            0,
            abstract_edge.path_vertices.len(),
        );
        let edges: Vec<String> = self.labels_of_edges(
            &abstract_edge.original_edge_ids,
            0,
            abstract_edge.original_edge_ids.len(),
        );
        proof {
            let vs = edge.path_vertices;
            let es = edge.original_edge_ids;
            lemma_all_labels(self@, vs, es);
            assert(vs.subrange(0, vs.len() as int) =~= vs);
            assert(es.subrange(0, es.len() as int) =~= es);
            assert(label_views(nodes@).len() == nodes@.len());
            assert(label_views(edges@).len() == edges@.len());
        }
        let key: AltKey = make_alt_key(&nodes, &edges);
        let src_degrees: Option<Vec<u64>> = match self.get_vertex(abstract_edge.src) {
            None => {
                return Err(DecompositionError::VertexNotFound(abstract_edge.src));
            },
            Some(v) => copy_found(catalog.materialized_degrees(&key, v.label.as_str())),
        };
        let dst_degrees: Option<Vec<u64>> = match self.get_vertex(abstract_edge.dst) {
            None => {
                return Err(DecompositionError::VertexNotFound(abstract_edge.dst));
            },
            Some(v) => copy_found(catalog.materialized_degrees(&key, v.label.as_str())),
        };
        let sampling: bool = match mode {
            PredicateApplyType::IGNORE => false,
            _ => true,
        };
        assert(predicate_views(abstract_edge.predicates@).len() == abstract_edge.predicates@.len());
        let samples: bool = has_data && abstract_edge.predicates.len() > 0 && sampling;
        let direction: FunctionalDirection = self.functional_direction_for_abstract_edge(
            abstract_edge,
            catalog,
            refine,
        );
        abstract_edge.path_str = describe_path(&nodes, &edges);
        abstract_edge.functional = direction;
        proof {
            flags_determine_direction(direction, direction_of(self@, *catalog, refine, edge));
            assert(abstract_edge@ =~= noted(self@, *catalog, refine, edge));
        }
        Ok(EdgeFill { key, src_degrees, dst_degrees, samples })
    }
}

/// Why the selectivity of an abstract edge cannot be found.
#[derive(Debug)]
pub enum SelectivityError {
    /// The abstract edge is no path of the query.
    Path(PathQueryError),
    /// The data has not a property that is asked for.
    Data(FlatError),
}

/// Whether a path is that of an abstract edge.
pub open spec fn is_path_of(graph: GraphView, edge: AbstractView, query: PathQuery) -> bool {
    let n = edge.path_vertices.len() as int;
    &&& element_views(query.path_elements@) == line(
        graph,
        edge.path_vertices,
        edge.original_edge_ids,
        n,
    )
    &&& predicates_placed(
        query,
        edge.path_vertices,
        edge.original_edge_ids,
        edge.predicates,
        n,
    )
}

/// Whether paths are the hops of an abstract edge.
pub open spec fn are_hops_of(graph: GraphView, edge: AbstractView, queries: Seq<PathQuery>) -> bool {
    &&& queries.len() == edge.original_edge_ids.len()
    &&& forall|i: int|
        #![trigger queries[i]]
        0 <= i < queries.len() ==> is_unit(
            graph,
            edge.path_vertices,
            edge.original_edge_ids,
            edge.predicates,
            i,
            queries[i],
        )
}

/// Whether this was found out of how selective the first of some paths are, one after the other,
/// while the cache held one thing after the other.
pub open spec fn have_yielded<
    C: Fn(&Vec<FlatCompiledPathQuery>) -> Option<usize>,
    U: Fn(&Vec<FlatWalk>) -> bool,
    S: Fn(&Vec<StartSample>) -> bool,
>(
    data: FlatView,
    queries: Seq<PathQuery>,
    sample_size: nat,
    choice: C,
    uneven: U,
    settled: S,
    held: Seq<Map<Seq<char>, Seq<VertexId>>>,
    all: Seq<SelectivityEvidence>,
) -> bool {
    &&& held.len() == all.len() + 1
    &&& all.len() <= queries.len()
    &&& forall|i: int|
        #![trigger all[i]]
        0 <= i < all.len() ==> may_yield(
            data,
            queries[i],
            sample_size,
            choice,
            uneven,
            settled,
            held[i],
            held[i + 1],
            Ok(all[i]),
        )
}

/// Whether this may be found out of how selective paths are, one after the other: the evidence
/// for all of them, or the first failure.
pub open spec fn may_yield_all<
    C: Fn(&Vec<FlatCompiledPathQuery>) -> Option<usize>,
    U: Fn(&Vec<FlatWalk>) -> bool,
    S: Fn(&Vec<StartSample>) -> bool,
>(
    data: FlatView,
    queries: Seq<PathQuery>,
    sample_size: nat,
    choice: C,
    uneven: U,
    settled: S,
    before: Map<Seq<char>, Seq<VertexId>>,
    after: Map<Seq<char>, Seq<VertexId>>,
    result: Result<Vec<SelectivityEvidence>, SelectivityError>,
) -> bool {
    match result {
        Ok(all) => all@.len() == queries.len() && exists|
            held: Seq<Map<Seq<char>, Seq<VertexId>>>,
        | #[trigger]
            have_yielded(data, queries, sample_size, choice, uneven, settled, held, all@)
                && held.first() == before && held.last() == after,
        Err(SelectivityError::Data(error)) => exists|
            held: Seq<Map<Seq<char>, Seq<VertexId>>>,
            all: Seq<SelectivityEvidence>,
        | #[trigger]
            have_yielded(data, queries, sample_size, choice, uneven, settled, held, all)
                && held.first() == before && held.last() == after && all.len() < queries.len()
                && may_yield(
                data,
                queries[all.len() as int],
                sample_size,
                choice,
                uneven,
                settled,
                after,
                after,
                Err(error),
            ),
        Err(SelectivityError::Path(_)) => false,
    }
}

impl QueryGraph {
    /// The evidence for how selective an abstract edge is.
    pub fn compute_selectivity_flat<
        C: Fn(&Vec<FlatCompiledPathQuery>) -> Option<usize>,
        U: Fn(&Vec<FlatWalk>) -> bool,
        S: Fn(&Vec<StartSample>) -> bool,
    >(
        &self,
        flat_graph: &FlatGraph,
        abstract_edge: &AbstractEdge,
        sample_size: usize,
        cache: &mut DashMap<String, Vec<VertexId>>,
        choice: &C,
        uneven: &U,
        settled: &S,
        rng: &mut StdRng,
    ) -> (result: Result<SelectivityEvidence, SelectivityError>)
        requires
            self@.wf(),
            abstract_edge@.original_edge_ids.len() < abstract_edge@.path_vertices.len(),
            2 * abstract_edge@.path_vertices.len() <= usize::MAX,
            forall|plans: &Vec<FlatCompiledPathQuery>| #[trigger] choice.requires((plans,)),
            forall|plans: &Vec<FlatCompiledPathQuery>, i: usize| #[trigger]
                choice.ensures((plans,), Some(i)) ==> i < plans@.len(),
            forall|walks: &Vec<FlatWalk>| #[trigger] uneven.requires((walks,)),
            forall|samples: &Vec<StartSample>| #[trigger] settled.requires((samples,)),
        ensures
            match first_fault(
                self@,
                abstract_edge@.path_vertices,
                abstract_edge@.original_edge_ids,
                abstract_edge@.path_vertices.len() as int,
            ) {
                Some(error) => result == Err::<SelectivityEvidence, _>(
                    SelectivityError::Path(error),
                ) && contents(*final(cache)) == contents(*old(cache)),
                None => exists|query: PathQuery| #[trigger]
                    is_path_of(self@, abstract_edge@, query) && match result {
                        Ok(evidence) => may_yield(
                            flat_graph@,
                            query,
                            sample_size as nat,
                            *choice,
                            *uneven,
                            *settled,
                            contents(*old(cache)),
                            contents(*final(cache)),
                            Ok(evidence),
                        ),
                        Err(SelectivityError::Data(error)) => may_yield(
                            flat_graph@,
                            query,
                            sample_size as nat,
                            *choice,
                            *uneven,
                            *settled,
                            contents(*old(cache)),
                            contents(*final(cache)),
                            Err(error),
                        ),
                        Err(SelectivityError::Path(_)) => false,
                    },
            },
    {
        let query: PathQuery = match self.build_path_query(abstract_edge) {
            Ok(query) => query,
            Err(error) => {
                return Err(SelectivityError::Path(error));
            },
        };
        proof {
            assert(is_path_of(self@, abstract_edge@, query));
            lines_can_be_compiled(
                self@,
                abstract_edge@.path_vertices,
                abstract_edge@.original_edge_ids,
                query,
            );
        }
        match compute_selectivity_flat_for_path_query(
            flat_graph,
            &query,
            sample_size,
            cache,
            choice,
            uneven,
            settled,
            rng,
        ) {
            Ok(evidence) => Ok(evidence),
            Err(error) => Err(SelectivityError::Data(error)),
        }
    }

    /// The evidence for how selective the hops of an abstract edge are, hop by hop.
    pub fn compute_selectivity_flat_unit_paths<
        C: Fn(&Vec<FlatCompiledPathQuery>) -> Option<usize>,
        U: Fn(&Vec<FlatWalk>) -> bool,
        S: Fn(&Vec<StartSample>) -> bool,
    >(
        &self,
        flat_graph: &FlatGraph,
        abstract_edge: &AbstractEdge,
        sample_size: usize,
        cache: &mut DashMap<String, Vec<VertexId>>,
        choice: &C,
        uneven: &U,
        settled: &S,
        rng: &mut StdRng,
    ) -> (result: Result<Vec<SelectivityEvidence>, SelectivityError>)
        requires
            self@.wf(),
            forall|plans: &Vec<FlatCompiledPathQuery>| #[trigger] choice.requires((plans,)),
            forall|plans: &Vec<FlatCompiledPathQuery>, i: usize| #[trigger]
                choice.ensures((plans,), Some(i)) ==> i < plans@.len(),
            forall|walks: &Vec<FlatWalk>| #[trigger] uneven.requires((walks,)),
            forall|samples: &Vec<StartSample>| #[trigger] settled.requires((samples,)),
        ensures
            ({
                let edge = abstract_edge@;
                let n = edge.original_edge_ids.len() as int;
                if edge.path_vertices.len() != n + 1 {
                    result matches Err(
                        SelectivityError::Path(PathQueryError::LengthMismatch { vertices, edges }),
                    ) && vertices == edge.path_vertices.len() && edges == n && contents(*final(cache))
                        == contents(*old(cache))
                } else {
                    match first_hop_fault(self@, edge.path_vertices, edge.original_edge_ids, n) {
                        Some(error) => result == Err::<Vec<SelectivityEvidence>, _>(
                            SelectivityError::Path(error),
                        ) && contents(*final(cache)) == contents(*old(cache)),
                        None => exists|queries: Seq<PathQuery>| #[trigger]
                            are_hops_of(self@, edge, queries) && may_yield_all(
                                flat_graph@,
                                queries,
                                sample_size as nat,
                                *choice,
                                *uneven,
                                *settled,
                                contents(*old(cache)),
                                contents(*final(cache)),
                                result,
                            ),
                    }
                }
            }),
    {
        let queries: Vec<PathQuery> = match self.build_unit_path_queries(abstract_edge) {
            Ok(queries) => queries,
            Err(error) => {
                return Err(SelectivityError::Path(error));
            },
        };
        let ghost edge = abstract_edge@;
        assert(are_hops_of(self@, edge, queries@));
        let mut all: Vec<SelectivityEvidence> = Vec::new();
        let ghost mut held = seq![contents(*cache)];
        let mut i: usize = 0;
        while i < queries.len()
            invariant
                are_hops_of(self@, edge, queries@),
                forall|plans: &Vec<FlatCompiledPathQuery>| #[trigger] choice.requires((plans,)),
                forall|plans: &Vec<FlatCompiledPathQuery>, i: usize| #[trigger]
                    choice.ensures((plans,), Some(i)) ==> i < plans@.len(),
                forall|walks: &Vec<FlatWalk>| #[trigger] uneven.requires((walks,)),
                forall|samples: &Vec<StartSample>| #[trigger] settled.requires((samples,)),
                edge == abstract_edge@,
                edge.path_vertices.len() == edge.original_edge_ids.len() + 1,
                first_hop_fault(
                    self@,
                    edge.path_vertices,
                    edge.original_edge_ids,
                    edge.original_edge_ids.len() as int,
                ) is None,
                i <= queries@.len(),
                all@.len() == i,
                held.first() == contents(*old(cache)),
                held.last() == contents(*cache),
                have_yielded(
                    flat_graph@,
                    queries@,
                    sample_size as nat,
                    *choice,
                    *uneven,
                    *settled,
                    held,
                    all@,
                ),
            decreases queries.len() - i,
        {
            proof {
                let hop = i as int;
                let ends = seq![edge.path_vertices[hop], edge.path_vertices[hop + 1]];
                assert(is_unit(
                    self@,
                    edge.path_vertices,
                    edge.original_edge_ids,
                    edge.predicates,
                    hop,
                    queries@[hop],
                ));
                lines_can_be_compiled(
                    self@,
                    ends,
                    seq![edge.original_edge_ids[hop]],
                    queries@[hop],
                );
            }
            match compute_selectivity_flat_for_path_query(
                flat_graph,
                &queries[i],
                sample_size,
                cache,
                choice,
                uneven,
                settled,
                rng,
            ) {
                Ok(evidence) => {
                    let ghost seen = all@;
                    let ghost states = held;
                    all.push(evidence);
                    proof {
                        held = held.push(contents(*cache));
                        assert forall|j: int| #![trigger all@[j]] 0 <= j < all@.len() implies may_yield(
                            flat_graph@,
                            queries@[j],
                            sample_size as nat,
                            *choice,
                            *uneven,
                            *settled,
                            held[j],
                            held[j + 1],
                            Ok(all@[j]),
                        ) by {
                            if j < seen.len() {
                                assert(all@[j] == seen[j]);
                                assert(held[j] == states[j] && held[j + 1] == states[j + 1]);
                            }
                        }
                    }
                },
                Err(error) => {
                    return Err(SelectivityError::Data(error));
                },
            }
            i = i + 1;
        }
        Ok(all)
    }
}

/// Whether an edge that is followed from one vertex to another has many at the one end and one at
/// the other: by its type, which is from many to one where it is followed forth, and from one to
/// many where it is followed back.
pub open spec fn has_one_there(
    graph: GraphView,
    catalog: DegreeSeqGraph,
    id: EdgeId,
    from: VertexId,
    to: VertexId,
) -> bool {
    graph.edge(id) matches Some(e) && if e.src == from && e.dst == to {
        cardinality_of(catalog, e.label) == EdgeCardinality::ManyToOne
    } else {
        e.src == to && e.dst == from && cardinality_of(catalog, e.label)
            == EdgeCardinality::OneToMany
    }
}

/// An abstract edge determines its destination exactly where every edge on the way has one vertex
/// there, and its source exactly where, on the way back, every edge has; and where its edges follow
/// its vertices and that is asked for at all.
pub proof fn directions_follow_the_edges(
    graph: GraphView,
    catalog: DegreeSeqGraph,
    refine: bool,
    edge: AbstractView,
)
    requires
        forall|i: int|
            #![trigger edge.path_vertices[i]]
            0 < i < edge.path_vertices.len() ==> edge.path_vertices[i] != edge.path_vertices[i - 1],
    ensures
        !refine || !follows(graph, edge) ==> direction_of(graph, catalog, refine, edge)
            == FunctionalDirection::Neither,
        refine && follows(graph, edge) ==> {
            &&& direction_of(graph, catalog, refine, edge).forth() <==> forall|i: int|
                #![trigger edge.original_edge_ids[i]]
                0 <= i < edge.original_edge_ids.len() ==> has_one_there(
                    graph,
                    catalog,
                    edge.original_edge_ids[i],
                    edge.path_vertices[i],
                    edge.path_vertices[i + 1],
                )
            &&& direction_of(graph, catalog, refine, edge).back() <==> forall|i: int|
                #![trigger edge.original_edge_ids[i]]
                0 <= i < edge.original_edge_ids.len() ==> has_one_there(
                    graph,
                    catalog,
                    edge.original_edge_ids[i],
                    edge.path_vertices[i + 1],
                    edge.path_vertices[i],
                )
        },
{
    if refine && follows(graph, edge) {
        let n = edge.original_edge_ids.len() as int;
        assert forall|i: int| #![trigger edge.original_edge_ids[i]] 0 <= i < n implies determines(
            catalog,
            graph.edge(edge.original_edge_ids[i])->0,
            edge.path_vertices[i],
            edge.path_vertices[i + 1],
        ) == has_one_there(
            graph,
            catalog,
            edge.original_edge_ids[i],
            edge.path_vertices[i],
            edge.path_vertices[i + 1],
        ) && is_determined(
            catalog,
            graph.edge(edge.original_edge_ids[i])->0,
            edge.path_vertices[i],
            edge.path_vertices[i + 1],
        ) == has_one_there(
            graph,
            catalog,
            edge.original_edge_ids[i],
            edge.path_vertices[i + 1],
            edge.path_vertices[i],
        ) by {
            let e = graph.edge(edge.original_edge_ids[i])->0;
            assert(edge.path_vertices[i + 1] != edge.path_vertices[i + 1 - 1]);
        }
    }
}

} // verus!
