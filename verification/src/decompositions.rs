//! All decompositions of a query: of its ranked spanning trees where it has a cycle, with and
//! without what can be taken out of it first.
use crate::abstraction::{abstract_lists, AbstractEdge, AbstractView};
use crate::branches::{StarError, StarErrorView};
use crate::catalog::DegreeSeqGraph;
use crate::chance::contents;
use crate::connect::{acyclic, ids_of};
use crate::decompose::{
    are_candidates, are_routes, combined, residual, residual_share, share, DecompositionError,
    QueryShape,
};
use crate::estimate::{estimate_single_vertex_cardinality, may_estimate_vertex, VertexEstimate};
use crate::extraction::factor_views;
use crate::flat::{FlatError, FlatGraph};
use crate::paths::RouteView;
use crate::query::{EdgeId, EdgeView, GraphView, QueryGraph, VertexId};
use crate::ranking::{is_cut_out, is_ranking};
use crate::raw_stars::{
    branch_edges, branch_owned, may_extract, may_fail, tags_used, Extraction, PredicateApplyType,
};
use crate::spanning::total_cost;
use crate::trees::subgraph;
use dashmap::DashMap;
use std::collections::HashMap;
use vstd::prelude::*;

verus! {

/// Whether vertices may be picked as the pivots of a graph.
pub open spec fn may_pivot<P: Fn(&QueryGraph) -> Vec<VertexId>>(
    pivots: P,
    graph: GraphView,
    nodes: Seq<VertexId>,
) -> bool {
    exists|g: QueryGraph, picked: Vec<VertexId>|
        g@ == graph && picked@ == nodes && #[trigger] pivots.ensures((&g,), picked)
}

/// Whether these are the decompositions of a graph along the paths from its pivots.
#[verifier::opaque]
pub open spec fn are_along<P: Fn(&QueryGraph) -> Vec<VertexId>>(
    pivots: P,
    graph: GraphView,
    catalog: DegreeSeqGraph,
    refine: bool,
    k: nat,
    limit: nat,
    overlap: bool,
    nodes: Seq<VertexId>,
    lists: Seq<Seq<AbstractView>>,
) -> bool {
    &&& may_pivot(pivots, graph, nodes)
    &&& exists|routes: Seq<RouteView>, candidates: Seq<Seq<Seq<AbstractView>>>|
        #![trigger are_candidates(graph, catalog, refine, k, routes, candidates)]
        {
            &&& are_routes(graph, nodes, routes)
            &&& are_candidates(graph, catalog, refine, k, routes, candidates)
            &&& lists == combined(candidates, candidates.len() as int, limit, overlap)
        }
}

/// The decompositions of a graph: those of the whole graph, what was taken out of it, and those
/// of the rest.
#[derive(Debug)]
pub struct Decompositions {
    pub plain: Vec<Vec<AbstractEdge>>,
    pub extraction: Option<Extraction>,
    pub residual: Vec<Vec<AbstractEdge>>,
}

/// The edges that were taken out.
pub open spec fn consumed_by(extraction: Extraction) -> Seq<EdgeId> {
    match extraction {
        Extraction::Branch(taken) => branch_edges(taken.branch@),
        Extraction::Stars(done) => tags_used(factor_views(done.factors@)),
    }
}

/// The vertices whose predicates are met by what was taken out.
pub open spec fn owned_by(graph: GraphView, extraction: Extraction) -> Seq<VertexId> {
    match extraction {
        Extraction::Branch(taken) => branch_owned(graph, taken.branch@),
        Extraction::Stars(done) => done.owned_predicate_vertices@,
    }
}

/// What is asked of decompositions.
pub struct Wish<'a> {
    pub catalog: DegreeSeqGraph,
    pub flat_graph: Option<&'a FlatGraph>,
    pub sample_size: nat,
    pub mode: PredicateApplyType,
    pub max_star_degree: nat,
    pub refine: bool,
    pub k: nat,
    pub limit: nat,
}

/// What the arguments ask for.
pub open spec fn wish_of<'a>(
    catalog: DegreeSeqGraph,
    flat_graph: Option<&'a FlatGraph>,
    sample_size: usize,
    mode: PredicateApplyType,
    max_star_degree: usize,
    refine: bool,
    k: usize,
    limit: usize,
) -> Wish<'a> {
    Wish {
        catalog,
        flat_graph,
        sample_size: sample_size as nat,
        mode,
        max_star_degree: max_star_degree as nat,
        refine,
        k: k as nat,
        limit: limit as nat,
    }
}

/// Whether these may be the decompositions of a graph. Of those of the rest so many are taken
/// that there are no more than the limit in all, but at least one.
pub open spec fn are_decompositions<P: Fn(&QueryGraph) -> Vec<VertexId>>(
    wish: Wish,
    pivots: P,
    graph: GraphView,
    before: Map<Seq<char>, Seq<VertexId>>,
    after: Map<Seq<char>, Seq<VertexId>>,
    found: Decompositions,
) -> bool {
    &&& exists|nodes: Seq<VertexId>| #[trigger]
        are_along(
            pivots,
            graph,
            wish.catalog,
            wish.refine,
            wish.k,
            wish.limit,
            false,
            nodes,
            abstract_lists(found.plain@),
        )
    &&& may_extract(
        graph,
        wish.flat_graph,
        wish.catalog,
        wish.sample_size,
        wish.mode,
        wish.max_star_degree,
        before,
        after,
        found.extraction,
    )
    &&& match found.extraction {
        None => found.residual@.len() == 0,
        Some(extraction) => {
            let rest = residual(graph, consumed_by(extraction), owned_by(graph, extraction));
            exists|nodes: Seq<VertexId>, all: Seq<Seq<AbstractView>>| #[trigger]
                are_along(
                    pivots,
                    rest,
                    wish.catalog,
                    wish.refine,
                    wish.k,
                    wish.limit,
                    true,
                    nodes,
                    all,
                ) && abstract_lists(found.residual@) == all.take(
                    share(found.plain@.len(), all.len(), wish.limit) as int,
                )
        },
    }
}

/// Whether decomposing a graph may fail this way.
pub open spec fn may_not_decompose(
    wish: Wish,
    graph: GraphView,
    before: Map<Seq<char>, Seq<VertexId>>,
    after: Map<Seq<char>, Seq<VertexId>>,
    error: StarErrorView,
) -> bool {
    may_fail(
        graph,
        wish.flat_graph,
        wish.catalog,
        wish.sample_size,
        wish.mode,
        wish.max_star_degree,
        before,
        after,
        error,
    )
}

impl QueryGraph {
    fn decompose_along<P: Fn(&QueryGraph) -> Vec<VertexId>>(
        &self,
        k: usize,
        catalog: &DegreeSeqGraph,
        refine: bool,
        limit: usize,
        overlap: bool,
        pivots: &P,
    ) -> (result: Vec<Vec<AbstractEdge>>)
        requires
            self@.wf(),
            k > 0,
            forall|g: &QueryGraph| #[trigger] pivots.requires((g,)),
        ensures
            exists|nodes: Seq<VertexId>| #[trigger]
                are_along(
                    *pivots,
                    self@,
                    *catalog,
                    refine,
                    k as nat,
                    limit as nat,
                    overlap,
                    nodes,
                    abstract_lists(result@),
                ),
    {
        let nodes: Vec<VertexId> = pivots(self);
        assert(may_pivot(*pivots, self@, nodes@));
        proof {
            reveal(are_along);
        }
        let lists: Vec<Vec<AbstractEdge>> = self.build_abstract_graph_candidates(
            k,
            &nodes,
            catalog,
            refine,
            limit,
            overlap,
        );
        assert(are_along(
            *pivots,
            self@,
            *catalog,
            refine,
            k as nat,
            limit as nat,
            overlap,
            nodes@,
            abstract_lists(lists@),
        ));
        lists
    }

    fn rest_after(&self, extraction: &Extraction) -> (result: QueryGraph)
        requires
            self@.wf(),
        ensures
            result@ == residual(self@, consumed_by(*extraction), owned_by(self@, *extraction)),
            result@.wf(),
    {
        match extraction {
            Extraction::Branch(taken) => {
                let consumed: Vec<EdgeId> = self.consumed_by_branch(&taken.branch);
                let owned: Vec<VertexId> = self.owned_by_branch(&taken.branch);
                self.subgraph_without_edges(&consumed, &owned)
            },
            Extraction::Stars(done) => {
                let consumed: Vec<EdgeId> = done.consumed_edges();
                self.subgraph_without_edges(&consumed, &done.owned_predicate_vertices)
            },
        }
    }

    /// The decompositions of the graph, and those of what is left when a branch or stars are
    /// taken out.
    pub fn build_abstract_graph_candidates_from_query_graph_flat<
        P: Fn(&QueryGraph) -> Vec<VertexId>,
    >(
        &self,
        k: usize,
        catalog: &DegreeSeqGraph,
        flat_graph: Option<&FlatGraph>,
        sample_size: usize,
        mode: PredicateApplyType,
        max_star_degree: usize,
        refine: bool,
        limit: usize,
        pivots: &P,
        cache: &mut DashMap<String, Vec<VertexId>>,
    ) -> (result: Result<Decompositions, StarError>)
        requires
            self@.wf(),
            k > 0,
            forall|g: &QueryGraph| #[trigger] pivots.requires((g,)),
        ensures
            ({
                let wish = wish_of(
                    *catalog,
                    flat_graph,
                    sample_size,
                    mode,
                    max_star_degree,
                    refine,
                    k,
                    limit,
                );
                match result {
                    Ok(found) => are_decompositions(
                        wish,
                        *pivots,
                        self@,
                        contents(*old(cache)),
                        contents(*final(cache)),
                        found,
                    ),
                    Err(error) => may_not_decompose(
                        wish,
                        self@,
                        contents(*old(cache)),
                        contents(*final(cache)),
                        error@,
                    ),
                }
            }),
    {
        let plain: Vec<Vec<AbstractEdge>> = self.decompose_along(
            k,
            catalog,
            refine,
            limit,
            false,
            pivots,
        );
        let ghost first = choose|nodes: Seq<VertexId>| #[trigger]
            are_along(
                *pivots,
                self@,
                *catalog,
                refine,
                k as nat,
                limit as nat,
                false,
                nodes,
                abstract_lists(plain@),
            );
        let extraction: Option<Extraction> = match self.extract_raw_star_local(
            catalog,
            flat_graph,
            sample_size,
            mode,
            max_star_degree,
            cache,
        ) {
            Err(error) => {
                return Err(error);
            },
            Ok(extraction) => extraction,
        };
        let ghost mut rest_nodes: Seq<VertexId> = Seq::empty();
        let ghost mut rest_lists: Seq<Seq<AbstractView>> = Seq::empty();
        let further: Vec<Vec<AbstractEdge>> = match &extraction {
            None => Vec::new(),
            Some(extraction) => {
                let rest: QueryGraph = self.rest_after(extraction);
                let mut sets: Vec<Vec<AbstractEdge>> = rest.decompose_along(
                    k,
                    catalog,
                    refine,
                    limit,
                    true,
                    pivots,
                );
                let ghost all = abstract_lists(sets@);
                let ghost nodes = choose|nodes: Seq<VertexId>| #[trigger]
                    are_along(
                        *pivots,
                        rest@,
                        *catalog,
                        refine,
                        k as nat,
                        limit as nat,
                        true,
                        nodes,
                        all,
                    );
                let taken: usize = residual_share(plain.len(), sets.len(), limit);
                sets.truncate(taken);
                assert(abstract_lists(sets@) =~= all.take(taken as int));
                proof {
                    rest_nodes = nodes;
                    rest_lists = all;
                }
                sets
            },
        };
        let found = Decompositions { plain, extraction, residual: further };
        proof {
            let wish = wish_of(
                *catalog,
                flat_graph,
                sample_size,
                mode,
                max_star_degree,
                refine,
                k,
                limit,
            );
            assert(are_along(
                *pivots,
                self@,
                wish.catalog,
                wish.refine,
                wish.k,
                wish.limit,
                false,
                first,
                abstract_lists(found.plain@),
            ));
            if found.extraction is Some {
                let taken = found.extraction->0;
                assert(are_along(
                    *pivots,
                    residual(self@, consumed_by(taken), owned_by(self@, taken)),
                    wish.catalog,
                    wish.refine,
                    wish.k,
                    wish.limit,
                    true,
                    rest_nodes,
                    rest_lists,
                ));
                assert(abstract_lists(found.residual@) == rest_lists.take(
                    share(found.plain@.len(), rest_lists.len(), wish.limit) as int,
                ));
            }
            assert(are_decompositions(
                wish,
                *pivots,
                self@,
                contents(*old(cache)),
                contents(*cache),
                found,
            ));
        }
        Ok(found)
    }
}

/// What stands for a query: for one vertex, how many there are of it; else decompositions, each
/// with the cost of the tree that they are of.
#[derive(Debug)]
pub enum QueryDecomposition {
    SingleVertex { vertex: VertexId, estimate: VertexEstimate },
    Trees(Vec<(Decompositions, u64)>),
}

/// Why a query cannot be decomposed.
#[derive(Debug)]
pub enum BuildError {
    /// There is no edge, and not one vertex.
    Shape(DecompositionError),
    /// A query of one vertex needs the data.
    NoData,
    /// The data has not a property that is asked for.
    Data(FlatError),
    /// Something cannot be taken out.
    Star(StarError),
}

/// Whether this may stand for a query of one vertex.
pub open spec fn may_stand_for_vertex(
    flat_graph: Option<&FlatGraph>,
    sample_size: nat,
    mode: PredicateApplyType,
    graph: GraphView,
    result: Result<QueryDecomposition, BuildError>,
) -> bool {
    let v = graph.vertices[0];
    match flat_graph {
        None => result matches Err(BuildError::NoData),
        Some(flat_graph) => match result {
            Ok(QueryDecomposition::SingleVertex { vertex, estimate }) => vertex == v.id && (
            if mode == PredicateApplyType::IGNORE {
                estimate == VertexEstimate::Exact(flat_graph@.labelled(v.label).len() as u64)
            } else {
                may_estimate_vertex(
                    flat_graph@,
                    v.label,
                    v.predicates,
                    sample_size,
                    Ok(estimate),
                )
            }),
            Err(BuildError::Data(error)) => mode != PredicateApplyType::IGNORE
                && may_estimate_vertex(
                flat_graph@,
                v.label,
                v.predicates,
                sample_size,
                Err(error),
            ),
            _ => false,
        },
    }
}

/// Whether these may be the decompositions of the first parts of a query, with their costs, one
/// after the other, while the cache held one thing after the other.
pub open spec fn are_of_parts<P: Fn(&QueryGraph) -> Vec<VertexId>>(
    wish: Wish,
    pivots: P,
    parts: Seq<GraphView>,
    costs: Seq<u64>,
    held: Seq<Map<Seq<char>, Seq<VertexId>>>,
    found: Seq<(Decompositions, u64)>,
) -> bool {
    &&& held.len() == found.len() + 1
    &&& found.len() <= parts.len()
    &&& forall|i: int|
        #![trigger found[i]]
        0 <= i < found.len() ==> found[i].1 == costs[i] && are_decompositions(
            wish,
            pivots,
            parts[i],
            held[i],
            held[i + 1],
            found[i].0,
        )
}

/// Whether these may be the decompositions of parts of a query, with their costs.
pub open spec fn may_stand_for_parts<P: Fn(&QueryGraph) -> Vec<VertexId>>(
    wish: Wish,
    pivots: P,
    parts: Seq<GraphView>,
    costs: Seq<u64>,
    before: Map<Seq<char>, Seq<VertexId>>,
    after: Map<Seq<char>, Seq<VertexId>>,
    result: Result<QueryDecomposition, BuildError>,
) -> bool {
    match result {
        Ok(QueryDecomposition::Trees(found)) => found@.len() == parts.len() && exists|
            held: Seq<Map<Seq<char>, Seq<VertexId>>>,
        | #[trigger]
            are_of_parts(wish, pivots, parts, costs, held, found@) && held.first() == before
                && held.last() == after,
        Err(BuildError::Star(error)) => exists|
            held: Seq<Map<Seq<char>, Seq<VertexId>>>,
            found: Seq<(Decompositions, u64)>,
        | #[trigger]
            are_of_parts(wish, pivots, parts, costs, held, found) && held.first() == before
                && found.len() < parts.len() && may_not_decompose(
                wish,
                parts[found.len() as int],
                held.last(),
                after,
                error@,
            ),
        _ => false,
    }
}

/// Whether trees are the cheapest ones of a query, and this may stand for their parts.
pub open spec fn may_stand_for_trees<P: Fn(&QueryGraph) -> Vec<VertexId>>(
    wish: Wish,
    pivots: P,
    graph: GraphView,
    cardinalities: Map<EdgeId, u64>,
    trees: Seq<Seq<EdgeId>>,
    tree_num: nat,
    before: Map<Seq<char>, Seq<VertexId>>,
    after: Map<Seq<char>, Seq<VertexId>>,
    result: Result<QueryDecomposition, BuildError>,
) -> bool {
    &&& is_ranking(graph, cardinalities, trees, tree_num)
    &&& may_stand_for_parts(
        wish,
        pivots,
        Seq::new(trees.len(), |i: int| subgraph(graph, trees[i])),
        Seq::new(trees.len(), |i: int| total_cost(cardinalities, trees[i]) as u64),
        before,
        after,
        result,
    )
}

/// How many trees are asked for: at least one.
pub open spec fn trees_asked(tree_num: usize) -> nat {
    if tree_num == 0 {
        1
    } else {
        tree_num as nat
    }
}

/// Whether this may stand for a query.
pub open spec fn may_stand_for<P: Fn(&QueryGraph) -> Vec<VertexId>>(
    wish: Wish,
    pivots: P,
    graph: GraphView,
    cardinalities: Map<EdgeId, u64>,
    tree_num: nat,
    before: Map<Seq<char>, Seq<VertexId>>,
    after: Map<Seq<char>, Seq<VertexId>>,
    result: Result<QueryDecomposition, BuildError>,
) -> bool {
    if graph.edges.len() == 0 && graph.vertices.len() != 1 {
        &&& result matches Err(BuildError::Shape(error))
        &&& error == (DecompositionError::EdgeFree { vertices: graph.vertices.len() as usize })
        &&& after == before
    } else if graph.edges.len() == 0 {
        &&& may_stand_for_vertex(wish.flat_graph, wish.sample_size, wish.mode, graph, result)
        &&& after == before
    } else if acyclic(graph.edges, ids_of(graph.edges)) {
        may_stand_for_parts(wish, pivots, seq![graph], seq![0u64], before, after, result)
    } else {
        exists|trees: Seq<Seq<EdgeId>>| #[trigger]
            may_stand_for_trees(
                wish,
                pivots,
                graph,
                cardinalities,
                trees,
                tree_num,
                before,
                after,
                result,
            )
    }
}

impl QueryGraph {
    fn stand_for_vertex(
        &self,
        flat_graph: Option<&FlatGraph>,
        sample_size: usize,
        mode: PredicateApplyType,
        description: &str,
    ) -> (result: Result<QueryDecomposition, BuildError>)
        requires
            self@.wf(),
            self@.vertices.len() == 1,
        ensures
            may_stand_for_vertex(flat_graph, sample_size as nat, mode, self@, result),
    {
        let flat_graph: &FlatGraph = match flat_graph {
            None => {
                return Err(BuildError::NoData);
            },
            Some(flat_graph) => flat_graph,
        };
        assert(self@.vertices.len() == self.vertices@.len());
        let v = &self.vertices[0];
        assert(self@.vertices[0] == v@);
        if let PredicateApplyType::IGNORE = mode {
            let count: usize = flat_graph.vertex_count_by_label(v.label.as_str());
            return Ok(
                QueryDecomposition::SingleVertex {
                    vertex: v.id,
                    estimate: VertexEstimate::Exact(count as u64),
                },
            );
        }
        match estimate_single_vertex_cardinality(
            flat_graph,
            v.label.as_str(),
            &v.predicates,
            sample_size,
            description,
        ) {
            Ok(estimate) => Ok(QueryDecomposition::SingleVertex { vertex: v.id, estimate }),
            Err(error) => Err(BuildError::Data(error)),
        }
    }

    fn decompose_parts<P: Fn(&QueryGraph) -> Vec<VertexId>>(
        parts: &Vec<(QueryGraph, u64)>,
        k: usize,
        catalog: &DegreeSeqGraph,
        flat_graph: Option<&FlatGraph>,
        sample_size: usize,
        mode: PredicateApplyType,
        max_star_degree: usize,
        refine: bool,
        limit: usize,
        pivots: &P,
        cache: &mut DashMap<String, Vec<VertexId>>,
    ) -> (result: Result<QueryDecomposition, BuildError>)
        requires
            k > 0,
            forall|i: int| 0 <= i < parts@.len() ==> (#[trigger] parts@[i]).0@.wf(),
            forall|g: &QueryGraph| #[trigger] pivots.requires((g,)),
        ensures
            may_stand_for_parts(
                wish_of(
                    *catalog,
                    flat_graph,
                    sample_size,
                    mode,
                    max_star_degree,
                    refine,
                    k,
                    limit,
                ),
                *pivots,
                parts@.map_values(|p: (QueryGraph, u64)| p.0@),
                parts@.map_values(|p: (QueryGraph, u64)| p.1),
                contents(*old(cache)),
                contents(*final(cache)),
                result,
            ),
    {
        let ghost wish = wish_of(
            *catalog,
            flat_graph,
            sample_size,
            mode,
            max_star_degree,
            refine,
            k,
            limit,
        );
        let ghost views = parts@.map_values(|p: (QueryGraph, u64)| p.0@);
        let ghost costs = parts@.map_values(|p: (QueryGraph, u64)| p.1);
        let mut found: Vec<(Decompositions, u64)> = Vec::new();
        let ghost mut held = seq![contents(*cache)];
        let mut i: usize = 0;
        while i < parts.len()
            invariant
                k > 0,
                forall|j: int| 0 <= j < parts@.len() ==> (#[trigger] parts@[j]).0@.wf(),
                forall|g: &QueryGraph| #[trigger] pivots.requires((g,)),
                wish == wish_of(
                    *catalog,
                    flat_graph,
                    sample_size,
                    mode,
                    max_star_degree,
                    refine,
                    k,
                    limit,
                ),
                views == parts@.map_values(|p: (QueryGraph, u64)| p.0@),
                costs == parts@.map_values(|p: (QueryGraph, u64)| p.1),
                i <= parts@.len(),
                found@.len() == i,
                held.first() == contents(*old(cache)),
                held.last() == contents(*cache),
                are_of_parts(wish, *pivots, views, costs, held, found@),
            decreases parts.len() - i,
        {
            assert(parts@[i as int].0@.wf());
            assert(views[i as int] == parts@[i as int].0@);
            match parts[i].0.build_abstract_graph_candidates_from_query_graph_flat(
                k,
                catalog,
                flat_graph,
                sample_size,
                mode,
                max_star_degree,
                refine,
                limit,
                pivots,
                cache,
            ) {
                Ok(decompositions) => {
                    let ghost seen = found@;
                    let ghost states = held;
                    found.push((decompositions, parts[i].1));
                    proof {
                        held = held.push(contents(*cache));
                        assert forall|j: int|
                            #![trigger found@[j]]
                            0 <= j < found@.len() implies found@[j].1 == costs[j]
                            && are_decompositions(
                            wish,
                            *pivots,
                            views[j],
                            held[j],
                            held[j + 1],
                            found@[j].0,
                        ) by {
                            if j < seen.len() {
                                assert(found@[j] == seen[j]);
                                assert(held[j] == states[j] && held[j + 1] == states[j + 1]);
                            }
                        }
                    }
                },
                Err(error) => {
                    return Err(BuildError::Star(error));
                },
            }
            i = i + 1;
        }
        Ok(QueryDecomposition::Trees(found))
    }

    /// What stands for the query: for one vertex, how many there are of it; for a query without a
    /// cycle, its decompositions; for one with a cycle, those of its cheapest spanning trees.
    pub fn build_abstract_graph_flat<P: Fn(&QueryGraph) -> Vec<VertexId>>(
        &self,
        k: usize,
        tree_num: usize,
        cardinalities: &HashMap<EdgeId, u64>,
        catalog: &DegreeSeqGraph,
        flat_graph: Option<&FlatGraph>,
        sample_size: usize,
        mode: PredicateApplyType,
        max_star_degree: usize,
        refine: bool,
        limit: usize,
        pivots: &P,
        description: &str,
        cache: &mut DashMap<String, Vec<VertexId>>,
    ) -> (result: Result<QueryDecomposition, BuildError>)
        requires
            self@.wf(),
            k > 0,
            total_cost(cardinalities@, self@.edges.map_values(|e: EdgeView| e.id)) <= u64::MAX,
            forall|g: &QueryGraph| #[trigger] pivots.requires((g,)),
        ensures
            may_stand_for(
                wish_of(
                    *catalog,
                    flat_graph,
                    sample_size,
                    mode,
                    max_star_degree,
                    refine,
                    k,
                    limit,
                ),
                *pivots,
                self@,
                cardinalities@,
                trees_asked(tree_num),
                contents(*old(cache)),
                contents(*final(cache)),
                result,
            ),
    {
        let ghost wish = wish_of(
            *catalog,
            flat_graph,
            sample_size,
            mode,
            max_star_degree,
            refine,
            k,
            limit,
        );
        let ghost asked = trees_asked(tree_num);
        let ghost start = contents(*cache);
        match self.shape() {
            Err(error) => Err(BuildError::Shape(error)),
            Ok(QueryShape::SingleVertex(_)) => self.stand_for_vertex(
                flat_graph,
                sample_size,
                mode,
                description,
            ),
            Ok(QueryShape::Acyclic) => match self.build_abstract_graph_candidates_from_query_graph_flat(
                k,
                catalog,
                flat_graph,
                sample_size,
                mode,
                max_star_degree,
                refine,
                limit,
                pivots,
                cache,
            ) {
                Ok(decompositions) => {
                    let mut found: Vec<(Decompositions, u64)> = Vec::new();
                    found.push((decompositions, 0));
                    let ghost listed = found@;
                    let result: Result<QueryDecomposition, BuildError> = Ok(
                        QueryDecomposition::Trees(found),
                    );
                    proof {
                        let held = seq![start, contents(*cache)];
                        assert(held.first() == start && held.last() == contents(*cache));
                        assert(result->Ok_0->Trees_0@ == listed && listed[0].0 == decompositions);
                        assert(are_of_parts(
                            wish,
                            *pivots,
                            seq![self@],
                            seq![0u64],
                            held,
                            result->Ok_0->Trees_0@,
                        ));
                        assert(listed.len() == 1 && seq![self@].len() == 1);
                        assert(may_stand_for_parts(
                            wish,
                            *pivots,
                            seq![self@],
                            seq![0u64],
                            start,
                            contents(*cache),
                            result,
                        ));
                    }
                    result
                },
                Err(error) => {
                    proof {
                        let held = seq![start];
                        let found = Seq::<(Decompositions, u64)>::empty();
                        assert(held.first() == start && held.last() == start);
                        assert(seq![self@][found.len() as int] == self@);
                        assert(are_of_parts(
                            wish,
                            *pivots,
                            seq![self@],
                            seq![0u64],
                            held,
                            found,
                        ));
                    }
                    let result: Result<QueryDecomposition, BuildError> = Err(
                        BuildError::Star(error),
                    );
                    assert(may_stand_for_parts(
                        wish,
                        *pivots,
                        seq![self@],
                        seq![0u64],
                        start,
                        contents(*cache),
                        result,
                    ));
                    result
                },
            },
            Ok(QueryShape::Cyclic) => {
                let wanted: usize = if tree_num == 0 {
                    1
                } else {
                    tree_num
                };
                let parts: Vec<(QueryGraph, u64)> = self.build_k_best_trees(cardinalities, wanted);
                let ghost trees = choose|trees: Seq<Seq<EdgeId>>| #[trigger]
                    is_ranking(self@, cardinalities@, trees, wanted as nat) && is_cut_out(
                        self@,
                        cardinalities@,
                        trees,
                        parts@,
                    );
                proof {
                    assert(parts@.map_values(|p: (QueryGraph, u64)| p.0@) =~= Seq::new(
                        trees.len(),
                        |i: int| subgraph(self@, trees[i]),
                    ));
                    assert(parts@.map_values(|p: (QueryGraph, u64)| p.1) =~= Seq::new(
                        trees.len(),
                        |i: int| total_cost(cardinalities@, trees[i]) as u64,
                    ));
                }
                let result: Result<QueryDecomposition, BuildError> = QueryGraph::decompose_parts(
                    &parts,
                    k,
                    catalog,
                    flat_graph,
                    sample_size,
                    mode,
                    max_star_degree,
                    refine,
                    limit,
                    pivots,
                    cache,
                );
                assert(may_stand_for_trees(
                    wish,
                    *pivots,
                    self@,
                    cardinalities@,
                    trees,
                    asked,
                    start,
                    contents(*cache),
                    result,
                ));
                result
            },
        }
    }
}

} // verus!
