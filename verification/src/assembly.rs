//! Abstract graphs of decompositions, with what the catalog has for them.
use crate::abstraction::{abstract_views, AbstractEdge, AbstractView};
use crate::catalog::DegreeSeqGraph;
use crate::decompose::{
    assembled, edges_used, first_missing_vertex, first_repeat, AbstractGraph, DecompositionError,
};
use crate::extraction::{
    edges_kept, ends_of, factor_views, stars_taken, FactorView, LocalFactor,
};
use crate::filling::{first_absence, is_fill, noted, EdgeFill};
use crate::order::sorted;
use crate::query::{GraphView, QueryGraph, VertexId};
use crate::raw_stars::PredicateApplyType;
use crate::spanning::copy_ids;
use vstd::prelude::*;

verus! {

/// An abstract graph with what the catalog has for its edges, and the stars that were taken out.
#[derive(Debug)]
pub struct FilledGraph {
    pub graph: AbstractGraph,
    pub fills: Vec<EdgeFill>,
    pub factors: Vec<LocalFactor>,
}

/// The stars that are taken out of abstract edges.
pub open spec fn stars_of(
    graph: GraphView,
    catalog: DegreeSeqGraph,
    edges: Seq<AbstractView>,
    max_degree: nat,
    max_length: nat,
) -> Seq<FactorView> {
    stars_taken(graph, catalog, edges, sorted(ends_of(edges)), max_degree, max_length)
}

/// The centers that were there, and those of stars.
pub open spec fn all_centers(centers: Seq<VertexId>, factors: Seq<FactorView>) -> Seq<VertexId> {
    centers + factors.map_values(|f: FactorView| f.center)
}

/// Whether an abstract edge is a path of the query.
pub open spec fn is_in_query(graph: GraphView, edge: AbstractView) -> bool {
    &&& edge.path_vertices.len() == edge.original_edge_ids.len() + 1
    &&& first_absence(graph, edge) is None
}

/// Whether the abstract graph is that of what is left of abstract edges, with what the catalog
/// has for them.
pub open spec fn is_filled(
    graph: GraphView,
    catalog: DegreeSeqGraph,
    has_data: bool,
    mode: PredicateApplyType,
    refine: bool,
    centers: Seq<VertexId>,
    kept: Seq<AbstractView>,
    filled: FilledGraph,
) -> bool {
    &&& filled.graph@ == assembled(
        graph,
        all_centers(centers, factor_views(filled.factors@)),
        kept.map_values(|e: AbstractView| noted(graph, catalog, refine, e)),
    )
    &&& filled.fills@.len() == kept.len()
    &&& forall|i: int|
        #![trigger filled.fills@[i]]
        0 <= i < kept.len() ==> is_fill(graph, catalog, has_data, mode, kept[i], filled.fills@[i])
}

proof fn lemma_kept(graph: GraphView, edges: Seq<AbstractView>, factors: Seq<FactorView>, n: int)
    requires
        0 <= n <= edges.len(),
        forall|i: int| 0 <= i < edges.len() ==> is_in_query(graph, #[trigger] edges[i]),
    ensures
        forall|i: int|
            0 <= i < edges_kept(edges, factors, n).len() ==> is_in_query(
                graph,
                #[trigger] edges_kept(edges, factors, n)[i],
            ),
    decreases n,
{
    if n > 0 {
        lemma_kept(graph, edges, factors, n - 1);
        let before = edges_kept(edges, factors, n - 1);
        let all = edges_kept(edges, factors, n);
        assert forall|i: int| 0 <= i < all.len() implies is_in_query(graph, #[trigger] all[i]) by {
            if i < before.len() {
                assert(all[i] == before[i]);
            } else {
                assert(all[i] == edges[n - 1]);
            }
        }
    }
}

proof fn lemma_noted_use(
    graph: GraphView,
    catalog: DegreeSeqGraph,
    refine: bool,
    edges: Seq<AbstractView>,
)
    ensures
        edges_used(edges.map_values(|e: AbstractView| noted(graph, catalog, refine, e)))
            == edges_used(edges),
    decreases edges.len(),
{
    let f = |e: AbstractView| noted(graph, catalog, refine, e);
    if edges.len() > 0 {
        assert(edges.map_values(f).drop_last() =~= edges.drop_last().map_values(f));
        lemma_noted_use(graph, catalog, refine, edges.drop_last());
    }
}

impl QueryGraph {
    fn fill_all(
        &self,
        edges: Vec<AbstractEdge>,
        catalog: &DegreeSeqGraph,
        has_data: bool,
        mode: PredicateApplyType,
        refine: bool,
    ) -> (result: (Vec<AbstractEdge>, Vec<EdgeFill>))
        requires
            self@.wf(),
            forall|i: int| 0 <= i < edges@.len() ==> is_in_query(self@, (#[trigger] edges@[i])@),
        ensures
            abstract_views(result.0@) == abstract_views(edges@).map_values(
                |e: AbstractView| noted(self@, *catalog, refine, e),
            ),
            result.1@.len() == edges@.len(),
            forall|i: int|
                #![trigger result.1@[i]]
                0 <= i < edges@.len() ==> is_fill(
                    self@,
                    *catalog,
                    has_data,
                    mode,
                    edges@[i]@,
                    result.1@[i],
                ),
    {
        let ghost f = |e: AbstractView| noted(self@, *catalog, refine, e);
        let mut done: Vec<AbstractEdge> = Vec::new();
        let mut fills: Vec<EdgeFill> = Vec::new();
        let mut i: usize = 0;
        while i < edges.len()
            invariant
                self@.wf(),
                forall|j: int| 0 <= j < edges@.len() ==> is_in_query(
                    self@,
                    (#[trigger] edges@[j])@,
                ),
                i <= edges@.len(),
                done@.len() == i,
                fills@.len() == i,
                forall|j: int|
                    #![trigger done@[j]]
                    0 <= j < i ==> done@[j]@ == noted(self@, *catalog, refine, edges@[j]@),
                forall|j: int|
                    #![trigger fills@[j]]
                    0 <= j < i ==> is_fill(
                        self@,
                        *catalog,
                        has_data,
                        mode,
                        edges@[j]@,
                        fills@[j],
                    ),
            decreases edges.len() - i,
        {
            assert(is_in_query(self@, edges@[i as int]@));
            let mut edge: AbstractEdge = edges[i].copy();
            assert(edge@.path_vertices.len() == edge.path_vertices@.len());
            match self.fill_abstract_edge(&mut edge, catalog, has_data, mode, refine) {
                Ok(fill) => {
                    fills.push(fill);
                    done.push(edge);
                },
                Err(_) => {},
            }
            i = i + 1;
        }
        assert(abstract_views(done@) =~= abstract_views(edges@).map_values(f));
        (done, fills)
    }

    /// The abstract graph of abstract edges: the stars of the catalog are taken out of them, and
    /// the rest is looked up in the catalog.
    pub fn build_abstract_graph_from_edges_flat(
        &self,
        all_abstract_edges: &Vec<AbstractEdge>,
        centers: &Vec<VertexId>,
        catalog: &DegreeSeqGraph,
        has_data: bool,
        mode: PredicateApplyType,
        refine: bool,
        max_star_degree: usize,
        max_star_length: usize,
    ) -> (result: Result<FilledGraph, DecompositionError>)
        requires
            self@.wf(),
            forall|i: int|
                0 <= i < all_abstract_edges@.len() ==> is_in_query(
                    self@,
                    (#[trigger] all_abstract_edges@[i])@,
                ),
        ensures
            ({
                let edges = abstract_views(all_abstract_edges@);
                let factors = stars_of(
                    self@,
                    *catalog,
                    edges,
                    max_star_degree as nat,
                    max_star_length as nat,
                );
                let kept = edges_kept(edges, factors, edges.len() as int);
                match result {
                    Err(DecompositionError::VertexNotFound(id)) => first_missing_vertex(
                        self@,
                        all_centers(centers@, factors),
                    ) == Some(id),
                    Err(DecompositionError::DuplicateEdge(id)) => first_missing_vertex(
                        self@,
                        all_centers(centers@, factors),
                    ) is None && first_repeat(edges_used(kept)) == Some(id),
                    Err(_) => false,
                    Ok(filled) => {
                        &&& first_missing_vertex(self@, all_centers(centers@, factors)) is None
                        &&& edges_used(kept).no_duplicates()
                        &&& factor_views(filled.factors@) == factors
                        &&& is_filled(
                            self@,
                            *catalog,
                            has_data,
                            mode,
                            refine,
                            centers@,
                            kept,
                            filled,
                        )
                    },
                }
            }),
    {
        let ghost edges = abstract_views(all_abstract_edges@);
        proof {
            assert forall|i: int|
                #![trigger all_abstract_edges@[i]]
                0 <= i < all_abstract_edges@.len() implies all_abstract_edges@[i].path_vertices@.len()
                == all_abstract_edges@[i].original_edge_ids@.len() + 1 by {
                assert(is_in_query(self@, all_abstract_edges@[i]@));
            }
            assert forall|i: int| 0 <= i < edges.len() implies is_in_query(
                self@,
                #[trigger] edges[i],
            ) by {
                assert(edges[i] == all_abstract_edges@[i]@);
            }
        }
        let (kept, factors) = self.extract_star_local(
            all_abstract_edges,
            catalog,
            max_star_degree,
            max_star_length,
        );
        let ghost stars = factor_views(factors@);
        let ghost left = abstract_views(kept@);
        proof {
            lemma_kept(self@, edges, stars, edges.len() as int);
            assert forall|i: int| 0 <= i < kept@.len() implies is_in_query(
                self@,
                (#[trigger] kept@[i])@,
            ) by {
                assert(left[i] == kept@[i]@);
            }
            lemma_noted_use(self@, *catalog, refine, left);
        }
        let mut all: Vec<VertexId> = copy_ids(centers);
        let mut i: usize = 0;
        assert(all@ =~= all_centers(centers@, stars.take(0)));
        while i < factors.len()
            invariant
                stars == factor_views(factors@),
                stars.len() == factors@.len(),
                i <= factors@.len(),
                all@ == all_centers(centers@, stars.take(i as int)),
            decreases factors.len() - i,
        {
            assert(stars[i as int] == factors@[i as int]@);
            all.push(factors[i].center);
            assert(all@ =~= all_centers(centers@, stars.take(i + 1)));
            i = i + 1;
        }
        assert(stars.take(i as int) =~= stars);
        let (done, fills) = self.fill_all(kept, catalog, has_data, mode, refine);
        proof {
            assert forall|j: int| #![trigger done@[j]] 0 <= j < done@.len() implies self@.vertex(
                done@[j].src,
            ) is Some && self@.vertex(done@[j].dst) is Some by {
                assert(abstract_views(done@)[j] == done@[j]@);
                assert(is_in_query(self@, left[j]));
            }
        }
        match self.build_abstract_graph_from_edges(done, &all) {
            Err(error) => Err(error),
            Ok(graph) => {
                let filled = FilledGraph { graph, fills, factors };
                assert(is_filled(
                    self@,
                    *catalog,
                    has_data,
                    mode,
                    refine,
                    centers@,
                    left,
                    filled,
                ));
                Ok(filled)
            },
        }
    }
}

} // verus!
