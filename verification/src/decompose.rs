//! Decompositions of a query graph into abstract edges.
use crate::abstraction::{
    abstract_lists, abstract_views, all_standing_for, candidate_cuts, cardinality_of, covers,
    is_cut, on_edges, on_vertices, AbstractEdge, AbstractView,
};
use crate::catalog::DegreeSeqGraph;
use crate::lookups::{lemma_one_more_place, lists_places};
use crate::paths::{
    is_walk_through, route_views, routes_from_first, without_repeats, Path, RouteView,
};
use crate::query::{
    contains_id, copy_predicates, extend_predicates, predicate_views, AbstractEdgeDef,
    DecompositionDef, EdgeId, EdgeView, FunctionalDirection, GraphView, PredicateDef, QueryEdge,
    QueryGraph, QueryVertex, VertexId, VertexView,
};
use crate::schema::{manual_edge_cardinality, EdgeCardinality};
use crate::spanning::copy_ids;
use crate::trees::with_end;
use vstd::prelude::*;
use vstd::string::*;

verus! {

/// Why a decomposition is refused.
#[derive(Debug, Clone, Copy, PartialEq, Eq, Structural)]
pub enum DecompositionError {
    /// A query without edges has other than one vertex.
    EdgeFree { vertices: usize },
    /// An abstract edge has fewer than two vertices.
    TooFewVertices,
    /// An abstract edge has not one edge less than vertices.
    LengthMismatch { edges: usize, vertices: usize },
    VertexNotFound(VertexId),
    EdgeNotFound(EdgeId),
    /// An edge of the query is in two places.
    DuplicateEdge(EdgeId),
}

/// What a query is, for its decomposition.
#[derive(Debug, Clone, Copy, PartialEq, Eq, Structural)]
pub enum QueryShape {
    /// One vertex and no edge.
    SingleVertex(VertexId),
    Acyclic,
    Cyclic,
}

impl QueryGraph {
    /// What the query is, for its decomposition.
    pub fn shape(&self) -> (result: Result<QueryShape, DecompositionError>)
        requires
            self@.wf(),
        ensures
            match result {
                Err(error) => {
                    &&& self@.edges.len() == 0
                    &&& self@.vertices.len() != 1
                    &&& error == (DecompositionError::EdgeFree {
                        vertices: self@.vertices.len() as usize,
                    })
                },
                Ok(QueryShape::SingleVertex(v)) => self@.edges.len() == 0 && self@.vertices.len()
                    == 1 && self@.vertices[0].id == v,
                Ok(QueryShape::Acyclic) => self@.edges.len() > 0 && crate::connect::acyclic(
                    self@.edges,
                    crate::connect::ids_of(self@.edges),
                ),
                Ok(QueryShape::Cyclic) => self@.edges.len() > 0 && !crate::connect::acyclic(
                    self@.edges,
                    crate::connect::ids_of(self@.edges),
                ),
            },
    {
        if self.edges.len() == 0 {
            if self.vertices.len() != 1 {
                return Err(DecompositionError::EdgeFree { vertices: self.vertices.len() });
            }
            assert(self@.vertices[0].id == self.vertices@[0].id);
            return Ok(QueryShape::SingleVertex(self.vertices[0].id));
        }
        if self.has_cycle() {
            Ok(QueryShape::Cyclic)
        } else {
            Ok(QueryShape::Acyclic)
        }
    }
}

/// The edges of the query that abstract edges stand for, one abstract edge after the other.
pub open spec fn edges_used(edges: Seq<AbstractView>) -> Seq<EdgeId>
    decreases edges.len(),
{
    if edges.len() == 0 {
        Seq::empty()
    } else {
        edges_used(edges.drop_last()) + edges.last().original_edge_ids
    }
}

/// Whether a candidate may be added to abstract edges: no edge of the query is then in two
/// places.
pub open spec fn fits(existing: Seq<AbstractView>, candidate: Seq<AbstractView>) -> bool {
    &&& edges_used(candidate).no_duplicates()
    &&& forall|id: EdgeId|
        #![trigger edges_used(candidate).contains(id)]
        edges_used(candidate).contains(id) ==> !edges_used(existing).contains(id)
}

/// Abstract edges with each of the candidates added that may be; with every one of them where
/// overlaps are let through.
pub open spec fn grown(
    existing: Seq<AbstractView>,
    candidates: Seq<Seq<AbstractView>>,
    overlap: bool,
) -> Seq<Seq<AbstractView>>
    decreases candidates.len(),
{
    if candidates.len() == 0 {
        Seq::empty()
    } else {
        let before = grown(existing, candidates.drop_last(), overlap);
        if overlap || fits(existing, candidates.last()) {
            before.push(existing + candidates.last())
        } else {
            before
        }
    }
}

/// Each of the sets of abstract edges with each candidate, one set after the other.
pub open spec fn all_grown(
    sets: Seq<Seq<AbstractView>>,
    candidates: Seq<Seq<AbstractView>>,
    overlap: bool,
) -> Seq<Seq<AbstractView>>
    decreases sets.len(),
{
    if sets.len() == 0 {
        Seq::empty()
    } else {
        all_grown(sets.drop_last(), candidates, overlap) + grown(sets.last(), candidates, overlap)
    }
}

/// The first so many of a list.
pub open spec fn at_most<T>(s: Seq<T>, limit: nat) -> Seq<T> {
    if s.len() <= limit {
        s
    } else {
        s.take(limit as int)
    }
}

/// One candidate for each of the first `n` paths, in all ways, but only the first so many of
/// them after each path.
pub open spec fn combined(
    candidates: Seq<Seq<Seq<AbstractView>>>,
    n: int,
    limit: nat,
    overlap: bool,
) -> Seq<Seq<AbstractView>>
    decreases n,
{
    if n <= 0 {
        seq![Seq::empty()]
    } else {
        at_most(
            all_grown(combined(candidates, n - 1, limit, overlap), candidates[n - 1], overlap),
            limit,
        )
    }
}

proof fn lemma_edges_used_sum(a: Seq<AbstractView>, b: Seq<AbstractView>)
    ensures
        edges_used(a + b) == edges_used(a) + edges_used(b),
    decreases b.len(),
{
    if b.len() == 0 {
        assert(a + b =~= a);
        assert(edges_used(a) + edges_used(b) =~= edges_used(a));
    } else {
        lemma_edges_used_sum(a, b.drop_last());
        assert((a + b).drop_last() =~= a + b.drop_last());
        assert(edges_used(a) + edges_used(b) =~= edges_used(a) + edges_used(b.drop_last())
            + b.last().original_edge_ids);
    }
}

proof fn lemma_grown_apart(
    existing: Seq<AbstractView>,
    candidates: Seq<Seq<AbstractView>>,
    i: int,
)
    requires
        edges_used(existing).no_duplicates(),
        0 <= i < grown(existing, candidates, false).len(),
    ensures
        edges_used(grown(existing, candidates, false)[i]).no_duplicates(),
    decreases candidates.len(),
{
    let before = grown(existing, candidates.drop_last(), false);
    if i < before.len() {
        lemma_grown_apart(existing, candidates.drop_last(), i);
    } else {
        let candidate = candidates.last();
        lemma_edges_used_sum(existing, candidate);
        let used = edges_used(existing);
        let more = edges_used(candidate);
        let all = used + more;
        assert forall|a: int, b: int| 0 <= a < all.len() && 0 <= b < all.len() && a != b implies all[a]
            != all[b] by {
            if a < used.len() && b >= used.len() {
                assert(more[b - used.len()] == all[b]);
                assert(more.contains(all[b]));
            }
            if b < used.len() && a >= used.len() {
                assert(more[a - used.len()] == all[a]);
                assert(more.contains(all[a]));
            }
        }
    }
}

proof fn lemma_all_grown_apart(
    sets: Seq<Seq<AbstractView>>,
    candidates: Seq<Seq<AbstractView>>,
    i: int,
)
    requires
        forall|j: int| 0 <= j < sets.len() ==> edges_used(#[trigger] sets[j]).no_duplicates(),
        0 <= i < all_grown(sets, candidates, false).len(),
    ensures
        edges_used(all_grown(sets, candidates, false)[i]).no_duplicates(),
    decreases sets.len(),
{
    let before = all_grown(sets.drop_last(), candidates, false);
    if i < before.len() {
        lemma_all_grown_apart(sets.drop_last(), candidates, i);
    } else {
        assert(edges_used(sets[sets.len() - 1]).no_duplicates());
        lemma_grown_apart(sets.last(), candidates, i - before.len());
    }
}

/// In a combination without overlaps no edge of the query is in two places.
pub proof fn combinations_use_edges_once(
    candidates: Seq<Seq<Seq<AbstractView>>>,
    n: int,
    limit: nat,
    i: int,
)
    requires
        0 <= n <= candidates.len(),
        0 <= i < combined(candidates, n, limit, false).len(),
    ensures
        edges_used(combined(candidates, n, limit, false)[i]).no_duplicates(),
    decreases n,
{
    if n > 0 {
        let before = combined(candidates, n - 1, limit, false);
        assert forall|j: int| 0 <= j < before.len() implies edges_used(
            #[trigger] before[j],
        ).no_duplicates() by {
            combinations_use_edges_once(candidates, n - 1, limit, j);
        }
        lemma_all_grown_apart(before, candidates[n - 1], i);
    }
}

/// There are never more combinations than the limit, but for the empty one.
pub proof fn combinations_are_limited(
    candidates: Seq<Seq<Seq<AbstractView>>>,
    n: int,
    limit: nat,
    overlap: bool,
)
    requires
        limit > 0,
    ensures
        combined(candidates, n, limit, overlap).len() <= limit,
{
}

fn gather_used(edges: &Vec<AbstractEdge>) -> (result: Vec<EdgeId>)
    ensures
        result@ == edges_used(abstract_views(edges@)),
{
    let mut result: Vec<EdgeId> = Vec::new();
    let ghost all = abstract_views(edges@);
    let mut i: usize = 0;
    while i < edges.len()
        invariant
            all == abstract_views(edges@),
            i <= edges@.len(),
            result@ == edges_used(all.take(i as int)),
        decreases edges.len() - i,
    {
        let ghost before = result@;
        let mut j: usize = 0;
        assert(before + edges@[i as int].original_edge_ids@.take(0) =~= before);
        while j < edges[i].original_edge_ids.len()
            invariant
                i < edges@.len(),
                j <= edges@[i as int].original_edge_ids@.len(),
                result@ == before + edges@[i as int].original_edge_ids@.take(j as int),
            decreases edges@[i as int].original_edge_ids@.len() - j,
        {
            result.push(edges[i].original_edge_ids[j]);
            assert(result@ =~= before + edges@[i as int].original_edge_ids@.take(j + 1));
            j = j + 1;
        }
        proof {
            let ids = edges@[i as int].original_edge_ids@;
            assert(ids.take(j as int) =~= ids);
            assert(all.take(i + 1).drop_last() =~= all.take(i as int));
            assert(all.take(i + 1).last() == edges@[i as int]@);
        }
        i = i + 1;
    }
    assert(all.take(i as int) =~= all);
    result
}

fn has_no_repeat(ids: &Vec<u64>) -> (result: bool)
    ensures
        result == ids@.no_duplicates(),
{
    let mut i: usize = 0;
    while i < ids.len()
        invariant
            i <= ids@.len(),
            forall|a: int, b: int| 0 <= a < b < i ==> ids@[a] != ids@[b],
        decreases ids.len() - i,
    {
        let mut j: usize = 0;
        while j < i
            invariant
                i < ids@.len(),
                j <= i,
                forall|a: int| 0 <= a < j ==> ids@[a] != ids@[i as int],
            decreases i - j,
        {
            if ids[j] == ids[i] {
                assert(!ids@.no_duplicates());
                return false;
            }
            j = j + 1;
        }
        i = i + 1;
    }
    true
}

fn candidate_fits(used: &Vec<EdgeId>, candidate: &Vec<AbstractEdge>) -> (result: bool)
    ensures
        result == {
            let more = edges_used(abstract_views(candidate@));
            &&& more.no_duplicates()
            &&& forall|id: EdgeId|
                #![trigger more.contains(id)]
                more.contains(id) ==> !used@.contains(id)
        },
{
    let more: Vec<EdgeId> = gather_used(candidate);
    if !has_no_repeat(&more) {
        return false;
    }
    let mut i: usize = 0;
    while i < more.len()
        invariant
            more@ == edges_used(abstract_views(candidate@)),
            i <= more@.len(),
            forall|j: int| 0 <= j < i ==> !used@.contains(#[trigger] more@[j]),
        decreases more.len() - i,
    {
        if contains_id(used, more[i]) {
            assert(more@.contains(more@[i as int]));
            return false;
        }
        i = i + 1;
    }
    true
}

impl AbstractEdge {
    /// A copy of the abstract edge.
    pub fn copy(&self) -> (result: AbstractEdge)
        ensures
            result@ == self@,
    {
        AbstractEdge {
            src: self.src,
            dst: self.dst,
            functional: self.functional,
            predicates: copy_predicates(&self.predicates),
            original_edge_ids: copy_ids(&self.original_edge_ids),
            path_vertices: copy_ids(&self.path_vertices),
            path_str: self.path_str.clone(),
        }
    }
}

fn append_copies(out: &mut Vec<AbstractEdge>, edges: &Vec<AbstractEdge>)
    ensures
        abstract_views(final(out)@) == abstract_views(old(out)@) + abstract_views(edges@),
{
    let ghost begun = abstract_views(out@);
    let ghost all = abstract_views(edges@);
    let mut i: usize = 0;
    assert(begun + all.take(0) =~= begun);
    while i < edges.len()
        invariant
            all == abstract_views(edges@),
            i <= edges@.len(),
            abstract_views(out@) == begun + all.take(i as int),
        decreases edges.len() - i,
    {
        let ghost before = out@;
        out.push(edges[i].copy());
        assert(abstract_views(out@) =~= abstract_views(before).push(edges@[i as int]@));
        assert(abstract_views(out@) =~= begun + all.take(i + 1));
        i = i + 1;
    }
    assert(all.take(i as int) =~= all);
}

/// Each of the sets of abstract edges with each candidate that may be added, up to a limit.
pub fn combine(
    sets: &Vec<Vec<AbstractEdge>>,
    candidates: &Vec<Vec<AbstractEdge>>,
    limit: usize,
    overlap: bool,
) -> (result: Vec<Vec<AbstractEdge>>)
    ensures
        abstract_lists(result@) == at_most(
            all_grown(abstract_lists(sets@), abstract_lists(candidates@), overlap),
            limit as nat,
        ),
{
    let ghost all_sets = abstract_lists(sets@);
    let ghost options = abstract_lists(candidates@);
    let ghost full = all_grown(all_sets, options, overlap);
    let mut result: Vec<Vec<AbstractEdge>> = Vec::new();
    let mut i: usize = 0;
    assert(abstract_lists(result@) =~= all_grown(all_sets.take(0), options, overlap));
    while i < sets.len()
        invariant
            all_sets == abstract_lists(sets@),
            options == abstract_lists(candidates@),
            full == all_grown(all_sets, options, overlap),
            i <= sets@.len(),
            result@.len() <= limit,
            abstract_lists(result@) == all_grown(all_sets.take(i as int), options, overlap),
        decreases sets.len() - i,
    {
        let used: Vec<EdgeId> = gather_used(&sets[i]);
        let ghost existing = abstract_views(sets@[i as int]@);
        let ghost begun = abstract_lists(result@);
        proof {
            assert(all_sets.take(i + 1).drop_last() =~= all_sets.take(i as int));
            assert(all_sets.take(i + 1).last() == existing);
            lemma_all_grown_prefix(all_sets, options, overlap, i + 1);
        }
        let mut j: usize = 0;
        assert(begun + grown(existing, options.take(0), overlap) =~= begun);
        while j < candidates.len()
            invariant
                all_sets == abstract_lists(sets@),
                options == abstract_lists(candidates@),
                full == all_grown(all_sets, options, overlap),
                i < sets@.len(),
                existing == abstract_views(sets@[i as int]@),
                used@ == edges_used(existing),
                begun == all_grown(all_sets.take(i as int), options, overlap),
                begun + grown(existing, options, overlap) == all_grown(
                    all_sets.take(i + 1),
                    options,
                    overlap,
                ),
                full.take(all_grown(all_sets.take(i + 1), options, overlap).len() as int)
                    == all_grown(all_sets.take(i + 1), options, overlap),
                all_grown(all_sets.take(i + 1), options, overlap).len() <= full.len(),
                j <= candidates@.len(),
                result@.len() <= limit,
                abstract_lists(result@) == begun + grown(
                    existing,
                    options.take(j as int),
                    overlap,
                ),
            decreases candidates.len() - j,
        {
            let ghost before = abstract_lists(result@);
            proof {
                assert(options.take(j + 1).drop_last() =~= options.take(j as int));
                assert(options.take(j + 1).last() == abstract_views(candidates@[j as int]@));
                lemma_grown_prefix(existing, options, overlap, j + 1);
            }
            if overlap || candidate_fits(&used, &candidates[j]) {
                if result.len() >= limit {
                    proof {
                        let more = grown(existing, options.take(j + 1), overlap);
                        let upto = all_grown(all_sets.take(i + 1), options, overlap);
                        assert(before =~= full.take(limit as int)) by {
                            assert(before =~= (begun + more).take(limit as int));
                            assert(begun + more =~= upto.take((begun + more).len() as int));
                        }
                        assert(full.len() > limit);
                    }
                    return result;
                }
                let mut edges: Vec<AbstractEdge> = Vec::new();
                append_copies(&mut edges, &sets[i]);
                append_copies(&mut edges, &candidates[j]);
                let ghost kept = result@;
                proof {
                    let none: Seq<AbstractView> = Seq::empty();
                    assert(none + existing =~= existing);
                    assert(abstract_views(Seq::<AbstractEdge>::empty()) =~= none);
                }
                result.push(edges);
                assert(abstract_lists(result@) =~= abstract_lists(kept).push(
                    abstract_views(edges@),
                ));
                assert(abstract_lists(result@) =~= begun + grown(
                    existing,
                    options.take(j + 1),
                    overlap,
                ));
            }
            j = j + 1;
        }
        assert(options.take(j as int) =~= options);
        i = i + 1;
    }
    assert(all_sets.take(i as int) =~= all_sets);
    result
}

proof fn lemma_grown_prefix(
    existing: Seq<AbstractView>,
    candidates: Seq<Seq<AbstractView>>,
    overlap: bool,
    n: int,
)
    requires
        0 <= n <= candidates.len(),
    ensures
        grown(existing, candidates.take(n), overlap).len() <= grown(
            existing,
            candidates,
            overlap,
        ).len(),
        grown(existing, candidates, overlap).take(
            grown(existing, candidates.take(n), overlap).len() as int,
        ) == grown(existing, candidates.take(n), overlap),
    decreases candidates.len(),
{
    if n == candidates.len() {
        assert(candidates.take(n) =~= candidates);
        assert(grown(existing, candidates, overlap).take(
            grown(existing, candidates, overlap).len() as int,
        ) =~= grown(existing, candidates, overlap));
    } else {
        let head = candidates.drop_last();
        lemma_grown_prefix(existing, head, overlap, n);
        assert(head.take(n) =~= candidates.take(n));
        let m = grown(existing, candidates.take(n), overlap).len() as int;
        assert(grown(existing, candidates, overlap).take(m) =~= grown(
            existing,
            head,
            overlap,
        ).take(m));
    }
}

proof fn lemma_all_grown_prefix(
    sets: Seq<Seq<AbstractView>>,
    candidates: Seq<Seq<AbstractView>>,
    overlap: bool,
    n: int,
)
    requires
        0 <= n <= sets.len(),
    ensures
        all_grown(sets.take(n), candidates, overlap).len() <= all_grown(
            sets,
            candidates,
            overlap,
        ).len(),
        all_grown(sets, candidates, overlap).take(
            all_grown(sets.take(n), candidates, overlap).len() as int,
        ) == all_grown(sets.take(n), candidates, overlap),
    decreases sets.len(),
{
    if n == sets.len() {
        assert(sets.take(n) =~= sets);
        assert(all_grown(sets, candidates, overlap).take(
            all_grown(sets, candidates, overlap).len() as int,
        ) =~= all_grown(sets, candidates, overlap));
    } else {
        let head = sets.drop_last();
        lemma_all_grown_prefix(head, candidates, overlap, n);
        assert(head.take(n) =~= sets.take(n));
        let m = all_grown(sets.take(n), candidates, overlap).len() as int;
        assert(all_grown(sets, candidates, overlap).take(m) =~= all_grown(
            head,
            candidates,
            overlap,
        ).take(m));
    }
}

/// Whether lists of candidates are those of paths, path by path.
pub open spec fn are_candidates(
    graph: GraphView,
    catalog: DegreeSeqGraph,
    refine: bool,
    k: nat,
    routes: Seq<RouteView>,
    candidates: Seq<Seq<Seq<AbstractView>>>,
) -> bool {
    &&& candidates.len() == routes.len()
    &&& forall|i: int|
        #![trigger candidates[i]]
        0 <= i < routes.len() ==> are_candidates_for(
            graph,
            catalog,
            refine,
            k,
            routes[i],
            candidates[i],
        )
}

/// Whether the candidates are those of a path.
pub open spec fn are_candidates_for(
    graph: GraphView,
    catalog: DegreeSeqGraph,
    refine: bool,
    k: nat,
    route: RouteView,
    candidates: Seq<Seq<AbstractView>>,
) -> bool {
    exists|chosen: Seq<(usize, usize)>|
        #![trigger is_cut(graph, route, k, chosen)]
        {
            &&& is_cut(graph, route, k, chosen)
            &&& covers(chosen, route.edges.len())
            &&& candidates == candidate_cuts(graph, catalog, refine, route, k, chosen).map_values(
                |ranges: Seq<(usize, usize)>| all_standing_for(graph, route, ranges),
            )
        }
}

/// Whether routes are those from the pivots, or the walk through the graph where there is none.
pub open spec fn are_routes(graph: GraphView, pivots: Seq<VertexId>, routes: Seq<RouteView>) -> bool {
    if pivots.len() > 0 {
        routes == without_repeats(routes_from_first(graph.edges, pivots, pivots.len() as int))
    } else {
        is_walk_through(graph, routes)
    }
}

impl QueryGraph {
    /// The candidate decompositions of the graph: the paths from the pivots, each cut in one of
    /// its candidate ways. Unless overlaps are let through, no edge is used twice.
    pub fn build_abstract_graph_candidates(
        &self,
        k: usize,
        pivot_nodes: &Vec<VertexId>,
        catalog: &DegreeSeqGraph,
        refine: bool,
        limit: usize,
        overlap: bool,
    ) -> (result: Vec<Vec<AbstractEdge>>)
        requires
            self@.wf(),
            k > 0,
        ensures
            exists|routes: Seq<RouteView>, candidates: Seq<Seq<Seq<AbstractView>>>|
                #![trigger are_candidates(self@, *catalog, refine, k as nat, routes, candidates)]
                {
                    &&& are_routes(self@, pivot_nodes@, routes)
                    &&& are_candidates(self@, *catalog, refine, k as nat, routes, candidates)
                    &&& abstract_lists(result@) == combined(
                        candidates,
                        candidates.len() as int,
                        limit as nat,
                        overlap,
                    )
                },
    {
        let ghost graph = self@;
        let paths: Vec<Path> = self.find_paths_from_pivots(pivot_nodes);
        let ghost routes = route_views(paths@);
        let ghost mut candidates: Seq<Seq<Seq<AbstractView>>> = Seq::empty();
        let mut sets: Vec<Vec<AbstractEdge>> = Vec::new();
        sets.push(Vec::new());
        assert(abstract_lists(sets@) =~= seq![Seq::empty()]) by {
            assert(abstract_views(Seq::<AbstractEdge>::empty()) =~= Seq::empty());
        }
        let mut i: usize = 0;
        while i < paths.len()
            invariant
                self@.wf(),
                graph == self@,
                k > 0,
                forall|j: int| 0 <= j < paths@.len() ==> (#[trigger] paths@[j]).wf(),
                routes == route_views(paths@),
                i <= paths@.len(),
                candidates.len() == i,
                forall|j: int|
                    #![trigger candidates[j]]
                    0 <= j < i ==> are_candidates_for(
                        graph,
                        *catalog,
                        refine,
                        k as nat,
                        routes[j],
                        candidates[j],
                    ),
                abstract_lists(sets@) == combined(candidates, i as int, limit as nat, overlap),
            decreases paths.len() - i,
        {
            let options: Vec<Vec<AbstractEdge>> = self.build_abstract_edge_candidates_for_path(
                &paths[i],
                k,
                catalog,
                refine,
            );
            let ghost before = candidates;
            proof {
                assert(routes[i as int] == paths@[i as int]@);
                candidates = candidates.push(abstract_lists(options@));
                lemma_combined_prefix(before, candidates, i as int, limit as nat, overlap);
            }
            sets = combine(&sets, &options, limit, overlap);
            i = i + 1;
        }
        assert(are_candidates(graph, *catalog, refine, k as nat, routes, candidates));
        sets
    }
}

proof fn lemma_combined_prefix(
    a: Seq<Seq<Seq<AbstractView>>>,
    b: Seq<Seq<Seq<AbstractView>>>,
    n: int,
    limit: nat,
    overlap: bool,
)
    requires
        0 <= n <= a.len(),
        n <= b.len(),
        forall|i: int| 0 <= i < n ==> a[i] == b[i],
    ensures
        combined(a, n, limit, overlap) == combined(b, n, limit, overlap),
    decreases n,
{
    if n > 0 {
        lemma_combined_prefix(a, b, n - 1, limit, overlap);
    }
}

/// How many of further decompositions are taken where some are there: up to the limit, but at
/// least one.
pub open spec fn share(kept: nat, further: nat, limit: nat) -> nat {
    if further == 0 {
        0
    } else if kept + 1 >= limit {
        1
    } else if kept + further <= limit {
        further
    } else {
        (limit - kept) as nat
    }
}

/// How many of further decompositions are taken.
pub fn residual_share(kept: usize, further: usize, limit: usize) -> (result: usize)
    ensures
        result == share(kept as nat, further as nat, limit as nat),
{
    if further == 0 {
        0
    } else if kept >= limit || limit - kept <= 1 {
        1
    } else if further <= limit - kept {
        further
    } else {
        limit - kept
    }
}

/// A vertex without its predicates, where it is among those given.
pub open spec fn bared(owned: Seq<VertexId>, v: VertexView) -> VertexView {
    if owned.contains(v.id) {
        VertexView { predicates: Seq::empty(), ..v }
    } else {
        v
    }
}

/// The edges that are not among those given.
pub open spec fn edges_left(edges: Seq<EdgeView>, consumed: Seq<EdgeId>) -> Seq<EdgeView>
    decreases edges.len(),
{
    if edges.len() == 0 {
        edges
    } else {
        let before = edges_left(edges.drop_last(), consumed);
        if consumed.contains(edges.last().id) {
            before
        } else {
            before.push(edges.last())
        }
    }
}

/// What is left of a graph where edges are taken out, and the predicates of some vertices.
pub open spec fn residual(graph: GraphView, consumed: Seq<EdgeId>, owned: Seq<VertexId>) -> GraphView {
    GraphView {
        vertices: graph.vertices.map_values(|v: VertexView| bared(owned, v)),
        edges: edges_left(graph.edges, consumed),
        index: graph.index,
    }
}

/// The edges that are left are those that were not taken out.
proof fn lemma_edges_left(edges: Seq<EdgeView>, consumed: Seq<EdgeId>, e: EdgeView)
    ensures
        edges_left(edges, consumed).contains(e) <==> edges.contains(e) && !consumed.contains(e.id),
    decreases edges.len(),
{
    if edges.len() > 0 {
        let head = edges.drop_last();
        let before = edges_left(head, consumed);
        let all = edges_left(edges, consumed);
        lemma_edges_left(head, consumed, e);
        if all.contains(e) {
            let i = choose|i: int| 0 <= i < all.len() && all[i] == e;
            if i < before.len() {
                assert(before[i] == e);
                let j = choose|j: int| 0 <= j < head.len() && head[j] == e;
                assert(edges[j] == e);
            } else {
                assert(edges[edges.len() - 1] == e);
            }
        }
        if edges.contains(e) && !consumed.contains(e.id) {
            let i = choose|i: int| 0 <= i < edges.len() && edges[i] == e;
            if i < head.len() {
                assert(head[i] == e);
                let j = choose|j: int| 0 <= j < before.len() && before[j] == e;
                assert(all[j] == e);
            } else {
                assert(all[before.len() as int] == e);
            }
        }
    }
}

proof fn lemma_edges_left_distinct(edges: Seq<EdgeView>, consumed: Seq<EdgeId>)
    requires
        forall|i: int, j: int|
            #![trigger edges[i], edges[j]]
            0 <= i < j < edges.len() ==> edges[i].id != edges[j].id,
    ensures
        forall|i: int, j: int|
            #![trigger edges_left(edges, consumed)[i], edges_left(edges, consumed)[j]]
            0 <= i < j < edges_left(edges, consumed).len() ==> edges_left(edges, consumed)[i].id
                != edges_left(edges, consumed)[j].id,
    decreases edges.len(),
{
    if edges.len() > 0 {
        let head = edges.drop_last();
        let before = edges_left(head, consumed);
        let all = edges_left(edges, consumed);
        assert forall|i: int, j: int|
            #![trigger head[i], head[j]]
            0 <= i < j < head.len() implies head[i].id != head[j].id by {
            assert(edges[i].id != edges[j].id);
        }
        lemma_edges_left_distinct(head, consumed);
        assert forall|i: int, j: int| #![trigger all[i], all[j]] 0 <= i < j < all.len() implies all[i].id
            != all[j].id by {
            if j < before.len() {
                assert(before[i].id != before[j].id);
            } else {
                assert(before.contains(before[i]));
                lemma_edges_left(head, consumed, before[i]);
                let m = choose|m: int| 0 <= m < head.len() && head[m] == before[i];
                assert(edges[m].id != edges[edges.len() - 1].id);
            }
        }
    }
}

/// What is left of a graph is a graph.
pub proof fn residuals_are_well_formed(
    graph: GraphView,
    consumed: Seq<EdgeId>,
    owned: Seq<VertexId>,
)
    requires
        graph.wf(),
    ensures
        residual(graph, consumed, owned).wf(),
{
    let left = residual(graph, consumed, owned);
    lemma_edges_left_distinct(graph.edges, consumed);
    assert forall|i: int, j: int|
        #![trigger left.vertices[i], left.vertices[j]]
        0 <= i < j < left.vertices.len() implies left.vertices[i].id != left.vertices[j].id by {
        assert(graph.vertices[i].id != graph.vertices[j].id);
    }
    assert forall|i: int| #![trigger left.edges[i]] 0 <= i < left.edges.len() implies left.vertex_at(
        left.edges[i].src,
    ) is Some && left.vertex_at(left.edges[i].dst) is Some by {
        let e = left.edges[i];
        assert(left.edges.contains(e));
        lemma_edges_left(graph.edges, consumed, e);
        let k = choose|k: int| 0 <= k < graph.edges.len() && graph.edges[k] == e;
        let a = graph.vertex_at(graph.edges[k].src)->0;
        let b = graph.vertex_at(graph.edges[k].dst)->0;
        assert(graph.vertices[a].id == e.src);
        assert(graph.vertices[b].id == e.dst);
        assert(left.vertices[a].id == e.src);
        assert(left.vertices[b].id == e.dst);
    }
}

impl QueryGraph {
    /// The graph without some edges, and without the predicates of some vertices.
    pub fn subgraph_without_edges(
        &self,
        consumed_edges: &Vec<EdgeId>,
        owned_predicate_vertices: &Vec<VertexId>,
    ) -> (result: QueryGraph)
        requires
            self@.wf(),
        ensures
            result@ == residual(self@, consumed_edges@, owned_predicate_vertices@),
            result@.wf(),
    {
        broadcast use vstd::std_specs::hash::group_hash_axioms;

        let ghost graph = self@;
        let ghost owned = owned_predicate_vertices@;
        let ghost consumed = consumed_edges@;
        let mut vertices: Vec<QueryVertex> = Vec::new();
        let mut i: usize = 0;
        while i < self.vertices.len()
            invariant
                graph == self@,
                owned == owned_predicate_vertices@,
                i <= self.vertices@.len(),
                vertices@.len() == i,
                forall|j: int|
                    #![trigger vertices@[j]]
                    0 <= j < i ==> vertices@[j]@ == bared(owned, graph.vertices[j]),
            decreases self.vertices.len() - i,
        {
            let mut v: QueryVertex = self.vertices[i].copy();
            assert(v@ == graph.vertices[i as int]);
            if contains_id(owned_predicate_vertices, v.id) {
                v.predicates = Vec::new();
                assert(predicate_views(v.predicates@) =~= Seq::empty());
            }
            vertices.push(v);
            i = i + 1;
        }
        let mut edges: Vec<QueryEdge> = Vec::new();
        let mut j: usize = 0;
        assert(edges@.map_values(|e: QueryEdge| e@) =~= edges_left(graph.edges.take(0), consumed));
        while j < self.edges.len()
            invariant
                graph == self@,
                consumed == consumed_edges@,
                j <= self.edges@.len(),
                edges@.map_values(|e: QueryEdge| e@) == edges_left(
                    graph.edges.take(j as int),
                    consumed,
                ),
            decreases self.edges.len() - j,
        {
            assert(graph.edges.take(j + 1).drop_last() =~= graph.edges.take(j as int));
            assert(graph.edges.take(j + 1).last() == self.edges@[j as int]@);
            if !contains_id(consumed_edges, self.edges[j].id) {
                let ghost before = edges@;
                edges.push(self.edges[j].copy());
                assert(edges@.map_values(|e: QueryEdge| e@) =~= before.map_values(
                    |e: QueryEdge| e@,
                ).push(self.edges@[j as int]@));
            }
            j = j + 1;
        }
        assert(graph.edges.take(j as int) =~= graph.edges);
        let result = QueryGraph {
            vertices,
            edges,
            predicate_index: self.predicate_index.clone(),
        };
        proof {
            assert(result@.vertices =~= residual(graph, consumed, owned).vertices);
            assert(result@ =~= residual(graph, consumed, owned));
            residuals_are_well_formed(graph, consumed, owned);
        }
        result
    }
}

/// Whether an edge goes from one vertex to another.
pub open spec fn goes(e: EdgeView, from: VertexId, to: VertexId) -> bool {
    e.src == from && e.dst == to
}

/// Whether an edge, followed from one vertex to another, determines where it leads.
pub open spec fn determines(
    catalog: DegreeSeqGraph,
    e: EdgeView,
    from: VertexId,
    to: VertexId,
) -> bool {
    if goes(e, from, to) {
        cardinality_of(catalog, e.label) == EdgeCardinality::ManyToOne
    } else {
        goes(e, to, from) && cardinality_of(catalog, e.label) == EdgeCardinality::OneToMany
    }
}

/// Whether an edge, followed from one vertex to another, determines where it comes from.
pub open spec fn is_determined(
    catalog: DegreeSeqGraph,
    e: EdgeView,
    from: VertexId,
    to: VertexId,
) -> bool {
    if goes(e, from, to) {
        cardinality_of(catalog, e.label) == EdgeCardinality::OneToMany
    } else {
        goes(e, to, from) && cardinality_of(catalog, e.label) == EdgeCardinality::ManyToOne
    }
}

/// Whether the edges of an abstract edge follow its vertices.
pub open spec fn follows(graph: GraphView, edge: AbstractView) -> bool {
    &&& edge.original_edge_ids.len() > 0
    &&& edge.path_vertices.len() == edge.original_edge_ids.len() + 1
    &&& forall|i: int|
        #![trigger edge.original_edge_ids[i]]
        0 <= i < edge.original_edge_ids.len() ==> {
            &&& graph.edge(edge.original_edge_ids[i]) matches Some(e)
            &&& goes(e, edge.path_vertices[i], edge.path_vertices[i + 1]) || goes(
                e,
                edge.path_vertices[i + 1],
                edge.path_vertices[i],
            )
        }
}

/// Whether each of the first `n` edges of an abstract edge determines the next vertex.
pub open spec fn determines_forth(
    graph: GraphView,
    catalog: DegreeSeqGraph,
    edge: AbstractView,
    n: int,
) -> bool {
    forall|i: int|
        #![trigger edge.original_edge_ids[i]]
        0 <= i < n ==> determines(
            catalog,
            graph.edge(edge.original_edge_ids[i])->0,
            edge.path_vertices[i],
            edge.path_vertices[i + 1],
        )
}

/// Whether each of the first `n` edges of an abstract edge determines the vertex before it.
pub open spec fn determines_back(
    graph: GraphView,
    catalog: DegreeSeqGraph,
    edge: AbstractView,
    n: int,
) -> bool {
    forall|i: int|
        #![trigger edge.original_edge_ids[i]]
        0 <= i < n ==> is_determined(
            catalog,
            graph.edge(edge.original_edge_ids[i])->0,
            edge.path_vertices[i],
            edge.path_vertices[i + 1],
        )
}

impl QueryGraph {
    fn cardinality_of_edge(&self, e: &QueryEdge, catalog: &DegreeSeqGraph) -> (result:
        EdgeCardinality)
        ensures
            result == cardinality_of(*catalog, e@.label),
    {
        match catalog.edge_cardinality(e.label.as_str()) {
            Some(cardinality) => cardinality,
            None => manual_edge_cardinality(e.label.as_str()),
        }
    }

    /// Whether an edge, followed from one vertex to another, determines where it leads.
    pub fn edge_is_functional_between(
        &self,
        edge_id: EdgeId,
        from: VertexId,
        to: VertexId,
        catalog: &DegreeSeqGraph,
    ) -> (result: bool)
        requires
            self@.wf(),
        ensures
            result == (self@.edge(edge_id) matches Some(e) && determines(*catalog, e, from, to)),
    {
        match self.get_edge(edge_id) {
            Some(edge) => {
                let cardinality = self.cardinality_of_edge(edge, catalog);
                if edge.src_vertex_id == from && edge.dst_vertex_id == to {
                    matches!(cardinality, EdgeCardinality::ManyToOne)
                } else if edge.dst_vertex_id == from && edge.src_vertex_id == to {
                    matches!(cardinality, EdgeCardinality::OneToMany)
                } else {
                    false
                }
            },
            None => false,
        }
    }

    /// In which directions an abstract edge determines its other end: where each of its edges
    /// does. Where that is not wanted at all, or its edges do not follow its vertices, in none.
    pub fn functional_direction_for_abstract_edge(
        &self,
        abstract_edge: &AbstractEdge,
        catalog: &DegreeSeqGraph,
        refine: bool,
    ) -> (result: FunctionalDirection)
        requires
            self@.wf(),
        ensures
            refine && follows(self@, abstract_edge@) ==> {
                let n = abstract_edge.original_edge_ids@.len() as int;
                &&& result.forth() == determines_forth(self@, *catalog, abstract_edge@, n)
                &&& result.back() == determines_back(self@, *catalog, abstract_edge@, n)
            },
            !(refine && follows(self@, abstract_edge@)) ==> result == FunctionalDirection::Neither,
    {
        if !refine {
            return FunctionalDirection::Neither;
        }
        if abstract_edge.original_edge_ids.len() == 0 || abstract_edge.path_vertices.len() == 0
            || abstract_edge.path_vertices.len() - 1 != abstract_edge.original_edge_ids.len() {
            return FunctionalDirection::Neither;
        }
        let ghost graph = self@;
        let ghost edge = abstract_edge@;
        let mut forth: bool = true;
        let mut back: bool = true;
        let mut i: usize = 0;
        while i < abstract_edge.original_edge_ids.len()
            invariant
                self@.wf(),
                graph == self@,
                edge == abstract_edge@,
                refine,
                edge.original_edge_ids.len() > 0,
                edge.path_vertices.len() == edge.original_edge_ids.len() + 1,
                abstract_edge.path_vertices@.len() == abstract_edge.path_vertices.len(),
                i <= edge.original_edge_ids.len(),
                forall|j: int|
                    #![trigger edge.original_edge_ids[j]]
                    0 <= j < i ==> {
                        &&& graph.edge(edge.original_edge_ids[j]) matches Some(e)
                        &&& goes(e, edge.path_vertices[j], edge.path_vertices[j + 1]) || goes(
                            e,
                            edge.path_vertices[j + 1],
                            edge.path_vertices[j],
                        )
                    },
                forth == determines_forth(graph, *catalog, edge, i as int),
                back == determines_back(graph, *catalog, edge, i as int),
            decreases abstract_edge.original_edge_ids.len() - i,
        {
            let current: VertexId = abstract_edge.path_vertices[i];
            let next: VertexId = abstract_edge.path_vertices[i + 1];
            let id: EdgeId = abstract_edge.original_edge_ids[i];
            assert(edge.original_edge_ids[i as int] == id);
            match self.get_edge(id) {
                Some(e) => {
                    let cardinality = self.cardinality_of_edge(e, catalog);
                    let along: bool = e.src_vertex_id == current && e.dst_vertex_id == next;
                    let against: bool = e.dst_vertex_id == current && e.src_vertex_id == next;
                    if !along && !against {
                        assert(!follows(graph, edge));
                        return FunctionalDirection::Neither;
                    }
                    let step_forth: bool = if along {
                        matches!(cardinality, EdgeCardinality::ManyToOne)
                    } else {
                        matches!(cardinality, EdgeCardinality::OneToMany)
                    };
                    let step_back: bool = if along {
                        matches!(cardinality, EdgeCardinality::OneToMany)
                    } else {
                        matches!(cardinality, EdgeCardinality::ManyToOne)
                    };
                    assert(step_forth == determines(*catalog, e@, current, next));
                    assert(step_back == is_determined(*catalog, e@, current, next));
                    proof {
                        lemma_one_more_step(graph, *catalog, edge, i as int);
                    }
                    forth = forth && step_forth;
                    back = back && step_back;
                },
                None => {
                    assert(!follows(graph, edge));
                    return FunctionalDirection::Neither;
                },
            }
            i = i + 1;
        }
        FunctionalDirection::from_flags(forth, back)
    }
}

proof fn lemma_one_more_step(
    graph: GraphView,
    catalog: DegreeSeqGraph,
    edge: AbstractView,
    i: int,
)
    requires
        0 <= i < edge.original_edge_ids.len(),
    ensures
        determines_forth(graph, catalog, edge, i + 1) == (determines_forth(graph, catalog, edge, i)
            && determines(
            catalog,
            graph.edge(edge.original_edge_ids[i])->0,
            edge.path_vertices[i],
            edge.path_vertices[i + 1],
        )),
        determines_back(graph, catalog, edge, i + 1) == (determines_back(graph, catalog, edge, i)
            && is_determined(
            catalog,
            graph.edge(edge.original_edge_ids[i])->0,
            edge.path_vertices[i],
            edge.path_vertices[i + 1],
        )),
{
    assert(edge.original_edge_ids[i] == edge.original_edge_ids[i]);
}

/// The first of the vertices that is not in a graph.
pub open spec fn first_missing_vertex(graph: GraphView, ids: Seq<VertexId>) -> Option<VertexId>
    decreases ids.len(),
{
    if ids.len() == 0 {
        None
    } else if let Some(id) = first_missing_vertex(graph, ids.drop_last()) {
        Some(id)
    } else if graph.vertex(ids.last()) is None {
        Some(ids.last())
    } else {
        None
    }
}

/// The first of the edges that is not in a graph.
pub open spec fn first_missing_edge(graph: GraphView, ids: Seq<EdgeId>) -> Option<EdgeId>
    decreases ids.len(),
{
    if ids.len() == 0 {
        None
    } else if let Some(id) = first_missing_edge(graph, ids.drop_last()) {
        Some(id)
    } else if graph.edge(ids.last()) is None {
        Some(ids.last())
    } else {
        None
    }
}

/// The first of the ids that occurs before.
pub open spec fn first_repeat(ids: Seq<u64>) -> Option<u64>
    decreases ids.len(),
{
    if ids.len() == 0 {
        None
    } else if let Some(id) = first_repeat(ids.drop_last()) {
        Some(id)
    } else if ids.drop_last().contains(ids.last()) {
        Some(ids.last())
    } else {
        None
    }
}

/// Ids repeat exactly where one of them occurs before.
pub proof fn repeats_are_found(ids: Seq<u64>)
    ensures
        first_repeat(ids) is None <==> ids.no_duplicates(),
    decreases ids.len(),
{
    if ids.len() > 0 {
        let head = ids.drop_last();
        repeats_are_found(head);
        if ids.no_duplicates() {
            assert(head.no_duplicates());
            assert(!head.contains(ids.last()));
        }
        if first_repeat(ids) is None {
            assert forall|i: int, j: int| 0 <= i < ids.len() && 0 <= j < ids.len() && i
                != j implies ids[i] != ids[j] by {
                if i < head.len() && j < head.len() {
                    assert(head[i] != head[j]);
                } else if i < head.len() {
                    assert(head[i] == ids[i]);
                } else {
                    assert(head[j] == ids[j]);
                }
            }
        }
    }
}

/// Once found, the first one stays the first one where more ids follow.
proof fn lemma_first_missing_vertex(graph: GraphView, ids: Seq<VertexId>, n: int)
    requires
        0 <= n <= ids.len(),
        first_missing_vertex(graph, ids.take(n)) is Some,
    ensures
        first_missing_vertex(graph, ids) == first_missing_vertex(graph, ids.take(n)),
    decreases ids.len(),
{
    if n == ids.len() {
        assert(ids.take(n) =~= ids);
    } else {
        assert(ids.drop_last().take(n) =~= ids.take(n));
        lemma_first_missing_vertex(graph, ids.drop_last(), n);
    }
}

proof fn lemma_first_missing_edge(graph: GraphView, ids: Seq<EdgeId>, n: int)
    requires
        0 <= n <= ids.len(),
        first_missing_edge(graph, ids.take(n)) is Some,
    ensures
        first_missing_edge(graph, ids) == first_missing_edge(graph, ids.take(n)),
    decreases ids.len(),
{
    if n == ids.len() {
        assert(ids.take(n) =~= ids);
    } else {
        assert(ids.drop_last().take(n) =~= ids.take(n));
        lemma_first_missing_edge(graph, ids.drop_last(), n);
    }
}

proof fn lemma_first_repeat(ids: Seq<u64>, n: int)
    requires
        0 <= n <= ids.len(),
        first_repeat(ids.take(n)) is Some,
    ensures
        first_repeat(ids) == first_repeat(ids.take(n)),
    decreases ids.len(),
{
    if n == ids.len() {
        assert(ids.take(n) =~= ids);
    } else {
        assert(ids.drop_last().take(n) =~= ids.take(n));
        lemma_first_repeat(ids.drop_last(), n);
    }
}

fn find_repeat(ids: &Vec<u64>) -> (result: Option<u64>)
    ensures
        result == first_repeat(ids@),
{
    let mut i: usize = 0;
    assert(first_repeat(ids@.take(0)) is None);
    while i < ids.len()
        invariant
            i <= ids@.len(),
            first_repeat(ids@.take(i as int)) is None,
        decreases ids.len() - i,
    {
        assert(ids@.take(i + 1).drop_last() =~= ids@.take(i as int));
        let mut j: usize = 0;
        while j < i
            invariant
                i < ids@.len(),
                j <= i,
                first_repeat(ids@.take(i as int)) is None,
                ids@.take(i + 1).drop_last() == ids@.take(i as int),
                forall|a: int| 0 <= a < j ==> ids@[a] != ids@[i as int],
            decreases i - j,
        {
            if ids[j] == ids[i] {
                proof {
                    assert(ids@.take(i as int)[j as int] == ids@[i as int]);
                    lemma_first_repeat(ids@, i + 1);
                }
                return Some(ids[i]);
            }
            j = j + 1;
        }
        assert(!ids@.take(i as int).contains(ids@[i as int]));
        i = i + 1;
    }
    assert(ids@.take(i as int) =~= ids@);
    None
}

impl QueryGraph {
    /// The first of some vertices that the graph does not have.
    pub fn find_missing_vertex(&self, ids: &Vec<VertexId>) -> (result: Option<VertexId>)
        requires
            self@.wf(),
        ensures
            result == first_missing_vertex(self@, ids@),
    {
        let mut i: usize = 0;
        assert(first_missing_vertex(self@, ids@.take(0)) is None);
        while i < ids.len()
            invariant
                self@.wf(),
                i <= ids@.len(),
                first_missing_vertex(self@, ids@.take(i as int)) is None,
            decreases ids.len() - i,
        {
            assert(ids@.take(i + 1).drop_last() =~= ids@.take(i as int));
            match self.get_vertex(ids[i]) {
                Some(_) => {},
                None => {
                    proof {
                        lemma_first_missing_vertex(self@, ids@, i + 1);
                    }
                    return Some(ids[i]);
                },
            }
            i = i + 1;
        }
        assert(ids@.take(i as int) =~= ids@);
        None
    }

    /// The first of some edges that the graph does not have.
    pub fn find_missing_edge(&self, ids: &Vec<EdgeId>) -> (result: Option<EdgeId>)
        requires
            self@.wf(),
        ensures
            result == first_missing_edge(self@, ids@),
    {
        let mut i: usize = 0;
        assert(first_missing_edge(self@, ids@.take(0)) is None);
        while i < ids.len()
            invariant
                self@.wf(),
                i <= ids@.len(),
                first_missing_edge(self@, ids@.take(i as int)) is None,
            decreases ids.len() - i,
        {
            assert(ids@.take(i + 1).drop_last() =~= ids@.take(i as int));
            match self.get_edge(ids[i]) {
                Some(_) => {},
                None => {
                    proof {
                        lemma_first_missing_edge(self@, ids@, i + 1);
                    }
                    return Some(ids[i]);
                },
            }
            i = i + 1;
        }
        assert(ids@.take(i as int) =~= ids@);
        None
    }

    /// The abstract edge that a user wrote: the predicates on its vertices, then those on its
    /// edges, belong to it.
    pub fn build_abstract_edge_from_def(&self, def: &AbstractEdgeDef) -> (result: Result<
        AbstractEdge,
        DecompositionError,
    >)
        requires
            self@.wf(),
        ensures
            match defined(self@, def.path_vertices@, def.original_edge_ids@) {
                Ok(view) => result matches Ok(edge) && edge@ == view,
                Err(error) => result matches Err(e) && e == error,
            },
    {
        assert(def.path_vertices@.len() == def.path_vertices.len());
        assert(def.original_edge_ids@.len() == def.original_edge_ids.len());
        if def.path_vertices.len() < 2 {
            return Err(DecompositionError::TooFewVertices);
        }
        if def.original_edge_ids.len() != def.path_vertices.len() - 1 {
            return Err(
                DecompositionError::LengthMismatch {
                    edges: def.original_edge_ids.len(),
                    vertices: def.path_vertices.len(),
                },
            );
        }
        if let Some(id) = self.find_missing_vertex(&def.path_vertices) {
            return Err(DecompositionError::VertexNotFound(id));
        }
        if let Some(id) = self.find_missing_edge(&def.original_edge_ids) {
            return Err(DecompositionError::EdgeNotFound(id));
        }
        let mut predicates: Vec<PredicateDef> = Vec::new();
        assert(predicate_views(predicates@) =~= Seq::empty());
        self.append_on_vertices(&mut predicates, &def.path_vertices);
        let further: Vec<PredicateDef> = self.predicates_on_edges(&def.original_edge_ids);
        extend_predicates(&mut predicates, &further);
        assert(predicate_views(predicates@) =~= on_vertices(self@, def.path_vertices@) + on_edges(
            self@,
            def.original_edge_ids@,
        ));
        Ok(
            AbstractEdge {
                src: def.path_vertices[0],
                dst: def.path_vertices[def.path_vertices.len() - 1],
                functional: FunctionalDirection::Neither,
                predicates,
                original_edge_ids: copy_ids(&def.original_edge_ids),
                path_vertices: copy_ids(&def.path_vertices),
                path_str: "".to_owned(),
            },
        )
    }
}

/// What an abstract edge that a user wrote stands for, or why it is refused.
pub open spec fn defined(graph: GraphView, vertices: Seq<VertexId>, edges: Seq<EdgeId>) -> Result<
    AbstractView,
    DecompositionError,
> {
    if vertices.len() < 2 {
        Err(DecompositionError::TooFewVertices)
    } else if edges.len() != vertices.len() - 1 {
        Err(
            DecompositionError::LengthMismatch {
                edges: edges.len() as usize,
                vertices: vertices.len() as usize,
            },
        )
    } else if let Some(id) = first_missing_vertex(graph, vertices) {
        Err(DecompositionError::VertexNotFound(id))
    } else if let Some(id) = first_missing_edge(graph, edges) {
        Err(DecompositionError::EdgeNotFound(id))
    } else {
        Ok(
            AbstractView {
                src: vertices.first(),
                dst: vertices.last(),
                functional: FunctionalDirection::Neither,
                predicates: on_vertices(graph, vertices) + on_edges(graph, edges),
                original_edge_ids: edges,
                path_vertices: vertices,
                path_str: ""@,
            },
        )
    }
}

/// The graph of a decomposition: vertices of the query, and numbered abstract edges between
/// them.
#[derive(Debug)]
pub struct AbstractGraph {
    pub vertices: Vec<QueryVertex>,
    pub edges: Vec<(EdgeId, AbstractEdge)>,
}

/// What an abstract graph says.
#[verifier::ext_equal]
pub struct AbstractGraphView {
    pub vertices: Seq<VertexView>,
    pub edges: Seq<(EdgeId, AbstractView)>,
}

impl View for AbstractGraph {
    type V = AbstractGraphView;

    open spec fn view(&self) -> AbstractGraphView {
        AbstractGraphView {
            vertices: self.vertices@.map_values(|v: QueryVertex| v@),
            edges: self.edges@.map_values(|e: (EdgeId, AbstractEdge)| (e.0, e.1@)),
        }
    }
}

/// The vertices with all centers.
pub open spec fn with_centers(graph: GraphView, centers: Seq<VertexId>) -> Seq<VertexView>
    decreases centers.len(),
{
    if centers.len() == 0 {
        Seq::empty()
    } else {
        with_end(graph, with_centers(graph, centers.drop_last()), centers.last())
    }
}

/// The vertices of an abstract graph: the centers, then the ends of the abstract edges, each
/// once.
pub open spec fn with_abstract_ends(
    graph: GraphView,
    centers: Seq<VertexId>,
    edges: Seq<AbstractView>,
) -> Seq<VertexView>
    decreases edges.len(),
{
    if edges.len() == 0 {
        with_centers(graph, centers)
    } else {
        with_end(
            graph,
            with_end(
                graph,
                with_abstract_ends(graph, centers, edges.drop_last()),
                edges.last().src,
            ),
            edges.last().dst,
        )
    }
}

/// The abstract graph of centers and abstract edges, which are numbered from one.
pub open spec fn assembled(
    graph: GraphView,
    centers: Seq<VertexId>,
    edges: Seq<AbstractView>,
) -> AbstractGraphView {
    AbstractGraphView {
        vertices: with_abstract_ends(graph, centers, edges),
        edges: Seq::new(edges.len(), |i: int| ((i + 1) as u64, edges[i])),
    }
}

impl QueryGraph {
    /// The abstract graph of centers and abstract edges.
    pub fn build_abstract_graph_from_edges(
        &self,
        abstract_edges: Vec<AbstractEdge>,
        centers: &Vec<VertexId>,
    ) -> (result: Result<AbstractGraph, DecompositionError>)
        requires
            self@.wf(),
            forall|i: int|
                #![trigger abstract_edges@[i]]
                0 <= i < abstract_edges@.len() ==> self@.vertex(abstract_edges@[i].src) is Some
                    && self@.vertex(abstract_edges@[i].dst) is Some,
        ensures
            match result {
                Err(DecompositionError::VertexNotFound(id)) => first_missing_vertex(
                    self@,
                    centers@,
                ) == Some(id),
                Err(DecompositionError::DuplicateEdge(id)) => first_missing_vertex(
                    self@,
                    centers@,
                ) is None && first_repeat(edges_used(abstract_views(abstract_edges@))) == Some(id),
                Err(_) => false,
                Ok(graph) => {
                    &&& first_missing_vertex(self@, centers@) is None
                    &&& edges_used(abstract_views(abstract_edges@)).no_duplicates()
                    &&& graph@ == assembled(self@, centers@, abstract_views(abstract_edges@))
                },
            },
    {
        let ghost graph = self@;
        let ghost all = abstract_views(abstract_edges@);
        if let Some(id) = self.find_missing_vertex(centers) {
            return Err(DecompositionError::VertexNotFound(id));
        }
        let used: Vec<EdgeId> = gather_used(&abstract_edges);
        proof {
            repeats_are_found(used@);
        }
        if let Some(id) = find_repeat(&used) {
            return Err(DecompositionError::DuplicateEdge(id));
        }
        let mut vertices: Vec<QueryVertex> = Vec::new();
        let mut i: usize = 0;
        assert(vertices@.map_values(|v: QueryVertex| v@) =~= with_centers(graph, centers@.take(0)));
        while i < centers.len()
            invariant
                self@.wf(),
                graph == self@,
                i <= centers@.len(),
                vertices@.map_values(|v: QueryVertex| v@) == with_centers(
                    graph,
                    centers@.take(i as int),
                ),
            decreases centers.len() - i,
        {
            assert(centers@.take(i + 1).drop_last() =~= centers@.take(i as int));
            self.add_end(&mut vertices, centers[i]);
            i = i + 1;
        }
        assert(centers@.take(i as int) =~= centers@);
        let mut edges: Vec<(EdgeId, AbstractEdge)> = Vec::new();
        let mut j: usize = 0;
        assert(all.take(0) =~= Seq::empty());
        while j < abstract_edges.len()
            invariant
                self@.wf(),
                graph == self@,
                all == abstract_views(abstract_edges@),
                j <= abstract_edges@.len(),
                vertices@.map_values(|v: QueryVertex| v@) == with_abstract_ends(
                    graph,
                    centers@,
                    all.take(j as int),
                ),
                edges@.len() == j,
                forall|m: int|
                    #![trigger edges@[m]]
                    0 <= m < j ==> edges@[m].0 == m + 1 && edges@[m].1@ == all[m],
            decreases abstract_edges.len() - j,
        {
            assert(all.take(j + 1).drop_last() =~= all.take(j as int));
            assert(all.take(j + 1).last() == abstract_edges@[j as int]@);
            self.add_end(&mut vertices, abstract_edges[j].src);
            self.add_end(&mut vertices, abstract_edges[j].dst);
            let id: EdgeId = j as u64 + 1;
            edges.push((id, abstract_edges[j].copy()));
            j = j + 1;
        }
        assert(all.take(j as int) =~= all);
        let result = AbstractGraph { vertices, edges };
        assert(result@.edges =~= assembled(graph, centers@, all).edges);
        assert(result@ =~= assembled(graph, centers@, all));
        Ok(result)
    }
}

/// What the abstract edges that a user wrote stand for, or why the first of them that is refused
/// is.
pub open spec fn all_defined(graph: GraphView, defs: Seq<AbstractEdgeDef>) -> Result<
    Seq<AbstractView>,
    DecompositionError,
>
    decreases defs.len(),
{
    if defs.len() == 0 {
        Ok(Seq::empty())
    } else {
        match all_defined(graph, defs.drop_last()) {
            Err(error) => Err(error),
            Ok(before) => match defined(
                graph,
                defs.last().path_vertices@,
                defs.last().original_edge_ids@,
            ) {
                Err(error) => Err(error),
                Ok(edge) => Ok(before.push(edge)),
            },
        }
    }
}

proof fn lemma_all_defined(graph: GraphView, defs: Seq<AbstractEdgeDef>, n: int)
    requires
        0 <= n <= defs.len(),
        all_defined(graph, defs.take(n)) is Err,
    ensures
        all_defined(graph, defs) == all_defined(graph, defs.take(n)),
    decreases defs.len(),
{
    if n == defs.len() {
        assert(defs.take(n) =~= defs);
    } else {
        assert(defs.drop_last().take(n) =~= defs.take(n));
        lemma_all_defined(graph, defs.drop_last(), n);
    }
}

impl QueryGraph {
    /// The abstract graph of the decomposition that a user wrote, with no cost.
    pub fn build_abstract_graph_flat_from_decomposition(&self, decomposition: &DecompositionDef) -> (result:
        Result<Vec<(AbstractGraph, u64)>, DecompositionError>)
        requires
            self@.wf(),
        ensures
            match all_defined(self@, decomposition.abstract_edges@) {
                Err(error) => result matches Err(e) && e == error,
                Ok(edges) => result matches Ok(graphs) && graphs@.len() == 1 && graphs@[0].0@
                    == assembled(self@, Seq::empty(), edges) && graphs@[0].1 == 0,
            },
    {
        let ghost graph = self@;
        let ghost defs = decomposition.abstract_edges@;
        let mut vertices: Vec<QueryVertex> = Vec::new();
        let mut edges: Vec<(EdgeId, AbstractEdge)> = Vec::new();
        let ghost mut all: Seq<AbstractView> = Seq::empty();
        let mut i: usize = 0;
        assert(defs.take(0) =~= Seq::empty());
        assert(vertices@.map_values(|v: QueryVertex| v@) =~= with_abstract_ends(
            graph,
            Seq::empty(),
            all,
        ));
        while i < decomposition.abstract_edges.len()
            invariant
                self@.wf(),
                graph == self@,
                defs == decomposition.abstract_edges@,
                i <= defs.len(),
                all_defined(graph, defs.take(i as int)) == Ok::<_, DecompositionError>(all),
                all.len() == i,
                vertices@.map_values(|v: QueryVertex| v@) == with_abstract_ends(
                    graph,
                    Seq::empty(),
                    all,
                ),
                edges@.len() == i,
                forall|m: int|
                    #![trigger edges@[m]]
                    0 <= m < i ==> edges@[m].0 == m + 1 && edges@[m].1@ == all[m],
            decreases decomposition.abstract_edges.len() - i,
        {
            let def: &AbstractEdgeDef = &decomposition.abstract_edges[i];
            assert(defs.take(i + 1).drop_last() =~= defs.take(i as int));
            assert(defs.take(i + 1).last() == *def);
            match self.build_abstract_edge_from_def(def) {
                Err(error) => {
                    proof {
                        lemma_all_defined(graph, defs, i + 1);
                    }
                    return Err(error);
                },
                Ok(edge) => {
                    proof {
                        let before = all;
                        all = all.push(edge@);
                        assert(all.drop_last() =~= before);
                    }
                    self.add_end(&mut vertices, edge.src);
                    self.add_end(&mut vertices, edge.dst);
                    let id: EdgeId = i as u64 + 1;
                    edges.push((id, edge));
                },
            }
            i = i + 1;
        }
        assert(defs.take(i as int) =~= defs);
        let result = AbstractGraph { vertices, edges };
        assert(result@.edges =~= assembled(graph, Seq::empty(), all).edges);
        assert(result@ =~= assembled(graph, Seq::empty(), all));
        let mut graphs: Vec<(AbstractGraph, u64)> = Vec::new();
        graphs.push((result, 0));
        Ok(graphs)
    }
}

/// What is left of a graph has the edges that were not taken out, in their order, and all vertices
/// with their labels. The predicates of a vertex are left unless it is among those given.
pub proof fn residuals_lose_what_is_taken_out(
    graph: GraphView,
    consumed: Seq<EdgeId>,
    owned: Seq<VertexId>,
) -> (at: Seq<int>)
    ensures
        ({
            let left = residual(graph, consumed, owned);
            &&& lists_places(
                at,
                graph.edges.len() as int,
                |p: int| !consumed.contains(graph.edges[p].id),
            )
            &&& left.edges == at.map_values(|p: int| graph.edges[p])
            &&& left.vertices.len() == graph.vertices.len()
            &&& left.index == graph.index
            &&& forall|i: int|
                #![trigger left.vertices[i]]
                0 <= i < left.vertices.len() ==> {
                    &&& left.vertices[i].id == graph.vertices[i].id
                    &&& left.vertices[i].label == graph.vertices[i].label
                    &&& owned.contains(graph.vertices[i].id) ==> left.vertices[i].predicates.len()
                        == 0
                    &&& !owned.contains(graph.vertices[i].id) ==> left.vertices[i].predicates
                        == graph.vertices[i].predicates
                }
        }),
{
    lemma_edges_left_at(graph.edges, consumed)
}

proof fn lemma_edges_left_at(edges: Seq<EdgeView>, consumed: Seq<EdgeId>) -> (at: Seq<int>)
    ensures
        lists_places(at, edges.len() as int, |p: int| !consumed.contains(edges[p].id)),
        edges_left(edges, consumed) == at.map_values(|p: int| edges[p]),
    decreases edges.len(),
{
    let wanted = |p: int| !consumed.contains(edges[p].id);
    if edges.len() == 0 {
        let at = Seq::<int>::empty();
        assert(at.map_values(|p: int| edges[p]) =~= edges_left(edges, consumed));
        at
    } else {
        let n = edges.len() as int;
        let fewer = edges.drop_last();
        let before = lemma_edges_left_at(fewer, consumed);
        assert(lists_places(before, n - 1, wanted)) by {
            assert forall|p: int| 0 <= p < n - 1 && #[trigger] wanted(p) implies before.contains(
                p,
            ) by {
                assert((|q: int| !consumed.contains(fewer[q].id))(p));
            }
        }
        lemma_one_more_place(before, n, wanted);
        let at = if wanted(n - 1) {
            before.push(n - 1)
        } else {
            before
        };
        assert(before.map_values(|p: int| edges[p]) =~= before.map_values(|p: int| fewer[p]));
        assert(at.map_values(|p: int| edges[p]) =~= edges_left(edges, consumed));
        at
    }
}

/// Of further decompositions at least one is taken, where there are any. More are taken only as
/// long as there are no more than the limit in all, and fewer than there are only where the limit
/// is reached.
pub proof fn shares_keep_to_the_limit(kept: nat, further: nat, limit: nat)
    ensures
        share(kept, further, limit) <= further,
        further > 0 ==> share(kept, further, limit) > 0,
        share(kept, further, limit) > 1 ==> kept + share(kept, further, limit) <= limit,
        share(kept, further, limit) < further ==> kept + share(kept, further, limit) >= limit,
{
}

/// The chosen candidates for the first `n` paths, one behind the other.
pub open spec fn chosen_for(
    candidates: Seq<Seq<Seq<AbstractView>>>,
    picks: Seq<int>,
    n: int,
) -> Seq<AbstractView>
    decreases n,
{
    if n <= 0 {
        Seq::empty()
    } else {
        chosen_for(candidates, picks, n - 1) + candidates[n - 1][picks[n - 1]]
    }
}

/// Whether one candidate is picked for each of the first `n` paths.
pub open spec fn are_picks(
    candidates: Seq<Seq<Seq<AbstractView>>>,
    picks: Seq<int>,
    n: int,
) -> bool {
    picks.len() == n && forall|k: int|
        #![trigger picks[k]]
        0 <= k < n ==> 0 <= picks[k] < candidates[k].len()
}

/// A combination consists of one candidate for each path, in the order of the paths.
pub proof fn combinations_take_one_of_each(
    candidates: Seq<Seq<Seq<AbstractView>>>,
    n: int,
    limit: nat,
    overlap: bool,
    i: int,
) -> (picks: Seq<int>)
    requires
        0 <= n <= candidates.len(),
        0 <= i < combined(candidates, n, limit, overlap).len(),
    ensures
        are_picks(candidates, picks, n),
        combined(candidates, n, limit, overlap)[i] == chosen_for(candidates, picks, n),
    decreases n,
{
    if n == 0 {
        Seq::empty()
    } else {
        let before = combined(candidates, n - 1, limit, overlap);
        let (set, k) = lemma_all_grown_from(before, candidates[n - 1], overlap, i);
        let fewer = combinations_take_one_of_each(candidates, n - 1, limit, overlap, set);
        let picks = fewer.push(k);
        lemma_chosen(candidates, fewer, picks, n - 1);
        picks
    }
}

proof fn lemma_chosen(
    candidates: Seq<Seq<Seq<AbstractView>>>,
    a: Seq<int>,
    b: Seq<int>,
    n: int,
)
    requires
        n <= a.len(),
        n <= b.len(),
        forall|k: int| #![trigger a[k]] 0 <= k < n ==> a[k] == b[k],
    ensures
        chosen_for(candidates, a, n) == chosen_for(candidates, b, n),
    decreases n,
{
    if n > 0 {
        lemma_chosen(candidates, a, b, n - 1);
        let (x, y) = (a[n - 1], b[n - 1]);
    }
}

proof fn lemma_all_grown_from(
    sets: Seq<Seq<AbstractView>>,
    candidates: Seq<Seq<AbstractView>>,
    overlap: bool,
    i: int,
) -> (from: (int, int))
    requires
        0 <= i < all_grown(sets, candidates, overlap).len(),
    ensures
        0 <= from.0 < sets.len(),
        0 <= from.1 < candidates.len(),
        all_grown(sets, candidates, overlap)[i] == sets[from.0] + candidates[from.1],
        overlap || fits(sets[from.0], candidates[from.1]),
    decreases sets.len(),
{
    let before = all_grown(sets.drop_last(), candidates, overlap);
    if i < before.len() {
        lemma_all_grown_from(sets.drop_last(), candidates, overlap, i)
    } else {
        let k = lemma_grown_from(sets.last(), candidates, overlap, i - before.len());
        (sets.len() - 1, k)
    }
}

proof fn lemma_grown_from(
    existing: Seq<AbstractView>,
    candidates: Seq<Seq<AbstractView>>,
    overlap: bool,
    i: int,
) -> (k: int)
    requires
        0 <= i < grown(existing, candidates, overlap).len(),
    ensures
        0 <= k < candidates.len(),
        grown(existing, candidates, overlap)[i] == existing + candidates[k],
        overlap || fits(existing, candidates[k]),
    decreases candidates.len(),
{
    let before = grown(existing, candidates.drop_last(), overlap);
    if i < before.len() {
        lemma_grown_from(existing, candidates.drop_last(), overlap, i)
    } else {
        candidates.len() - 1
    }
}

} // verus!
