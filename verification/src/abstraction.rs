//! Abstract edges: each stands for a stretch of a path.
use crate::catalog::{listed_cardinality, DegreeSeqGraph};
use crate::paths::{Path, RouteView};
use crate::pattern::{first_direction, make_alt_key, AltKey, PathView};
use crate::query::{
    extend_predicates, predicate_views, EdgeId, FunctionalDirection, GraphView, PredicateDef,
    PredicateLocation, PredicateView, QueryGraph, VertexId,
};
use crate::schema::{manual_cardinality, manual_edge_cardinality, EdgeCardinality};
use crate::text::label_views;
use vstd::prelude::*;
use vstd::string::*;

verus! {

/// An edge that stands for a path between two vertices.
#[derive(Debug, Clone)]
pub struct AbstractEdge {
    pub src: VertexId,
    pub dst: VertexId,
    pub functional: FunctionalDirection,
    pub predicates: Vec<PredicateDef>,
    pub original_edge_ids: Vec<EdgeId>,
    pub path_vertices: Vec<VertexId>,
    pub path_str: String,
}

/// What an abstract edge says.
#[verifier::ext_equal]
pub struct AbstractView {
    pub src: VertexId,
    pub dst: VertexId,
    pub functional: FunctionalDirection,
    pub predicates: Seq<PredicateView>,
    pub original_edge_ids: Seq<EdgeId>,
    pub path_vertices: Seq<VertexId>,
    pub path_str: Seq<char>,
}

impl View for AbstractEdge {
    type V = AbstractView;

    open spec fn view(&self) -> AbstractView {
        AbstractView {
            src: self.src,
            dst: self.dst,
            functional: self.functional,
            predicates: predicate_views(self.predicates@),
            original_edge_ids: self.original_edge_ids@,
            path_vertices: self.path_vertices@,
            path_str: self.path_str@,
        }
    }
}

/// What the abstract edges of a list say.
pub open spec fn abstract_views(edges: Seq<AbstractEdge>) -> Seq<AbstractView> {
    edges.map_values(|e: AbstractEdge| e@)
}

/// The predicates on edges, one edge after the other.
pub open spec fn on_edges(graph: GraphView, ids: Seq<EdgeId>) -> Seq<PredicateView>
    decreases ids.len(),
{
    if ids.len() == 0 {
        Seq::empty()
    } else {
        on_edges(graph, ids.drop_last()) + graph.predicates_at(PredicateLocation::Edge(ids.last()))
    }
}

/// The predicates on vertices, one vertex after the other.
pub open spec fn on_vertices(graph: GraphView, ids: Seq<VertexId>) -> Seq<PredicateView>
    decreases ids.len(),
{
    if ids.len() == 0 {
        Seq::empty()
    } else {
        on_vertices(graph, ids.drop_last()) + graph.predicates_at(
            PredicateLocation::Vertex(ids.last()),
        )
    }
}

/// The predicates on a stretch of a route: those on its edges, then those on its vertices.
pub open spec fn on_stretch(graph: GraphView, route: RouteView, start: int, end: int) -> Seq<
    PredicateView,
> {
    on_edges(graph, route.edges.subrange(start, end)) + on_vertices(
        graph,
        route.vertices.subrange(start, end + 1),
    )
}

/// The abstract edge that stands for a stretch of a route.
pub open spec fn standing_for(graph: GraphView, route: RouteView, range: (usize, usize)) -> AbstractView {
    AbstractView {
        src: route.vertices[range.0 as int],
        dst: route.vertices[range.1 as int],
        functional: FunctionalDirection::Neither,
        predicates: on_stretch(graph, route, range.0 as int, range.1 as int),
        original_edge_ids: route.edges.subrange(range.0 as int, range.1 as int),
        path_vertices: route.vertices.subrange(range.0 as int, range.1 + 1),
        path_str: ""@,
    }
}

/// The abstract edges that stand for the stretches of a route.
pub open spec fn all_standing_for(
    graph: GraphView,
    route: RouteView,
    ranges: Seq<(usize, usize)>,
) -> Seq<AbstractView> {
    ranges.map_values(|range: (usize, usize)| standing_for(graph, route, range))
}

impl QueryGraph {
    /// Appends the predicates on an edge.
    fn append_on_edge(&self, out: &mut Vec<PredicateDef>, id: EdgeId)
        requires
            self@.wf(),
        ensures
            predicate_views(final(out)@) == predicate_views(old(out)@) + self@.predicates_at(
                PredicateLocation::Edge(id),
            ),
    {
        match self.get_edge(id) {
            Some(e) => extend_predicates(out, &e.predicates),
            None => {
                assert(predicate_views(out@) =~= predicate_views(out@) + Seq::empty());
            },
        }
    }

    /// Appends the predicates on a vertex.
    fn append_on_vertex(&self, out: &mut Vec<PredicateDef>, id: VertexId)
        requires
            self@.wf(),
        ensures
            predicate_views(final(out)@) == predicate_views(old(out)@) + self@.predicates_at(
                PredicateLocation::Vertex(id),
            ),
    {
        match self.get_vertex(id) {
            Some(v) => extend_predicates(out, &v.predicates),
            None => {
                assert(predicate_views(out@) =~= predicate_views(out@) + Seq::empty());
            },
        }
    }

    /// The predicates on edges.
    pub fn predicates_on_edges(&self, ids: &Vec<EdgeId>) -> (result: Vec<PredicateDef>)
        requires
            self@.wf(),
        ensures
            predicate_views(result@) == on_edges(self@, ids@),
    {
        let mut result: Vec<PredicateDef> = Vec::new();
        let mut i: usize = 0;
        assert(predicate_views(result@) =~= on_edges(self@, ids@.take(0)));
        while i < ids.len()
            invariant
                self@.wf(),
                i <= ids@.len(),
                predicate_views(result@) == on_edges(self@, ids@.take(i as int)),
            decreases ids.len() - i,
        {
            assert(ids@.take(i + 1).drop_last() =~= ids@.take(i as int));
            self.append_on_edge(&mut result, ids[i]);
            i = i + 1;
        }
        assert(ids@.take(i as int) =~= ids@);
        result
    }

    /// Appends the predicates on vertices.
    pub fn append_on_vertices(&self, out: &mut Vec<PredicateDef>, ids: &Vec<VertexId>)
        requires
            self@.wf(),
        ensures
            predicate_views(final(out)@) == predicate_views(old(out)@) + on_vertices(self@, ids@),
    {
        let mut i: usize = 0;
        assert(predicate_views(out@) =~= predicate_views(old(out)@) + on_vertices(
            self@,
            ids@.take(0),
        ));
        while i < ids.len()
            invariant
                self@.wf(),
                i <= ids@.len(),
                predicate_views(out@) == predicate_views(old(out)@) + on_vertices(
                    self@,
                    ids@.take(i as int),
                ),
            decreases ids.len() - i,
        {
            assert(ids@.take(i + 1).drop_last() =~= ids@.take(i as int));
            let ghost before = predicate_views(out@);
            self.append_on_vertex(out, ids[i]);
            assert(predicate_views(out@) =~= predicate_views(old(out)@) + on_vertices(
                self@,
                ids@.take(i + 1),
            ));
            i = i + 1;
        }
        assert(ids@.take(i as int) =~= ids@);
    }

    /// The abstract edge that stands for a stretch of a path.
    pub fn build_abstract_edge_from_range(
        &self,
        path: &Path,
        start_edge_idx: usize,
        end_edge_idx: usize,
    ) -> (result: AbstractEdge)
        requires
            self@.wf(),
            path.wf(),
            start_edge_idx <= end_edge_idx <= path.edges@.len(),
        ensures
            result@ == standing_for(self@, path@, (start_edge_idx, end_edge_idx)),
    {
        let original_edge_ids: Vec<EdgeId> = ids_between(&path.edges, start_edge_idx, end_edge_idx);
        assert(path.vertices@.len() == path.vertices.len());
        let path_vertices: Vec<VertexId> = ids_between(
            &path.vertices,
            start_edge_idx,
            end_edge_idx + 1,
        );
        let mut predicates: Vec<PredicateDef> = self.predicates_on_edges(&original_edge_ids);
        self.append_on_vertices(&mut predicates, &path_vertices);
        AbstractEdge {
            src: path.vertices[start_edge_idx],
            dst: path.vertices[end_edge_idx],
            functional: FunctionalDirection::Neither,
            predicates,
            original_edge_ids,
            path_vertices,
            path_str: "".to_owned(),
        }
    }

    /// The abstract edges that stand for the stretches of a path.
    pub fn build_abstract_edges_from_ranges(&self, path: &Path, ranges: &Vec<(usize, usize)>) -> (result:
        Vec<AbstractEdge>)
        requires
            self@.wf(),
            path.wf(),
            forall|i: int|
                #![trigger ranges@[i]]
                0 <= i < ranges@.len() ==> ranges@[i].0 <= ranges@[i].1 <= path.edges@.len(),
        ensures
            abstract_views(result@) == all_standing_for(self@, path@, ranges@),
    {
        let mut result: Vec<AbstractEdge> = Vec::new();
        let mut i: usize = 0;
        while i < ranges.len()
            invariant
                self@.wf(),
                path.wf(),
                forall|j: int|
                    #![trigger ranges@[j]]
                    0 <= j < ranges@.len() ==> ranges@[j].0 <= ranges@[j].1 <= path.edges@.len(),
                i <= ranges@.len(),
                result@.len() == i,
                forall|j: int|
                    #![trigger result@[j]]
                    0 <= j < i ==> result@[j]@ == standing_for(self@, path@, ranges@[j]),
            decreases ranges.len() - i,
        {
            let (start, end) = ranges[i];
            result.push(self.build_abstract_edge_from_range(path, start, end));
            i = i + 1;
        }
        assert(abstract_views(result@) =~= all_standing_for(self@, path@, ranges@));
        result
    }
}

/// The ids from one position up to another.
pub fn ids_between(ids: &Vec<u64>, start: usize, end: usize) -> (result: Vec<u64>)
    requires
        start <= end <= ids@.len(),
    ensures
        result@ == ids@.subrange(start as int, end as int),
{
    let mut result: Vec<u64> = Vec::new();
    let mut i: usize = start;
    while i < end
        invariant
            start <= i <= end <= ids@.len(),
            result@ == ids@.subrange(start as int, i as int),
        decreases end - i,
    {
        result.push(ids[i]);
        assert(result@ =~= ids@.subrange(start as int, i + 1));
        i = i + 1;
    }
    result
}

/// The sum of sizes.
pub open spec fn total(sizes: Seq<nat>) -> nat
    decreases sizes.len(),
{
    if sizes.len() == 0 {
        0
    } else {
        total(sizes.drop_last()) + sizes.last()
    }
}

/// Stretches of the given sizes, one after the other.
pub open spec fn laid_out(sizes: Seq<nat>) -> Seq<(usize, usize)> {
    Seq::new(
        sizes.len(),
        |i: int| (total(sizes.take(i)) as usize, total(sizes.take(i + 1)) as usize),
    )
}

/// Into how many stretches of at most `k` edges a path of `l` edges is cut.
pub open spec fn pieces(l: nat, k: nat) -> nat {
    ((l + k - 1) / (k as int)) as nat
}

/// How many edges are left for one stretch where all others have `k`.
pub open spec fn left_over(l: nat, k: nat) -> nat {
    (l - (pieces(l, k) - 1) * k) as nat
}

/// The sizes of the stretches of a path: `k` each, but for the one at a position, which has what
/// is left.
pub open spec fn sizes(l: nat, k: nat, short: int) -> Seq<nat> {
    Seq::new(
        pieces(l, k),
        |i: int|
            if i == short {
                left_over(l, k)
            } else {
                k
            },
    )
}

/// The stretches of a path, with the short one at a position.
pub open spec fn split(l: nat, k: nat, short: int) -> Seq<(usize, usize)> {
    laid_out(sizes(l, k, short))
}

/// A path of some edges is cut into at least one stretch, and between one and `k` edges are left
/// for the short one.
proof fn lemma_pieces(l: nat, k: nat)
    requires
        l > 0,
        k > 0,
    ensures
        pieces(l, k) > 0,
        0 < left_over(l, k) <= k,
        left_over(l, k) + (pieces(l, k) - 1) * k == l,
        l % k == 0 ==> left_over(l, k) == k,
{
    let n = pieces(l, k) as int;
    vstd::arithmetic::div_mod::lemma_fundamental_div_mod(l + k - 1, k as int);
    let r = (l + k - 1) % (k as int);
    assert(k * n == n * k) by (nonlinear_arith);
    assert(n * k == l + k - 1 - r);
    assert((n - 1) * k == n * k - k) by (nonlinear_arith);
    assert(0 <= r < k);
    assert(n > 0) by (nonlinear_arith)
        requires
            n * k == l + k - 1 - r,
            r < k,
            l > 0,
            k > 0,
    ;
    if l % k == 0 {
        vstd::arithmetic::div_mod::lemma_fundamental_div_mod(l as int, k as int);
        let q = l as int / (k as int);
        assert(l == k * q);
        assert(q == n) by (nonlinear_arith)
            requires
                l == k * q,
                n * k == l + k - 1 - r,
                0 <= r < k,
                k > 0,
        ;
        assert(k * q == q * k) by (nonlinear_arith);
        assert((q - 1) * k == q * k - k) by (nonlinear_arith);
    }
}

/// Before the short stretch, and after it, each stretch adds `k` edges.
proof fn lemma_total_sizes(l: nat, k: nat, short: int, i: int)
    requires
        l > 0,
        k > 0,
        0 <= short < pieces(l, k),
        0 <= i <= pieces(l, k),
    ensures
        i <= short ==> total(sizes(l, k, short).take(i)) == i * k,
        i > short ==> total(sizes(l, k, short).take(i)) == (i - 1) * k + left_over(l, k),
        total(sizes(l, k, short).take(i)) <= l,
    decreases i,
{
    lemma_pieces(l, k);
    let all = sizes(l, k, short);
    if i > 0 {
        lemma_total_sizes(l, k, short, i - 1);
        assert(all.take(i).drop_last() =~= all.take(i - 1));
        assert((i - 1) * k + k == i * k) by (nonlinear_arith);
        if i - 1 > short {
            assert((i - 2) * k + k == (i - 1) * k) by (nonlinear_arith);
        }
    } else {
        assert(all.take(0) =~= Seq::empty());
        assert(0 * k == 0) by (nonlinear_arith);
    }
    let n = pieces(l, k);
    if i <= short {
        assert(i * k <= (n - 1) * k) by (nonlinear_arith)
            requires
                i <= n - 1,
                k > 0,
        ;
    } else {
        assert((i - 1) * k <= (n - 1) * k) by (nonlinear_arith)
            requires
                i <= n,
                k > 0,
        ;
    }
}

/// Whether stretches lie one after the other, from the start of a path to its end, none of them
/// empty.
pub open spec fn covers(ranges: Seq<(usize, usize)>, l: nat) -> bool {
    &&& ranges.len() == 0 <==> l == 0
    &&& ranges.len() > 0 ==> ranges.first().0 == 0 && ranges.last().1 == l
    &&& forall|i: int| #![trigger ranges[i]] 0 <= i < ranges.len() ==> ranges[i].0 < ranges[i].1
    &&& forall|i: int|
        #![trigger ranges[i]]
        0 < i < ranges.len() ==> ranges[i - 1].1 == ranges[i].0
}

/// Wherever the short stretch is, the stretches cover the path, and none has more than `k`
/// edges.
pub proof fn splits_cover(l: nat, k: nat, short: int)
    requires
        0 < l <= usize::MAX,
        k > 0,
        0 <= short < pieces(l, k),
    ensures
        covers(split(l, k, short), l),
        forall|i: int|
            #![trigger split(l, k, short)[i]]
            0 <= i < split(l, k, short).len() ==> split(l, k, short)[i].1 - split(l, k, short)[i].0
                <= k,
        split(l, k, short).len() == pieces(l, k),
{
    lemma_pieces(l, k);
    let all = sizes(l, k, short);
    let ranges = split(l, k, short);
    let n = pieces(l, k) as int;
    assert forall|i: int| #![trigger ranges[i]] 0 <= i < n implies {
        &&& ranges[i].0 < ranges[i].1
        &&& ranges[i].1 - ranges[i].0 <= k
        &&& ranges[i].0 == total(all.take(i))
        &&& ranges[i].1 == total(all.take(i + 1))
    } by {
        lemma_total_sizes(l, k, short, i);
        lemma_total_sizes(l, k, short, i + 1);
        assert(all.take(i + 1).drop_last() =~= all.take(i));
    }
    assert(all.take(0) =~= Seq::empty());
    assert(ranges[0].0 == 0);
    lemma_total_sizes(l, k, short, n);
    assert(ranges[n - 1].1 == total(all.take(n)));
    assert((n - 1) * k + left_over(l, k) == l);
}

/// In stretches that cover a path, each lies within the path.
pub proof fn lemma_covers_within(ranges: Seq<(usize, usize)>, l: nat, i: int)
    requires
        covers(ranges, l),
        0 <= i < ranges.len(),
    ensures
        ranges[i].0 < ranges[i].1 <= l,
    decreases ranges.len() - i,
{
    if i < ranges.len() - 1 {
        lemma_covers_within(ranges, l, i + 1);
        assert(ranges[i + 1 - 1].1 == ranges[i + 1].0);
    }
}

/// A number, or the greatest that can be counted to where that is less.
pub open spec fn capped(n: int) -> int {
    if n <= usize::MAX {
        n
    } else {
        usize::MAX as int
    }
}

/// How many predicates there are on the short stretch, where it is at a position; at most what
/// can be counted.
#[verifier::opaque]
pub open spec fn load(graph: GraphView, route: RouteView, k: nat, short: int) -> int {
    let range = split(route.edges.len(), k, short)[short];
    capped(on_stretch(graph, route, range.0 as int, range.1 as int).len() as int)
}

/// Whether a position is where the short stretch of a route belongs: the first one with the
/// fewest predicates on it, or the last one where they are too many to count everywhere.
pub open spec fn is_lightest(graph: GraphView, route: RouteView, k: nat, short: int) -> bool {
    let n = pieces(route.edges.len(), k);
    &&& 0 <= short < n
    &&& if load(graph, route, k, short) < usize::MAX {
        forall|p: int|
            #![trigger load(graph, route, k, p)]
            0 <= p < n ==> load(graph, route, k, short) <= load(graph, route, k, p) && (p < short
                ==> load(graph, route, k, short) < load(graph, route, k, p))
    } else {
        short == n - 1 && forall|p: int|
            #![trigger load(graph, route, k, p)]
            0 <= p < n ==> load(graph, route, k, p) >= usize::MAX
    }
}

/// The stretches into which a route is cut: even ones where they fit, and otherwise one short
/// stretch where the fewest predicates are.
pub open spec fn is_cut(
    graph: GraphView,
    route: RouteView,
    k: nat,
    ranges: Seq<(usize, usize)>,
) -> bool {
    let l = route.edges.len();
    if l == 0 {
        ranges.len() == 0
    } else if l % k == 0 {
        ranges == split(l, k, pieces(l, k) - 1)
    } else {
        exists|short: int| #[trigger] is_lightest(graph, route, k, short) && ranges == split(l, k, short)
    }
}

/// There is one way to cut a route.
pub proof fn cuts_are_unique(
    graph: GraphView,
    route: RouteView,
    k: nat,
    a: Seq<(usize, usize)>,
    b: Seq<(usize, usize)>,
)
    requires
        is_cut(graph, route, k, a),
        is_cut(graph, route, k, b),
    ensures
        a == b,
{
    let l = route.edges.len();
    if l > 0 && l % k != 0 {
        let p = choose|short: int| #[trigger]
            is_lightest(graph, route, k, short) && a == split(l, k, short);
        let q = choose|short: int| #[trigger]
            is_lightest(graph, route, k, short) && b == split(l, k, short);
        assert(load(graph, route, k, p) == load(graph, route, k, p));
        assert(load(graph, route, k, q) == load(graph, route, k, q));
        assert(p == q);
    } else {
        assert(a =~= b);
    }
}

proof fn lemma_load_of_edges(graph: GraphView, ids: Seq<EdgeId>, i: int)
    requires
        0 <= i < ids.len(),
    ensures
        on_edges(graph, ids.take(i + 1)).len() == on_edges(graph, ids.take(i)).len()
            + graph.predicates_at(PredicateLocation::Edge(ids[i])).len(),
{
    assert(ids.take(i + 1).drop_last() =~= ids.take(i));
}

proof fn lemma_load_of_vertices(graph: GraphView, ids: Seq<VertexId>, i: int)
    requires
        0 <= i < ids.len(),
    ensures
        on_vertices(graph, ids.take(i + 1)).len() == on_vertices(graph, ids.take(i)).len()
            + graph.predicates_at(PredicateLocation::Vertex(ids[i])).len(),
{
    assert(ids.take(i + 1).drop_last() =~= ids.take(i));
}

fn capped_sum(a: usize, b: usize) -> (result: usize)
    ensures
        result == capped(a + b),
{
    if b > usize::MAX - a {
        usize::MAX
    } else {
        a + b
    }
}

impl QueryGraph {
    /// How many predicates there are on a stretch of a path; at most what can be counted.
    pub fn count_predicates_in_range(
        &self,
        path: &Path,
        start_edge_idx: usize,
        end_edge_idx: usize,
    ) -> (result: usize)
        requires
            self@.wf(),
            path.wf(),
            start_edge_idx <= end_edge_idx <= path.edges@.len(),
        ensures
            result == capped(
                on_stretch(self@, path@, start_edge_idx as int, end_edge_idx as int).len() as int,
            ),
    {
        let ghost graph = self@;
        let ghost ids = path.edges@.subrange(start_edge_idx as int, end_edge_idx as int);
        let ghost vertices = path.vertices@.subrange(start_edge_idx as int, end_edge_idx + 1);
        let mut count: usize = 0;
        let mut i: usize = start_edge_idx;
        assert(on_edges(graph, ids.take(0)).len() == 0);
        while i < end_edge_idx
            invariant
                graph == self@,
                graph.wf(),
                ids == path.edges@.subrange(start_edge_idx as int, end_edge_idx as int),
                start_edge_idx <= i <= end_edge_idx <= path.edges@.len(),
                count == capped(on_edges(graph, ids.take(i - start_edge_idx)).len() as int),
            decreases end_edge_idx - i,
        {
            proof {
                lemma_load_of_edges(graph, ids, i - start_edge_idx);
            }
            match self.get_edge(path.edges[i]) {
                Some(e) => {
                    assert(predicate_views(e.predicates@).len() == e.predicates@.len());
                    count = capped_sum(count, e.predicates.len());
                },
                None => {},
            }
            i = i + 1;
        }
        assert(ids.take(i - start_edge_idx) =~= ids);
        assert(path.vertices@.len() == path.vertices.len());
        let mut j: usize = start_edge_idx;
        assert(on_vertices(graph, vertices.take(0)).len() == 0);
        while j <= end_edge_idx
            invariant
                graph == self@,
                graph.wf(),
                path.wf(),
                path.vertices@.len() == path.vertices.len(),
                ids == path.edges@.subrange(start_edge_idx as int, end_edge_idx as int),
                vertices == path.vertices@.subrange(start_edge_idx as int, end_edge_idx + 1),
                start_edge_idx <= end_edge_idx <= path.edges@.len(),
                start_edge_idx <= j <= end_edge_idx + 1,
                count == capped(
                    (on_edges(graph, ids).len() + on_vertices(
                        graph,
                        vertices.take(j - start_edge_idx),
                    ).len()) as int,
                ),
            decreases end_edge_idx + 1 - j,
        {
            proof {
                lemma_load_of_vertices(graph, vertices, j - start_edge_idx);
            }
            match self.get_vertex(path.vertices[j]) {
                Some(v) => {
                    assert(predicate_views(v.predicates@).len() == v.predicates@.len());
                    count = capped_sum(count, v.predicates.len());
                },
                None => {},
            }
            j = j + 1;
        }
        assert(vertices.take(j - start_edge_idx) =~= vertices);
        count
    }
}

fn count_pieces(l: usize, k: usize) -> (result: usize)
    requires
        l > 0,
        k > 0,
    ensures
        result == pieces(l as nat, k as nat),
{
    let whole: usize = l / k;
    let ghost q = l as int / (k as int);
    let ghost n = pieces(l as nat, k as nat) as int;
    proof {
        lemma_pieces(l as nat, k as nat);
        vstd::arithmetic::div_mod::lemma_fundamental_div_mod(l as int, k as int);
        assert(q * k == k * q) by (nonlinear_arith);
        let s = left_over(l as nat, k as nat) as int;
        let r = l as int % (k as int);
        assert(r == 0 ==> q == n) by (nonlinear_arith)
            requires
                q * k + r == l,
                (n - 1) * k + s == l,
                0 < s <= k,
                0 <= r < k,
        ;
        assert(r > 0 ==> q == n - 1) by (nonlinear_arith)
            requires
                q * k + r == l,
                (n - 1) * k + s == l,
                0 < s <= k,
                0 <= r < k,
        ;
        assert(n <= l) by (nonlinear_arith)
            requires
                (n - 1) * k + s == l,
                0 < s,
                k > 0,
                n > 0,
        ;
    }
    if l % k == 0 {
        whole
    } else {
        whole + 1
    }
}

/// The stretches of a path, with the short one at a position.
fn split_at(l: usize, k: usize, short: usize) -> (result: Vec<(usize, usize)>)
    requires
        l > 0,
        k > 0,
        short < pieces(l as nat, k as nat),
    ensures
        result@ == split(l as nat, k as nat, short as int),
{
    let n: usize = count_pieces(l, k);
    let ghost all = sizes(l as nat, k as nat, short as int);
    let mut result: Vec<(usize, usize)> = Vec::new();
    let mut start: usize = 0;
    let mut i: usize = 0;
    proof {
        lemma_pieces(l as nat, k as nat);
        assert(all.take(0) =~= Seq::empty());
        assert((n - 1) * k <= l) by (nonlinear_arith)
            requires
                left_over(l as nat, k as nat) + (n - 1) * k == l,
        ;
    }
    let left: usize = l - (n - 1) * k;
    while i < n
        invariant
            l > 0,
            k > 0,
            short < n,
            n == pieces(l as nat, k as nat),
            left == left_over(l as nat, k as nat),
            all == sizes(l as nat, k as nat, short as int),
            i <= n,
            start == total(all.take(i as int)),
            result@.len() == i,
            forall|j: int|
                #![trigger result@[j]]
                0 <= j < i ==> result@[j] == split(l as nat, k as nat, short as int)[j],
        decreases n - i,
    {
        proof {
            lemma_total_sizes(l as nat, k as nat, short as int, i as int);
            lemma_total_sizes(l as nat, k as nat, short as int, i + 1);
            assert(all.take(i + 1).drop_last() =~= all.take(i as int));
        }
        let size: usize = if i == short {
            left
        } else {
            k
        };
        let end: usize = start + size;
        result.push((start, end));
        start = end;
        i = i + 1;
    }
    assert(result@ =~= split(l as nat, k as nat, short as int));
    result
}

impl QueryGraph {
    /// How many predicates there are on the short stretch of a path, where it is at a position.
    fn count_on_short(&self, path: &Path, k: usize, short: usize) -> (result: usize)
        requires
            self@.wf(),
            path.wf(),
            k > 0,
            path.edges@.len() > 0,
            short < pieces(path.edges@.len(), k as nat),
        ensures
            result == load(self@, path@, k as nat, short as int),
    {
        let l: usize = path.edges.len();
        proof {
            splits_cover(l as nat, k as nat, short as int);
            lemma_covers_within(split(l as nat, k as nat, short as int), l as nat, short as int);
            reveal(load);
        }
        let ranges: Vec<(usize, usize)> = split_at(l, k, short);
        let (start, end) = ranges[short];
        self.count_predicates_in_range(path, start, end)
    }

    /// The stretches into which a path is cut.
    pub fn abstract_edge_ranges_for_path(&self, path: &Path, k: usize) -> (result: Vec<
        (usize, usize),
    >)
        requires
            self@.wf(),
            path.wf(),
            k > 0,
        ensures
            is_cut(self@, path@, k as nat, result@),
            covers(result@, path.edges@.len()),
    {
        let l: usize = path.edges.len();
        if l == 0 {
            return Vec::new();
        }
        let n: usize = count_pieces(l, k);
        let ghost graph = self@;
        let ghost route = path@;
        proof {
            lemma_pieces(l as nat, k as nat);
        }
        if l % k == 0 {
            proof {
                splits_cover(l as nat, k as nat, n - 1);
            }
            return split_at(l, k, n - 1);
        }
        let mut best: usize = n - 1;
        let mut least: usize = usize::MAX;
        let mut short: usize = 0;
        while short < n
            invariant
                self@.wf(),
                path.wf(),
                graph == self@,
                route == path@,
                k > 0,
                l > 0,
                l == path.edges@.len(),
                n == pieces(l as nat, k as nat),
                short <= n,
                best < n,
                least < usize::MAX ==> least == load(graph, route, k as nat, best as int) && best
                    < short,
                least == usize::MAX ==> best == n - 1,
                forall|p: int|
                    #![trigger load(graph, route, k as nat, p)]
                    0 <= p < short ==> least <= load(graph, route, k as nat, p) && (p < best ==> least
                        < load(graph, route, k as nat, p) || least == usize::MAX),
            decreases n - short,
        {
            let count: usize = self.count_on_short(path, k, short);
            if count < least {
                least = count;
                best = short;
            }
            short = short + 1;
        }
        proof {
            reveal(load);
            assert(is_lightest(graph, route, k as nat, best as int));
            splits_cover(l as nat, k as nat, best as int);
        }
        split_at(l, k, best)
    }

    /// The abstract edges into which a path is cut.
    pub fn build_abstract_edges_for_path(&self, path: &Path, k: usize) -> (result: Vec<AbstractEdge>)
        requires
            self@.wf(),
            path.wf(),
            k > 0,
        ensures
            exists|ranges: Seq<(usize, usize)>|
                #![trigger is_cut(self@, path@, k as nat, ranges)]
                is_cut(self@, path@, k as nat, ranges) && covers(ranges, path.edges@.len())
                    && abstract_views(result@) == all_standing_for(self@, path@, ranges),
    {
        let ranges: Vec<(usize, usize)> = self.abstract_edge_ranges_for_path(path, k);
        proof {
            assert forall|i: int| #![trigger ranges@[i]] 0 <= i < ranges@.len() implies ranges@[i].0
                <= ranges@[i].1 <= path.edges@.len() by {
                lemma_covers_within(ranges@, path.edges@.len(), i);
            }
        }
        self.build_abstract_edges_from_ranges(path, &ranges)
    }
}

/// The ways to cut a path: with the short stretch at each position, or the even one.
pub open spec fn variants(l: nat, k: nat) -> Seq<Seq<(usize, usize)>> {
    if l == 0 {
        seq![Seq::empty()]
    } else if l % k == 0 {
        seq![split(l, k, pieces(l, k) - 1)]
    } else {
        Seq::new(pieces(l, k), |short: int| split(l, k, short))
    }
}

/// The contents of lists of stretches.
pub open spec fn range_lists(lists: Seq<Vec<(usize, usize)>>) -> Seq<Seq<(usize, usize)>> {
    lists.map_values(|ranges: Vec<(usize, usize)>| ranges@)
}

/// Every way to cut a path covers it.
pub proof fn variants_cover(l: nat, k: nat, i: int)
    requires
        l <= usize::MAX,
        k > 0,
        0 <= i < variants(l, k).len(),
    ensures
        covers(variants(l, k)[i], l),
{
    if l > 0 {
        lemma_pieces(l, k);
        if l % k == 0 {
            splits_cover(l, k, pieces(l, k) - 1);
        } else {
            splits_cover(l, k, i);
        }
    }
}

/// The ways to cut a path of `l` edges.
pub fn abstract_edge_range_variants(l: usize, k: usize) -> (result: Vec<Vec<(usize, usize)>>)
    requires
        k > 0,
    ensures
        range_lists(result@) == variants(l as nat, k as nat),
{
    let mut result: Vec<Vec<(usize, usize)>> = Vec::new();
    if l == 0 {
        result.push(Vec::new());
        assert(range_lists(result@) =~= variants(0, k as nat));
        return result;
    }
    let n: usize = count_pieces(l, k);
    proof {
        lemma_pieces(l as nat, k as nat);
    }
    if l % k == 0 {
        result.push(split_at(l, k, n - 1));
        assert(range_lists(result@) =~= variants(l as nat, k as nat));
        return result;
    }
    let mut short: usize = 0;
    while short < n
        invariant
            l > 0,
            k > 0,
            n == pieces(l as nat, k as nat),
            short <= n,
            result@.len() == short,
            forall|j: int|
                #![trigger result@[j]]
                0 <= j < short ==> result@[j]@ == split(l as nat, k as nat, j),
        decreases n - short,
    {
        result.push(split_at(l, k, short));
        short = short + 1;
    }
    assert(range_lists(result@) =~= variants(l as nat, k as nat));
    result
}

impl QueryGraph {
    /// The ways to cut a path.
    pub fn abstract_edge_range_variants_for_path(&self, path: &Path, k: usize) -> (result: Vec<
        Vec<(usize, usize)>,
    >)
        requires
            k > 0,
        ensures
            range_lists(result@) == variants(path.edges@.len(), k as nat),
    {
        abstract_edge_range_variants(path.edges.len(), k)
    }
}

/// The cardinality of an edge type: what the catalog knows, or else what the schema defines.
pub open spec fn cardinality_of(catalog: DegreeSeqGraph, label: Seq<char>) -> EdgeCardinality {
    match listed_cardinality(catalog.edge_cardinalities@, label) {
        Some(cardinality) => cardinality,
        None => manual_cardinality(label),
    }
}

/// Whether an edge determines one of its ends from the other.
pub open spec fn is_functional(graph: GraphView, catalog: DegreeSeqGraph, id: EdgeId) -> bool {
    match graph.edge(id) {
        Some(e) => cardinality_of(catalog, e.label) != EdgeCardinality::ManyToMany,
        None => false,
    }
}

/// Whether a route may be left whole at a cut: no predicate is on the vertex there, and one of
/// the edges that meet there determines an end.
pub open spec fn may_heal(
    graph: GraphView,
    catalog: DegreeSeqGraph,
    route: RouteView,
    cut: int,
) -> bool {
    &&& 0 < cut < route.edges.len()
    &&& graph.predicates_at(PredicateLocation::Vertex(route.vertices[cut])).len() == 0
    &&& is_functional(graph, catalog, route.edges[cut - 1]) || is_functional(
        graph,
        catalog,
        route.edges[cut],
    )
}

/// The labels of the vertices that are in the graph.
pub open spec fn vertex_labels(graph: GraphView, ids: Seq<VertexId>) -> Seq<Seq<char>>
    decreases ids.len(),
{
    if ids.len() == 0 {
        Seq::empty()
    } else {
        let before = vertex_labels(graph, ids.drop_last());
        match graph.vertex(ids.last()) {
            Some(v) => before.push(v.label),
            None => before,
        }
    }
}

/// The labels of the edges that are in the graph.
pub open spec fn edge_labels(graph: GraphView, ids: Seq<EdgeId>) -> Seq<Seq<char>>
    decreases ids.len(),
{
    if ids.len() == 0 {
        Seq::empty()
    } else {
        let before = edge_labels(graph, ids.drop_last());
        match graph.edge(ids.last()) {
            Some(e) => before.push(e.label),
            None => before,
        }
    }
}

/// The labels along a stretch of a route.
pub open spec fn labels_along(graph: GraphView, route: RouteView, start: int, end: int) -> PathView {
    PathView {
        vs: vertex_labels(graph, route.vertices.subrange(start, end + 1)),
        es: edge_labels(graph, route.edges.subrange(start, end)),
    }
}

/// Whether the catalog has the degrees at both ends of a stretch of a route.
pub open spec fn is_catalogued(
    graph: GraphView,
    catalog: DegreeSeqGraph,
    route: RouteView,
    start: int,
    end: int,
) -> bool {
    let labels = labels_along(graph, route, start, end);
    &&& 0 <= start < end <= route.edges.len()
    &&& labels.is_path()
    &&& catalog.has_path(
        first_direction(labels.interleaved()),
        labels.vs.first(),
        labels.vs.last(),
    )
}

impl QueryGraph {
    /// Whether an edge determines one of its ends from the other.
    pub fn edge_is_functional(&self, edge_id: EdgeId, catalog: &DegreeSeqGraph) -> (result: bool)
        requires
            self@.wf(),
        ensures
            result == is_functional(self@, *catalog, edge_id),
    {
        match self.get_edge(edge_id) {
            Some(e) => {
                let cardinality = match catalog.edge_cardinality(e.label.as_str()) {
                    Some(cardinality) => cardinality,
                    None => manual_edge_cardinality(e.label.as_str()),
                };
                matches!(cardinality, EdgeCardinality::ManyToOne | EdgeCardinality::OneToMany)
            },
            None => false,
        }
    }

    /// Whether a path may be left whole at a cut. Where that is not wanted at all, it may not.
    pub fn can_contract_path_cut(
        &self,
        path: &Path,
        cut_edge_idx: usize,
        catalog: &DegreeSeqGraph,
        refine: bool,
    ) -> (result: bool)
        requires
            self@.wf(),
            path.wf(),
        ensures
            result == (refine && may_heal(self@, *catalog, path@, cut_edge_idx as int)),
    {
        if !refine {
            return false;
        }
        if cut_edge_idx == 0 || cut_edge_idx >= path.edges.len() {
            return false;
        }
        let bare: bool = match self.get_vertex(path.vertices[cut_edge_idx]) {
            Some(v) => {
                assert(predicate_views(v.predicates@).len() == v.predicates@.len());
                v.predicates.len() == 0
            },
            None => true,
        };
        bare && (self.edge_is_functional(path.edges[cut_edge_idx - 1], catalog)
            || self.edge_is_functional(path.edges[cut_edge_idx], catalog))
    }

    /// The labels of the vertices of the query at some places of a list.
    pub fn labels_of_vertices(&self, ids: &Vec<VertexId>, start: usize, end: usize) -> (result: Vec<
        String,
    >)
        requires
            self@.wf(),
            start <= end <= ids@.len(),
        ensures
            label_views(result@) == vertex_labels(
                self@,
                ids@.subrange(start as int, end as int),
            ),
    {
        let mut result: Vec<String> = Vec::new();
        let ghost all = ids@.subrange(start as int, end as int);
        let mut i: usize = start;
        assert(label_views(result@) =~= vertex_labels(self@, all.take(0)));
        while i < end
            invariant
                self@.wf(),
                start <= i <= end <= ids@.len(),
                all == ids@.subrange(start as int, end as int),
                label_views(result@) == vertex_labels(self@, all.take(i - start)),
            decreases end - i,
        {
            assert(all.take(i - start + 1).drop_last() =~= all.take(i - start));
            if let Some(v) = self.get_vertex(ids[i]) {
                let ghost before = result@;
                result.push(v.label.clone());
                assert(label_views(result@) =~= label_views(before).push(v.label@));
            }
            i = i + 1;
        }
        assert(all.take(i - start) =~= all);
        result
    }

    /// The labels of the edges of the query at some places of a list.
    pub fn labels_of_edges(&self, ids: &Vec<EdgeId>, start: usize, end: usize) -> (result: Vec<String>)
        requires
            self@.wf(),
            start <= end <= ids@.len(),
        ensures
            label_views(result@) == edge_labels(self@, ids@.subrange(start as int, end as int)),
    {
        let mut result: Vec<String> = Vec::new();
        let ghost all = ids@.subrange(start as int, end as int);
        let mut i: usize = start;
        assert(label_views(result@) =~= edge_labels(self@, all.take(0)));
        while i < end
            invariant
                self@.wf(),
                start <= i <= end <= ids@.len(),
                all == ids@.subrange(start as int, end as int),
                label_views(result@) == edge_labels(self@, all.take(i - start)),
            decreases end - i,
        {
            assert(all.take(i - start + 1).drop_last() =~= all.take(i - start));
            if let Some(e) = self.get_edge(ids[i]) {
                let ghost before = result@;
                result.push(e.label.clone());
                assert(label_views(result@) =~= label_views(before).push(e.label@));
            }
            i = i + 1;
        }
        assert(all.take(i - start) =~= all);
        result
    }

    /// Whether the catalog has the degrees at both ends of a stretch of a path.
    pub fn path_slice_has_catalog(
        &self,
        path: &Path,
        start_edge_idx: usize,
        end_edge_idx: usize,
        catalog: &DegreeSeqGraph,
    ) -> (result: bool)
        requires
            self@.wf(),
            path.wf(),
        ensures
            result == is_catalogued(
                self@,
                *catalog,
                path@,
                start_edge_idx as int,
                end_edge_idx as int,
            ),
    {
        if start_edge_idx >= end_edge_idx || end_edge_idx > path.edges.len() {
            return false;
        }
        assert(path.vertices@.len() == path.vertices.len());
        let nodes: Vec<String> = self.labels_of_vertices(
            &path.vertices,
            start_edge_idx,
            end_edge_idx + 1,
        );
        let edges: Vec<String> = self.labels_of_edges(&path.edges, start_edge_idx, end_edge_idx);
        assert(label_views(nodes@).len() == nodes@.len());
        assert(label_views(edges@).len() == edges@.len());
        if edges.len() == usize::MAX || nodes.len() != edges.len() + 1 {
            return false;
        }
        let key: AltKey = make_alt_key(&nodes, &edges);
        let first: &String = &nodes[0];
        let last: &String = &nodes[nodes.len() - 1];
        assert(label_views(nodes@).first() == first@);
        assert(label_views(nodes@).last() == last@);
        catalog.path_has_materialized_endpoint_pair(&key, first.as_str(), last.as_str())
    }
}

/// Whether two neighboring stretches may be joined.
pub open spec fn may_join(
    graph: GraphView,
    catalog: DegreeSeqGraph,
    refine: bool,
    route: RouteView,
    ranges: Seq<(usize, usize)>,
    i: int,
) -> bool {
    &&& 0 <= i < ranges.len() - 1
    &&& refine
    &&& may_heal(graph, catalog, route, ranges[i].1 as int)
    &&& is_catalogued(graph, catalog, route, ranges[i].0 as int, ranges[i + 1].1 as int)
}

/// Whether two neighboring stretches are the first that may be joined.
pub open spec fn joins_first(
    graph: GraphView,
    catalog: DegreeSeqGraph,
    refine: bool,
    route: RouteView,
    ranges: Seq<(usize, usize)>,
    i: int,
) -> bool {
    &&& may_join(graph, catalog, refine, route, ranges, i)
    &&& forall|j: int| 0 <= j < i ==> !may_join(graph, catalog, refine, route, ranges, j)
}

/// The stretches with two neighboring ones joined.
pub open spec fn joined(ranges: Seq<(usize, usize)>, i: int) -> Seq<(usize, usize)> {
    ranges.update(i, (ranges[i].0, ranges[i + 1].1)).remove(i + 1)
}

/// The stretches after the first two that may be joined have been, again and again, until no
/// two may be.
pub open spec fn all_joined(
    graph: GraphView,
    catalog: DegreeSeqGraph,
    refine: bool,
    route: RouteView,
    ranges: Seq<(usize, usize)>,
) -> Seq<(usize, usize)>
    decreases ranges.len(),
{
    if exists|i: int| joins_first(graph, catalog, refine, route, ranges, i) {
        let i = choose|i: int| joins_first(graph, catalog, refine, route, ranges, i);
        all_joined(graph, catalog, refine, route, joined(ranges, i))
    } else {
        ranges
    }
}

/// Joining two stretches leaves the path covered.
proof fn lemma_joined_covers(ranges: Seq<(usize, usize)>, i: int, l: nat)
    requires
        covers(ranges, l),
        0 <= i < ranges.len() - 1,
    ensures
        covers(joined(ranges, i), l),
        joined(ranges, i).len() == ranges.len() - 1,
{
    let after = joined(ranges, i);
    assert forall|j: int| #![trigger after[j]] 0 <= j < after.len() implies after[j] == (if j < i {
        ranges[j]
    } else if j == i {
        (ranges[i].0, ranges[i + 1].1)
    } else {
        ranges[j + 1]
    }) by {}
    assert(ranges[i + 1 - 1].1 == ranges[i + 1].0);
    assert forall|j: int| #![trigger after[j]] 0 < j < after.len() implies after[j - 1].1
        == after[j].0 by {
        assert(after[j - 1] == after[j - 1]);
        if j <= i {
            assert(ranges[j - 1].1 == ranges[j].0);
        } else {
            assert(ranges[j + 1 - 1].1 == ranges[j + 1].0);
        }
    }
    assert(after.first() == after[0]);
    assert(after.last() == after[after.len() - 1]);
}

/// After all joining the stretches still cover the path, and no two may be joined.
pub proof fn joining_covers(
    graph: GraphView,
    catalog: DegreeSeqGraph,
    refine: bool,
    route: RouteView,
    ranges: Seq<(usize, usize)>,
    l: nat,
)
    requires
        covers(ranges, l),
    ensures
        covers(all_joined(graph, catalog, refine, route, ranges), l),
        forall|i: int|
            !may_join(
                graph,
                catalog,
                refine,
                route,
                all_joined(graph, catalog, refine, route, ranges),
                i,
            ),
    decreases ranges.len(),
{
    if exists|i: int| joins_first(graph, catalog, refine, route, ranges, i) {
        let i = choose|i: int| joins_first(graph, catalog, refine, route, ranges, i);
        lemma_joined_covers(ranges, i, l);
        joining_covers(graph, catalog, refine, route, joined(ranges, i), l);
    } else {
        assert forall|i: int| !may_join(graph, catalog, refine, route, ranges, i) by {
            if may_join(graph, catalog, refine, route, ranges, i) {
                lemma_first_join(graph, catalog, refine, route, ranges, i);
            }
        }
    }
}

/// Where two stretches may be joined, there are two that come first.
proof fn lemma_first_join(
    graph: GraphView,
    catalog: DegreeSeqGraph,
    refine: bool,
    route: RouteView,
    ranges: Seq<(usize, usize)>,
    i: int,
)
    requires
        may_join(graph, catalog, refine, route, ranges, i),
    ensures
        exists|j: int| joins_first(graph, catalog, refine, route, ranges, j),
    decreases i,
{
    if exists|j: int| 0 <= j < i && may_join(graph, catalog, refine, route, ranges, j) {
        let j = choose|j: int|
            0 <= j < i && may_join(graph, catalog, refine, route, ranges, j);
        lemma_first_join(graph, catalog, refine, route, ranges, j);
    } else {
        assert(joins_first(graph, catalog, refine, route, ranges, i));
    }
}

proof fn lemma_join_step(
    graph: GraphView,
    catalog: DegreeSeqGraph,
    refine: bool,
    route: RouteView,
    ranges: Seq<(usize, usize)>,
    i: int,
)
    requires
        joins_first(graph, catalog, refine, route, ranges, i),
    ensures
        all_joined(graph, catalog, refine, route, ranges) == all_joined(
            graph,
            catalog,
            refine,
            route,
            joined(ranges, i),
        ),
        forall|j: int|
            0 <= j < i - 1 ==> !may_join(graph, catalog, refine, route, joined(ranges, i), j),
{
    let k = choose|k: int| joins_first(graph, catalog, refine, route, ranges, k);
    assert(joins_first(graph, catalog, refine, route, ranges, k));
    assert(k == i) by {
        if k < i {
            assert(!may_join(graph, catalog, refine, route, ranges, k));
        }
        if i < k {
            assert(!may_join(graph, catalog, refine, route, ranges, i));
        }
    }
    assert forall|j: int| 0 <= j < i - 1 implies !may_join(
        graph,
        catalog,
        refine,
        route,
        joined(ranges, i),
        j,
    ) by {
        assert(joined(ranges, i)[j] == ranges[j]);
        assert(joined(ranges, i)[j + 1] == ranges[j + 1]);
        assert(!may_join(graph, catalog, refine, route, ranges, j));
    }
}

impl QueryGraph {
    /// Joins stretches of a path as long as two may be joined.
    fn join_ranges(
        &self,
        path: &Path,
        ranges: Vec<(usize, usize)>,
        catalog: &DegreeSeqGraph,
        refine: bool,
    ) -> (result: Vec<(usize, usize)>)
        requires
            self@.wf(),
            path.wf(),
        ensures
            result@ == all_joined(self@, *catalog, refine, path@, ranges@),
    {
        let ghost graph = self@;
        let ghost route = path@;
        let ghost begun = ranges@;
        let mut ranges = ranges;
        let mut i: usize = 0;
        while i < ranges.len() && ranges.len() - i > 1
            invariant
                self@.wf(),
                path.wf(),
                graph == self@,
                route == path@,
                i <= ranges@.len(),
                all_joined(graph, *catalog, refine, route, begun) == all_joined(
                    graph,
                    *catalog,
                    refine,
                    route,
                    ranges@,
                ),
                forall|j: int|
                    0 <= j < i ==> !may_join(graph, *catalog, refine, route, ranges@, j),
            decreases 2 * ranges@.len() - i,
        {
            let cut: usize = ranges[i].1;
            let start: usize = ranges[i].0;
            let end: usize = ranges[i + 1].1;
            let ghost before = ranges@;
            if self.can_contract_path_cut(path, cut, catalog, refine)
                && self.path_slice_has_catalog(path, start, end, catalog) {
                proof {
                    assert(may_join(graph, *catalog, refine, route, before, i as int));
                    lemma_join_step(graph, *catalog, refine, route, before, i as int);
                }
                ranges.set(i, (start, end));
                ranges.remove(i + 1);
                assert(ranges@ =~= joined(before, i as int));
                if i > 0 {
                    i = i - 1;
                }
            } else {
                assert(!may_join(graph, *catalog, refine, route, before, i as int));
                i = i + 1;
            }
        }
        proof {
            assert forall|j: int| !joins_first(graph, *catalog, refine, route, ranges@, j) by {
                if joins_first(graph, *catalog, refine, route, ranges@, j) {
                    assert(may_join(graph, *catalog, refine, route, ranges@, j));
                }
            }
        }
        ranges
    }
}

/// The ways to cut a path, without those that occur before.
pub open spec fn each_once(lists: Seq<Seq<(usize, usize)>>) -> Seq<Seq<(usize, usize)>>
    decreases lists.len(),
{
    if lists.len() == 0 {
        lists
    } else {
        let before = each_once(lists.drop_last());
        if before.contains(lists.last()) {
            before
        } else {
            before.push(lists.last())
        }
    }
}

/// The candidate ways to cut a route: the one chosen for it, with stretches joined, and then the
/// others.
pub open spec fn candidate_cuts(
    graph: GraphView,
    catalog: DegreeSeqGraph,
    refine: bool,
    route: RouteView,
    k: nat,
    chosen: Seq<(usize, usize)>,
) -> Seq<Seq<(usize, usize)>> {
    each_once(
        seq![all_joined(graph, catalog, refine, route, chosen)] + variants(route.edges.len(), k),
    )
}

/// What the abstract edges of lists say.
pub open spec fn abstract_lists(lists: Seq<Vec<AbstractEdge>>) -> Seq<Seq<AbstractView>> {
    lists.map_values(|edges: Vec<AbstractEdge>| abstract_views(edges@))
}

/// Every way that is kept is one of those given.
proof fn lemma_each_once(lists: Seq<Seq<(usize, usize)>>, ranges: Seq<(usize, usize)>)
    ensures
        each_once(lists).contains(ranges) <==> lists.contains(ranges),
    decreases lists.len(),
{
    if lists.len() > 0 {
        let head = lists.drop_last();
        let before = each_once(head);
        lemma_each_once(head, ranges);
        lemma_each_once(head, lists.last());
        if lists.contains(ranges) {
            let i = choose|i: int| 0 <= i < lists.len() && lists[i] == ranges;
            if i < head.len() {
                assert(head[i] == ranges);
                let j = choose|j: int| 0 <= j < before.len() && before[j] == ranges;
                assert(each_once(lists)[j] == ranges);
            } else if !before.contains(lists.last()) {
                assert(each_once(lists)[before.len() as int] == ranges);
            }
        }
        if each_once(lists).contains(ranges) {
            let i = choose|i: int| 0 <= i < each_once(lists).len() && each_once(lists)[i] == ranges;
            if i < before.len() {
                assert(before[i] == ranges);
                let j = choose|j: int| 0 <= j < head.len() && head[j] == ranges;
                assert(lists[j] == ranges);
            } else {
                assert(lists[lists.len() - 1] == ranges);
            }
        }
    }
}

/// Every candidate way to cut a route covers it.
pub proof fn candidates_cover(
    graph: GraphView,
    catalog: DegreeSeqGraph,
    refine: bool,
    route: RouteView,
    k: nat,
    chosen: Seq<(usize, usize)>,
    i: int,
)
    requires
        route.edges.len() <= usize::MAX,
        k > 0,
        covers(chosen, route.edges.len()),
        0 <= i < candidate_cuts(graph, catalog, refine, route, k, chosen).len(),
    ensures
        covers(
            candidate_cuts(graph, catalog, refine, route, k, chosen)[i],
            route.edges.len(),
        ),
{
    let l = route.edges.len();
    let all = seq![all_joined(graph, catalog, refine, route, chosen)] + variants(l, k);
    let ranges = each_once(all)[i];
    lemma_each_once(all, ranges);
    let j = choose|j: int| 0 <= j < all.len() && all[j] == ranges;
    if j == 0 {
        joining_covers(graph, catalog, refine, route, chosen, l);
    } else {
        assert(ranges == variants(l, k)[j - 1]);
        variants_cover(l, k, j - 1);
    }
}

fn same_ranges(a: &Vec<(usize, usize)>, b: &Vec<(usize, usize)>) -> (result: bool)
    ensures
        result == (a@ == b@),
{
    if a.len() != b.len() {
        return false;
    }
    let mut i: usize = 0;
    while i < a.len()
        invariant
            a@.len() == b@.len(),
            i <= a@.len(),
            forall|j: int| 0 <= j < i ==> a@[j] == b@[j],
        decreases a.len() - i,
    {
        if a[i].0 != b[i].0 || a[i].1 != b[i].1 {
            return false;
        }
        i = i + 1;
    }
    assert(a@ =~= b@);
    true
}

/// Adds a way to cut a path, unless it is listed.
fn add_ranges(lists: &mut Vec<Vec<(usize, usize)>>, ranges: Vec<(usize, usize)>)
    ensures
        range_lists(final(lists)@) == (if range_lists(old(lists)@).contains(ranges@) {
            range_lists(old(lists)@)
        } else {
            range_lists(old(lists)@).push(ranges@)
        }),
{
    let ghost all = range_lists(lists@);
    let mut i: usize = 0;
    while i < lists.len()
        invariant
            lists@ == old(lists)@,
            all == range_lists(lists@),
            i <= lists@.len(),
            forall|j: int| 0 <= j < i ==> all[j] != ranges@,
        decreases lists.len() - i,
    {
        assert(all[i as int] == lists@[i as int]@);
        if same_ranges(&lists[i], &ranges) {
            assert(all.contains(ranges@));
            return;
        }
        i = i + 1;
    }
    lists.push(ranges);
    assert(range_lists(lists@) =~= all.push(ranges@));
}

impl QueryGraph {
    /// The candidate decompositions of a path into abstract edges.
    pub fn build_abstract_edge_candidates_for_path(
        &self,
        path: &Path,
        k: usize,
        catalog: &DegreeSeqGraph,
        refine: bool,
    ) -> (result: Vec<Vec<AbstractEdge>>)
        requires
            self@.wf(),
            path.wf(),
            k > 0,
        ensures
            exists|chosen: Seq<(usize, usize)>|
                #![trigger is_cut(self@, path@, k as nat, chosen)]
                {
                    &&& is_cut(self@, path@, k as nat, chosen)
                    &&& covers(chosen, path.edges@.len())
                    &&& abstract_lists(result@) == candidate_cuts(
                        self@,
                        *catalog,
                        refine,
                        path@,
                        k as nat,
                        chosen,
                    ).map_values(
                        |ranges: Seq<(usize, usize)>| all_standing_for(self@, path@, ranges),
                    )
                },
    {
        let ghost graph = self@;
        let ghost route = path@;
        let chosen: Vec<(usize, usize)> = self.abstract_edge_ranges_for_path(path, k);
        let ghost begun = chosen@;
        let first: Vec<(usize, usize)> = self.join_ranges(path, chosen, catalog, refine);
        let others: Vec<Vec<(usize, usize)>> = self.abstract_edge_range_variants_for_path(path, k);
        let ghost all = seq![first@] + range_lists(others@);
        let mut lists: Vec<Vec<(usize, usize)>> = Vec::new();
        assert(range_lists(lists@) =~= Seq::empty());
        assert(all.take(1).drop_last() =~= Seq::empty());
        assert(all.take(1).last() == first@);
        reveal_with_fuel(each_once, 2);
        add_ranges(&mut lists, first);
        let count: usize = others.len();
        let mut i: usize = 0;
        for ranges in iter: others
            invariant
                count == others@.len(),
                i == iter.index(),
                iter.seq() == others@,
                all.len() == others@.len() + 1,
                forall|j: int| 0 <= j < others@.len() ==> all[j + 1] == #[trigger] others@[j]@,
                i <= others@.len(),
                range_lists(lists@) == each_once(all.take(i + 1)),
        {
            assert(all.take(i + 2).drop_last() =~= all.take(i + 1));
            assert(all.take(i + 2).last() == ranges@);
            add_ranges(&mut lists, ranges);
            i = i + 1;
        }
        assert(all.take(all.len() as int) =~= all);
        let mut result: Vec<Vec<AbstractEdge>> = Vec::new();
        let mut j: usize = 0;
        while j < lists.len()
            invariant
                self@.wf(),
                path.wf(),
                k > 0,
                graph == self@,
                route == path@,
                route.edges.len() <= usize::MAX,
                covers(begun, route.edges.len()),
                range_lists(lists@) == candidate_cuts(
                    graph,
                    *catalog,
                    refine,
                    route,
                    k as nat,
                    begun,
                ),
                j <= lists@.len(),
                result@.len() == j,
                forall|m: int|
                    #![trigger result@[m]]
                    0 <= m < j ==> abstract_views(result@[m]@) == all_standing_for(
                        graph,
                        route,
                        lists@[m]@,
                    ),
            decreases lists.len() - j,
        {
            proof {
                candidates_cover(graph, *catalog, refine, route, k as nat, begun, j as int);
                assert(range_lists(lists@)[j as int] == lists@[j as int]@);
                let ranges = lists@[j as int]@;
                assert forall|m: int| #![trigger ranges[m]] 0 <= m < ranges.len() implies ranges[m].0
                    <= ranges[m].1 <= path.edges@.len() by {
                    lemma_covers_within(ranges, path.edges@.len(), m);
                }
            }
            result.push(self.build_abstract_edges_from_ranges(path, &lists[j]));
            j = j + 1;
        }
        proof {
            let cuts = candidate_cuts(graph, *catalog, refine, route, k as nat, begun);
            assert forall|m: int| 0 <= m < lists@.len() implies cuts[m] == lists@[m]@ by {
                assert(range_lists(lists@)[m] == lists@[m]@);
            }
            assert(abstract_lists(result@) =~= cuts.map_values(
                |ranges: Seq<(usize, usize)>| all_standing_for(self@, path@, ranges),
            ));
        }
        result
    }
}

proof fn lemma_on_edges(graph: GraphView, ids: Seq<EdgeId>, p: PredicateView)
    ensures
        on_edges(graph, ids).contains(p) <==> exists|i: int|
            0 <= i < ids.len() && graph.predicates_at(
                PredicateLocation::Edge(#[trigger] ids[i]),
            ).contains(p),
    decreases ids.len(),
{
    if ids.len() > 0 {
        let n = ids.len() - 1;
        let fewer = ids.drop_last();
        let before = on_edges(graph, fewer);
        let here = graph.predicates_at(PredicateLocation::Edge(ids.last()));
        lemma_on_edges(graph, fewer, p);
        lemma_in_either(before, here, p);
        if before.contains(p) {
            let i = choose|i: int|
                0 <= i < fewer.len() && graph.predicates_at(
                    PredicateLocation::Edge(#[trigger] fewer[i]),
                ).contains(p);
            assert(ids[i] == fewer[i]);
        }
        if here.contains(p) {
            assert(graph.predicates_at(PredicateLocation::Edge(ids[n])).contains(p));
        }
        if exists|i: int|
            0 <= i < ids.len() && graph.predicates_at(
                PredicateLocation::Edge(#[trigger] ids[i]),
            ).contains(p) {
            let i = choose|i: int|
                0 <= i < ids.len() && graph.predicates_at(
                    PredicateLocation::Edge(#[trigger] ids[i]),
                ).contains(p);
            if i < n {
                assert(fewer[i] == ids[i]);
            }
        }
    }
}

proof fn lemma_on_vertices(graph: GraphView, ids: Seq<VertexId>, p: PredicateView)
    ensures
        on_vertices(graph, ids).contains(p) <==> exists|i: int|
            0 <= i < ids.len() && graph.predicates_at(
                PredicateLocation::Vertex(#[trigger] ids[i]),
            ).contains(p),
    decreases ids.len(),
{
    if ids.len() > 0 {
        let n = ids.len() - 1;
        let fewer = ids.drop_last();
        let before = on_vertices(graph, fewer);
        let here = graph.predicates_at(PredicateLocation::Vertex(ids.last()));
        lemma_on_vertices(graph, fewer, p);
        lemma_in_either(before, here, p);
        if before.contains(p) {
            let i = choose|i: int|
                0 <= i < fewer.len() && graph.predicates_at(
                    PredicateLocation::Vertex(#[trigger] fewer[i]),
                ).contains(p);
            assert(ids[i] == fewer[i]);
        }
        if here.contains(p) {
            assert(graph.predicates_at(PredicateLocation::Vertex(ids[n])).contains(p));
        }
        if exists|i: int|
            0 <= i < ids.len() && graph.predicates_at(
                PredicateLocation::Vertex(#[trigger] ids[i]),
            ).contains(p) {
            let i = choose|i: int|
                0 <= i < ids.len() && graph.predicates_at(
                    PredicateLocation::Vertex(#[trigger] ids[i]),
                ).contains(p);
            if i < n {
                assert(fewer[i] == ids[i]);
            }
        }
    }
}

proof fn lemma_in_either(a: Seq<PredicateView>, b: Seq<PredicateView>, p: PredicateView)
    ensures
        (a + b).contains(p) <==> a.contains(p) || b.contains(p),
{
    let all = a + b;
    if a.contains(p) {
        let i = choose|i: int| 0 <= i < a.len() && a[i] == p;
        assert(all[i] == p);
    }
    if b.contains(p) {
        let i = choose|i: int| 0 <= i < b.len() && b[i] == p;
        assert(all[a.len() + i] == p);
    }
    if all.contains(p) {
        let i = choose|i: int| 0 <= i < all.len() && all[i] == p;
        if i < a.len() {
            assert(a[i] == p);
        } else {
            assert(b[i - a.len()] == p);
        }
    }
}

/// The abstract edge for a stretch of a route goes from the first of its vertices to the last. It
/// has all edges of the stretch, and exactly the predicates on these and on the vertices of the
/// stretch, both ends included.
pub proof fn stretches_carry_their_predicates(
    graph: GraphView,
    route: RouteView,
    range: (usize, usize),
    p: PredicateView,
)
    requires
        range.0 < range.1 <= route.edges.len(),
        route.vertices.len() == route.edges.len() + 1,
    ensures
        ({
            let (a, b) = (range.0 as int, range.1 as int);
            let edge = standing_for(graph, route, range);
            &&& edge.src == route.vertices[a] && edge.dst == route.vertices[b]
            &&& edge.original_edge_ids.len() == b - a
            &&& edge.path_vertices.len() == b - a + 1
            &&& forall|i: int|
                #![trigger edge.original_edge_ids[i]]
                0 <= i < b - a ==> edge.original_edge_ids[i] == route.edges[a + i]
            &&& forall|i: int|
                #![trigger edge.path_vertices[i]]
                0 <= i <= b - a ==> edge.path_vertices[i] == route.vertices[a + i]
            &&& edge.predicates.contains(p) <==> (exists|i: int|
                a <= i < b && graph.predicates_at(
                    PredicateLocation::Edge(#[trigger] route.edges[i]),
                ).contains(p)) || (exists|i: int|
                a <= i <= b && graph.predicates_at(
                    PredicateLocation::Vertex(#[trigger] route.vertices[i]),
                ).contains(p))
        }),
{
    let (a, b) = (range.0 as int, range.1 as int);
    let edges = route.edges.subrange(a, b);
    let vertices = route.vertices.subrange(a, b + 1);
    lemma_on_edges(graph, edges, p);
    lemma_on_vertices(graph, vertices, p);
    lemma_in_either(on_edges(graph, edges), on_vertices(graph, vertices), p);
    if exists|i: int|
        a <= i < b && graph.predicates_at(
            PredicateLocation::Edge(#[trigger] route.edges[i]),
        ).contains(p) {
        let i = choose|i: int|
            a <= i < b && graph.predicates_at(
                PredicateLocation::Edge(#[trigger] route.edges[i]),
            ).contains(p);
        assert(edges[i - a] == route.edges[i]);
    }
    if exists|i: int|
        a <= i <= b && graph.predicates_at(
            PredicateLocation::Vertex(#[trigger] route.vertices[i]),
        ).contains(p) {
        let i = choose|i: int|
            a <= i <= b && graph.predicates_at(
                PredicateLocation::Vertex(#[trigger] route.vertices[i]),
            ).contains(p);
        assert(vertices[i - a] == route.vertices[i]);
    }
    if on_edges(graph, edges).contains(p) {
        let i = choose|i: int|
            0 <= i < edges.len() && graph.predicates_at(
                PredicateLocation::Edge(#[trigger] edges[i]),
            ).contains(p);
        assert(route.edges[a + i] == edges[i]);
    }
    if on_vertices(graph, vertices).contains(p) {
        let i = choose|i: int|
            0 <= i < vertices.len() && graph.predicates_at(
                PredicateLocation::Vertex(#[trigger] vertices[i]),
            ).contains(p);
        assert(route.vertices[a + i] == vertices[i]);
    }
}

/// The labels of vertices, or of edges, are theirs, one by one, where all of them are in the graph.
pub proof fn labels_are_taken_one_by_one(graph: GraphView, vs: Seq<VertexId>, es: Seq<EdgeId>, i: int)
    ensures
        (forall|k: int| #![trigger vs[k]] 0 <= k < vs.len() ==> graph.vertex(vs[k]) is Some) ==> {
            &&& vertex_labels(graph, vs).len() == vs.len()
            &&& 0 <= i < vs.len() ==> vertex_labels(graph, vs)[i] == graph.vertex(vs[i])->0.label
        },
        (forall|k: int| #![trigger es[k]] 0 <= k < es.len() ==> graph.edge(es[k]) is Some) ==> {
            &&& edge_labels(graph, es).len() == es.len()
            &&& 0 <= i < es.len() ==> edge_labels(graph, es)[i] == graph.edge(es[i])->0.label
        },
    decreases vs.len() + es.len(),
{
    if vs.len() > 0 {
        labels_are_taken_one_by_one(graph, vs.drop_last(), Seq::empty(), i);
        let fewer = vs.drop_last();
        if forall|k: int| #![trigger vs[k]] 0 <= k < vs.len() ==> graph.vertex(vs[k]) is Some {
            assert forall|k: int| #![trigger fewer[k]] 0 <= k < fewer.len() implies graph.vertex(
                fewer[k],
            ) is Some by {
                assert(vs[k] == fewer[k]);
            }
            assert(graph.vertex(vs[vs.len() - 1]) is Some);
        }
    }
    if es.len() > 0 {
        labels_are_taken_one_by_one(graph, Seq::empty(), es.drop_last(), i);
        let fewer = es.drop_last();
        if forall|k: int| #![trigger es[k]] 0 <= k < es.len() ==> graph.edge(es[k]) is Some {
            assert forall|k: int| #![trigger fewer[k]] 0 <= k < fewer.len() implies graph.edge(
                fewer[k],
            ) is Some by {
                assert(es[k] == fewer[k]);
            }
            assert(graph.edge(es[es.len() - 1]) is Some);
        }
    }
}

} // verus!
