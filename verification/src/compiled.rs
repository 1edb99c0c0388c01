//! What the stars, branches and paths of a query ask of the data.
use crate::branches::{
    arm_along, branch_at, compiled_arm, compiled_arms, compiled_branch, is_branch, leaf_edges,
    leaf_links, RawBranchView,
};
use crate::catalog::DegreeSeqGraph;
use crate::connect::between;
use crate::counting::{
    lemma_no_places, lemma_places_alike, lemma_places_finite, lemma_places_step, places,
};
use crate::flat::{resolution, FlatView, ResolvedView};
use crate::lookups::{lemma_one_more_place, lists_places};
use crate::order::sorting_orders_the_values;
use crate::path_query::{
    for_edge, for_vertex, line, plan_from, predicates_at, track_of, EdgeDirection, ElementView,
    PathQuery, StepView, Track,
};
use crate::paths::{degree, links, links_lead};
use crate::query::{EdgeId, EdgeView, GraphView, PredicateView, VertexId};
use crate::sampling::{compiled_star, CompiledStarView};
use crate::stars::{ArmView, BranchView, RawArmView};
use vstd::prelude::*;

verus! {

/// Whether conditions are those of a vertex of a query with a label.
pub open spec fn asks_of_vertex(
    graph: GraphView,
    data: FlatView,
    v: VertexId,
    label: Seq<char>,
    conditions: Seq<ResolvedView>,
) -> bool {
    &&& graph.vertex(v) matches Some(q)
    &&& label == q.label
    &&& resolution(data.vertex_schemas, q.label, q.predicates) == Ok::<_, Seq<char>>(conditions)
}

/// Whether a label, a direction and conditions are those of an edge of a query, seen from a vertex.
pub open spec fn asks_of_edge(
    graph: GraphView,
    data: FlatView,
    id: EdgeId,
    from: VertexId,
    label: Seq<char>,
    outgoing: bool,
    conditions: Seq<ResolvedView>,
) -> bool {
    &&& graph.edge(id) matches Some(e)
    &&& label == e.label
    &&& outgoing == (e.src == from)
    &&& resolution(data.edge_schemas, e.label, e.predicates) == Ok::<_, Seq<char>>(conditions)
}

/// Whether an arm asks of the data what the edge and the leaf of a query do.
pub open spec fn asks_of_arm(
    graph: GraphView,
    data: FlatView,
    center: VertexId,
    raw: RawArmView,
    arm: ArmView,
) -> bool {
    &&& arm.edge_id == raw.edge_id
    &&& asks_of_edge(
        graph,
        data,
        raw.edge_id,
        center,
        arm.edge_label,
        arm.outgoing,
        arm.edge_predicates,
    )
    &&& asks_of_vertex(graph, data, raw.leaf, arm.leaf_label, arm.leaf_predicates)
}

/// Whether there is all that an arm needs: its edge and its leaf in the query, the edge at the
/// center where that is asked for, and in the data the properties that they have predicates on.
pub open spec fn can_be_asked(
    graph: GraphView,
    data: FlatView,
    center: VertexId,
    raw: RawArmView,
    checked: bool,
) -> bool {
    &&& graph.edge(raw.edge_id) matches Some(e)
    &&& graph.vertex(raw.leaf) matches Some(leaf)
    &&& checked ==> e.src == center || e.dst == center
    &&& resolution(data.edge_schemas, e.label, e.predicates) is Ok
    &&& resolution(data.vertex_schemas, leaf.label, leaf.predicates) is Ok
}

/// Arms can be made ready exactly where each of them has what it needs. Each then asks of the data
/// what the query asks at its place.
pub proof fn arms_ask_what_the_query_asks(
    graph: GraphView,
    data: FlatView,
    center: VertexId,
    arms: Seq<RawArmView>,
    checked: bool,
)
    ensures
        compiled_arms(graph, data, center, arms, checked) is Ok <==> forall|i: int|
            #![trigger arms[i]]
            0 <= i < arms.len() ==> can_be_asked(graph, data, center, arms[i], checked),
        compiled_arms(graph, data, center, arms, checked) matches Ok(ready) ==> {
            &&& ready.len() == arms.len()
            &&& forall|i: int|
                #![trigger ready[i]]
                0 <= i < arms.len() ==> asks_of_arm(graph, data, center, arms[i], ready[i])
        },
    decreases arms.len(),
{
    if arms.len() > 0 {
        let fewer = arms.drop_last();
        let n = arms.len() - 1;
        arms_ask_what_the_query_asks(graph, data, center, fewer, checked);
        assert(compiled_arm(graph, data, center, arms[n], checked) is Ok <==> can_be_asked(
            graph,
            data,
            center,
            arms[n],
            checked,
        ));
        if graph.edge(arms[n].edge_id) is Some {
            let k = graph.edge_at(arms[n].edge_id)->0;
            assert(graph.edges[k].id == arms[n].edge_id);
        }
        if forall|i: int|
            #![trigger arms[i]]
            0 <= i < arms.len() ==> can_be_asked(graph, data, center, arms[i], checked) {
            assert forall|i: int| #![trigger fewer[i]] 0 <= i < fewer.len() implies can_be_asked(
                graph,
                data,
                center,
                fewer[i],
                checked,
            ) by {
                assert(fewer[i] == arms[i]);
            }
        }
        if compiled_arms(graph, data, center, arms, checked) is Ok {
            let before = compiled_arms(graph, data, center, fewer, checked)->Ok_0;
            let ready = compiled_arms(graph, data, center, arms, checked)->Ok_0;
            assert forall|i: int| #![trigger arms[i]] 0 <= i < arms.len() implies can_be_asked(
                graph,
                data,
                center,
                arms[i],
                checked,
            ) by {
                if i < n {
                    assert(fewer[i] == arms[i]);
                }
            }
            assert forall|i: int| #![trigger ready[i]] 0 <= i < arms.len() implies asks_of_arm(
                graph,
                data,
                center,
                arms[i],
                ready[i],
            ) by {
                if i < n {
                    assert(before[i] == ready[i]);
                    assert(fewer[i] == arms[i]);
                }
            }
        }
    }
}

/// A star asks of the data what the query asks of its center and along its arms, each of which
/// has the center as one of its ends.
pub proof fn stars_ask_what_the_query_asks(
    graph: GraphView,
    data: FlatView,
    center: VertexId,
    arms: Seq<RawArmView>,
    star: CompiledStarView,
    i: int,
)
    requires
        compiled_star(graph, data, center, arms) matches Ok(s) && s == star,
    ensures
        asks_of_vertex(graph, data, center, star.center_label, star.center_predicates),
        star.arms.len() == arms.len(),
        0 <= i < arms.len() ==> asks_of_arm(graph, data, center, arms[i], star.arms[i]),
        0 <= i < arms.len() ==> can_be_asked(graph, data, center, arms[i], true),
{
    arms_ask_what_the_query_asks(graph, data, center, arms, true);
    if 0 <= i < arms.len() {
        let (raw, ready) = (arms[i], star.arms[i]);
    }
}

/// A branch asks of the data what the query asks of its center, of its root, seen from the center,
/// of the vertex that the root leads to, and along the arms of that vertex and of the center.
pub proof fn branches_ask_what_the_query_asks(
    graph: GraphView,
    data: FlatView,
    raw: RawBranchView,
    branch: BranchView,
    i: int,
)
    requires
        compiled_branch(graph, data, raw) matches Ok(b) && b == branch,
    ensures
        asks_of_vertex(graph, data, raw.center, branch.center_label, branch.center_predicates),
        asks_of_vertex(
            graph,
            data,
            raw.intermediate,
            branch.intermediate_label,
            branch.intermediate_predicates,
        ),
        asks_of_edge(
            graph,
            data,
            raw.root_edge_id,
            raw.center,
            branch.root_edge_label,
            branch.root_outgoing,
            branch.root_edge_predicates,
        ),
        branch.leaf_arms.len() == raw.leaf_arms.len(),
        branch.center_leaf_arms.len() == raw.center_leaf_arms.len(),
        0 <= i < raw.leaf_arms.len() ==> asks_of_arm(
            graph,
            data,
            raw.intermediate,
            raw.leaf_arms[i],
            branch.leaf_arms[i],
        ),
        0 <= i < raw.center_leaf_arms.len() ==> asks_of_arm(
            graph,
            data,
            raw.center,
            raw.center_leaf_arms[i],
            branch.center_leaf_arms[i],
        ),
{
    arms_ask_what_the_query_asks(graph, data, raw.intermediate, raw.leaf_arms, false);
    arms_ask_what_the_query_asks(graph, data, raw.center, raw.center_leaf_arms, false);
    if 0 <= i < raw.leaf_arms.len() {
        let (one, ready) = (raw.leaf_arms[i], branch.leaf_arms[i]);
    }
    if 0 <= i < raw.center_leaf_arms.len() {
        let (one, ready) = (raw.center_leaf_arms[i], branch.center_leaf_arms[i]);
    }
}

/// The degree of a vertex is how many edges leave it and how many enter it.
pub proof fn degrees_count_ends(edges: Seq<EdgeView>, v: VertexId)
    ensures
        degree(edges, v) == places(edges.len() as int, |p: int| edges[p].src == v).len() + places(
            edges.len() as int,
            |p: int| edges[p].dst == v,
        ).len(),
    decreases edges.len(),
{
    let leaves = |p: int| edges[p].src == v;
    let enters = |p: int| edges[p].dst == v;
    if edges.len() == 0 {
        lemma_no_places(leaves);
        lemma_no_places(enters);
    } else {
        let n = edges.len() as int;
        let fewer = edges.drop_last();
        degrees_count_ends(fewer, v);
        lemma_places_alike(n - 1, leaves, |p: int| fewer[p].src == v);
        lemma_places_alike(n - 1, enters, |p: int| fewer[p].dst == v);
        lemma_places_finite(n - 1, leaves);
        lemma_places_finite(n - 1, enters);
        lemma_places_step(n, leaves);
        lemma_places_step(n, enters);
    }
}

proof fn lemma_leaf_links(
    edges: Seq<EdgeView>,
    by: Seq<(VertexId, EdgeId)>,
    without: EdgeId,
    id: EdgeId,
)
    ensures
        leaf_links(edges, by, without).contains(id) <==> id != without && exists|i: int|
            0 <= i < by.len() && (#[trigger] by[i]).1 == id && degree(edges, by[i].0) == 1,
    decreases by.len(),
{
    if by.len() > 0 {
        let fewer = by.drop_last();
        let before = leaf_links(edges, fewer, without);
        let all = leaf_links(edges, by, without);
        let n = by.len() - 1;
        lemma_leaf_links(edges, fewer, without, id);
        if all.contains(id) {
            if before.contains(id) {
                let i = choose|i: int|
                    0 <= i < fewer.len() && (#[trigger] fewer[i]).1 == id && degree(
                        edges,
                        fewer[i].0,
                    ) == 1;
                assert(by[i].1 == id && degree(edges, by[i].0) == 1);
            } else {
                assert(by[n].1 == id && degree(edges, by[n].0) == 1);
            }
        }
        if id != without && exists|i: int|
            0 <= i < by.len() && (#[trigger] by[i]).1 == id && degree(edges, by[i].0) == 1 {
            let i = choose|i: int|
                0 <= i < by.len() && (#[trigger] by[i]).1 == id && degree(edges, by[i].0) == 1;
            if i < n {
                assert(fewer[i].1 == id && degree(edges, fewer[i].0) == 1);
                assert(before.contains(id));
                let k = choose|k: int| 0 <= k < before.len() && before[k] == id;
                assert(all[k] == id);
            } else {
                assert(all[all.len() - 1] == id);
            }
        }
    }
}

/// Whether an edge, other than one, joins a vertex to another with no other edge.
pub open spec fn is_leaf_edge(edges: Seq<EdgeView>, v: VertexId, without: EdgeId, e: EdgeView) -> bool {
    &&& e.id != without
    &&& (e.src == v && degree(edges, e.dst) == 1) || (e.dst == v && degree(edges, e.src) == 1)
}

/// The edges from a vertex to leaves are exactly those that join it to a vertex without another
/// edge, but for the one that is left out.
pub proof fn leaf_edges_lead_to_leaves(
    edges: Seq<EdgeView>,
    v: VertexId,
    without: EdgeId,
    id: EdgeId,
)
    ensures
        leaf_edges(edges, v, without).contains(id) <==> exists|p: int|
            0 <= p < edges.len() && (#[trigger] edges[p]).id == id && is_leaf_edge(
                edges,
                v,
                without,
                edges[p],
            ),
{
    let by = links(edges, v);
    sorting_orders_the_values(leaf_links(edges, by, without));
    lemma_leaf_links(edges, by, without, id);
    if leaf_edges(edges, v, without).contains(id) {
        let i = choose|i: int|
            0 <= i < by.len() && (#[trigger] by[i]).1 == id && degree(edges, by[i].0) == 1;
        assert(by.contains((by[i].0, id)));
        links_lead(edges, v, by[i].0, id);
        let p = choose|p: int|
            0 <= p < edges.len() && edges[p].id == id && between(#[trigger] edges[p], v, by[i].0);
        assert(is_leaf_edge(edges, v, without, edges[p]));
    }
    if exists|p: int|
        0 <= p < edges.len() && (#[trigger] edges[p]).id == id && is_leaf_edge(
            edges,
            v,
            without,
            edges[p],
        ) {
        let p = choose|p: int|
            0 <= p < edges.len() && (#[trigger] edges[p]).id == id && is_leaf_edge(
                edges,
                v,
                without,
                edges[p],
            );
        let other = if edges[p].src == v && degree(edges, edges[p].dst) == 1 {
            edges[p].dst
        } else {
            edges[p].src
        };
        assert(between(edges[p], v, other));
        links_lead(edges, v, other, id);
        let i = choose|i: int| 0 <= i < by.len() && by[i] == (other, id);
        assert(by[i].1 == id && degree(edges, by[i].0) == 1);
    }
}

/// A branch has an arm for every edge from its intermediate vertex to a leaf, and for every one
/// from its center, but for the root; the root joins the two.
pub proof fn branches_have_all_their_arms(
    graph: GraphView,
    catalog: DegreeSeqGraph,
    max: nat,
    center: VertexId,
    root: EdgeView,
)
    requires
        center == root.src || center == root.dst,
        is_branch(graph, catalog, max, center, root),
    ensures
        ({
            let found = branch_at(graph, center, root);
            let leaves = leaf_edges(graph.edges, found.intermediate, root.id);
            let others = leaf_edges(graph.edges, center, root.id);
            &&& found.center == center && found.root_edge_id == root.id
            &&& between(root, center, found.intermediate)
            &&& 2 <= found.leaf_arms.len() <= max
            &&& found.center_leaf_arms.len() < max
            &&& degree(graph.edges, found.intermediate) == found.leaf_arms.len() + 1
            &&& found.leaf_arms.len() == leaves.len()
            &&& found.center_leaf_arms.len() == others.len()
            &&& forall|i: int|
                #![trigger found.leaf_arms[i]]
                0 <= i < leaves.len() ==> found.leaf_arms[i].edge_id == leaves[i] && (graph.edge(
                    leaves[i],
                ) matches Some(e) ==> (e.src == found.intermediate || e.dst == found.intermediate)
                    ==> between(e, found.intermediate, found.leaf_arms[i].leaf))
            &&& forall|i: int|
                #![trigger found.center_leaf_arms[i]]
                0 <= i < others.len() ==> found.center_leaf_arms[i].edge_id == others[i] && (
                graph.edge(others[i]) matches Some(e) ==> (e.src == center || e.dst == center)
                    ==> between(e, center, found.center_leaf_arms[i].leaf))
        }),
{
    let found = branch_at(graph, center, root);
    let leaves = leaf_edges(graph.edges, found.intermediate, root.id);
    let others = leaf_edges(graph.edges, center, root.id);
    assert forall|i: int| #![trigger found.leaf_arms[i]] 0 <= i < leaves.len() implies
        found.leaf_arms[i] == arm_along(graph, found.intermediate, leaves[i]) by {}
    assert forall|i: int| #![trigger found.center_leaf_arms[i]] 0 <= i < others.len() implies
        found.center_leaf_arms[i] == arm_along(graph, center, others[i]) by {}
}

/// The line of a path has its vertices at the even places and its edges at the odd ones, each
/// with its label. An edge is followed out of the vertex before it exactly where that is its
/// source.
pub proof fn lines_alternate(
    graph: GraphView,
    vertices: Seq<VertexId>,
    edges: Seq<EdgeId>,
    i: int,
)
    requires
        vertices.len() == edges.len() + 1,
        2 * vertices.len() <= usize::MAX,
        0 <= i < vertices.len(),
        forall|k: int|
            #![trigger edges[k]]
            0 <= k < edges.len() ==> (graph.edge(edges[k]) matches Some(e) && (e.src == vertices[k]
                || e.dst == vertices[k])),
    ensures
        ({
            let all = line(graph, vertices, edges, vertices.len() as int);
            &&& all.len() == 2 * vertices.len() - 1
            &&& all[2 * i] matches ElementView::Vertex { label, position } && label == graph.vertex(
                vertices[i],
            )->0.label && position == 2 * i
            &&& i < edges.len() ==> (all[2 * i + 1] matches ElementView::Edge {
                label,
                position,
                direction,
            } && label == graph.edge(edges[i])->0.label && position == 2 * i + 1 && (direction
                == EdgeDirection::Outgoing <==> graph.edge(edges[i])->0.src == vertices[i]))
        }),
{
    lemma_line(graph, vertices, edges, i, vertices.len() as int);
}

proof fn lemma_line(
    graph: GraphView,
    vertices: Seq<VertexId>,
    edges: Seq<EdgeId>,
    i: int,
    n: int,
)
    requires
        vertices.len() == edges.len() + 1,
        2 * vertices.len() <= usize::MAX,
        0 <= n <= vertices.len(),
        forall|k: int|
            #![trigger edges[k]]
            0 <= k < edges.len() ==> (graph.edge(edges[k]) matches Some(e) && (e.src == vertices[k]
                || e.dst == vertices[k])),
    ensures
        ({
            let all = line(graph, vertices, edges, n);
            &&& all.len() == 2 * n - (if n == vertices.len() {
                1int
            } else {
                0
            })
            &&& 0 <= i < n ==> (all[2 * i] matches ElementView::Vertex { label, position } && label
                == graph.vertex(vertices[i])->0.label && position == 2 * i)
            &&& 0 <= i < n && i < edges.len() ==> (all[2 * i + 1] matches ElementView::Edge {
                label,
                position,
                direction,
            } && label == graph.edge(edges[i])->0.label && position == 2 * i + 1 && (direction
                == EdgeDirection::Outgoing <==> graph.edge(edges[i])->0.src == vertices[i]))
        }),
    decreases n,
{
    if n > 0 {
        lemma_line(graph, vertices, edges, i, n - 1);
        if n - 1 < edges.len() {
            let e = edges[n - 1];
            assert(graph.edge(e) is Some);
        }
        let before = line(graph, vertices, edges, n - 1);
        let all = line(graph, vertices, edges, n);
        if 0 <= i < n - 1 {
            assert(all[2 * i] == before[2 * i]);
            assert(all[2 * i + 1] == before[2 * i + 1]);
        }
    }
}

/// The predicates that are meant for a vertex are those on vertices with its number, in their
/// order.
pub proof fn vertex_predicates_are_picked(predicates: Seq<PredicateView>, id: VertexId) -> (at: Seq<
    int,
>)
    ensures
        lists_places(
            at,
            predicates.len() as int,
            |p: int| predicates[p].target == "vertex"@ && predicates[p].id == id as u32,
        ),
        for_vertex(predicates, id) == at.map_values(|p: int| predicates[p]),
    decreases predicates.len(),
{
    let wanted = |p: int| predicates[p].target == "vertex"@ && predicates[p].id == id as u32;
    let all = for_vertex(predicates, id);
    if predicates.len() == 0 {
        let at = Seq::<int>::empty();
        assert(at.map_values(|p: int| predicates[p]) =~= all);
        at
    } else {
        let n = predicates.len() as int;
        let fewer = predicates.drop_last();
        let before = vertex_predicates_are_picked(fewer, id);
        assert(lists_places(before, n - 1, wanted)) by {
            assert forall|p: int| 0 <= p < n - 1 && #[trigger] wanted(p) implies before.contains(
                p,
            ) by {
                assert((|q: int| fewer[q].target == "vertex"@ && fewer[q].id == id as u32)(p));
            }
        }
        lemma_one_more_place(before, n, wanted);
        let at = if wanted(n - 1) {
            before.push(n - 1)
        } else {
            before
        };
        assert(before.map_values(|p: int| predicates[p]) =~= before.map_values(
            |p: int| fewer[p],
        ));
        assert(at.map_values(|p: int| predicates[p]) =~= all);
        at
    }
}

/// The predicates that are meant for an edge are those on edges with its number, in their order.
pub proof fn edge_predicates_are_picked(predicates: Seq<PredicateView>, id: EdgeId) -> (at: Seq<int>)
    ensures
        lists_places(
            at,
            predicates.len() as int,
            |p: int| predicates[p].target == "edge"@ && predicates[p].id == id as u32,
        ),
        for_edge(predicates, id) == at.map_values(|p: int| predicates[p]),
    decreases predicates.len(),
{
    let wanted = |p: int| predicates[p].target == "edge"@ && predicates[p].id == id as u32;
    let all = for_edge(predicates, id);
    if predicates.len() == 0 {
        let at = Seq::<int>::empty();
        assert(at.map_values(|p: int| predicates[p]) =~= all);
        at
    } else {
        let n = predicates.len() as int;
        let fewer = predicates.drop_last();
        let before = edge_predicates_are_picked(fewer, id);
        assert(lists_places(before, n - 1, wanted)) by {
            assert forall|p: int| 0 <= p < n - 1 && #[trigger] wanted(p) implies before.contains(
                p,
            ) by {
                assert((|q: int| fewer[q].target == "edge"@ && fewer[q].id == id as u32)(p));
            }
        }
        lemma_one_more_place(before, n, wanted);
        let at = if wanted(n - 1) {
            before.push(n - 1)
        } else {
            before
        };
        assert(before.map_values(|p: int| predicates[p]) =~= before.map_values(
            |p: int| fewer[p],
        ));
        assert(at.map_values(|p: int| predicates[p]) =~= all);
        at
    }
}

/// Whether the elements of a path are vertices and edges in turn, with a vertex at both ends.
pub open spec fn alternates(query: PathQuery) -> bool {
    &&& query.path_elements@.len() % 2 == 1
    &&& forall|k: int|
        #![trigger query.path_elements@[k]]
        0 <= k < query.path_elements@.len() ==> (query.path_elements@[k]@ is Vertex <==> k % 2 == 0)
}

/// Whether a label and conditions are those of the vertex at a place of a path.
pub open spec fn stops_at(
    data: FlatView,
    query: PathQuery,
    k: int,
    label: Seq<char>,
    conditions: Seq<ResolvedView>,
) -> bool {
    &&& 0 <= k < query.path_elements@.len()
    &&& query.path_elements@[k]@ matches ElementView::Vertex { label: l, position }
    &&& label == l
    &&& resolution(
        data.vertex_schemas,
        l,
        predicates_at(query.vertex_predicates@, position),
    ) == Ok::<_, Seq<char>>(conditions)
}

/// Whether a step is the one to the vertex at a place of a path.
pub open spec fn steps_to(data: FlatView, query: PathQuery, k: int, step: StepView) -> bool {
    step matches StepView::Vertex { label, predicates } && stops_at(
        data,
        query,
        k,
        label,
        predicates,
    )
}

/// Whether a step is the one along the edge at a place of a path, from the vertex at the place
/// before it or from the one at the place after it.
pub open spec fn steps_along(
    data: FlatView,
    query: PathQuery,
    k: int,
    forth: bool,
    step: StepView,
) -> bool {
    let from = if forth {
        k - 1
    } else {
        k + 1
    };
    &&& 0 <= k < query.path_elements@.len()
    &&& step matches StepView::Edge { label, edge_label, outgoing, predicates }
    &&& query.path_elements@[k]@ matches ElementView::Edge { label: l, position, direction }
    &&& edge_label == l
    &&& forth ==> (outgoing <==> direction == EdgeDirection::Outgoing)
    &&& !forth ==> (outgoing <==> direction == EdgeDirection::Incoming)
    &&& query.path_elements@[from]@ matches ElementView::Vertex { label: at, position: place }
    &&& label == at
    &&& resolution(data.edge_schemas, l, predicates_at(query.edge_predicates@, position)) == Ok::<
        _,
        Seq<char>,
    >(predicates)
}

proof fn lemma_track(data: FlatView, query: PathQuery, n: int)
    requires
        alternates(query),
        0 <= n <= query.path_elements@.len(),
        track_of(data, query, n) is Ok,
    ensures
        track_of(data, query, n) matches Ok(track) && {
            &&& track.stops.len() == (n + 1) / 2
            &&& track.tracks.len() == n / 2
            &&& forall|i: int|
                #![trigger track.stops[i]]
                0 <= i < track.stops.len() ==> stops_at(
                    data,
                    query,
                    2 * i,
                    track.stops[i].label,
                    track.stops[i].predicates,
                )
            &&& forall|i: int|
                #![trigger track.tracks[i]]
                0 <= i < track.tracks.len() ==> {
                    let t = track.tracks[i];
                    &&& query.path_elements@[2 * i + 1]@ matches ElementView::Edge {
                        label,
                        position,
                        direction,
                    }
                    &&& t.label == label && t.direction == direction
                    &&& resolution(
                        data.edge_schemas,
                        label,
                        predicates_at(query.edge_predicates@, position),
                    ) == Ok::<_, Seq<char>>(t.predicates)
                }
        },
    decreases n,
{
    if n > 0 {
        lemma_track(data, query, n - 1);
        let before = track_of(data, query, n - 1)->Ok_0;
        let track = track_of(data, query, n)->Ok_0;
        let last = query.path_elements@[n - 1];
        assert(last@ is Vertex <==> (n - 1) % 2 == 0);
        assert forall|i: int| #![trigger track.stops[i]] 0 <= i < track.stops.len() implies stops_at(
            data,
            query,
            2 * i,
            track.stops[i].label,
            track.stops[i].predicates,
        ) by {
            if i < before.stops.len() {
                assert(before.stops[i] == track.stops[i]);
            }
        }
        assert forall|i: int| #![trigger track.tracks[i]] 0 <= i < track.tracks.len() implies {
            let t = track.tracks[i];
            &&& query.path_elements@[2 * i + 1]@ matches ElementView::Edge {
                label,
                position,
                direction,
            }
            &&& t.label == label && t.direction == direction
            &&& resolution(
                data.edge_schemas,
                label,
                predicates_at(query.edge_predicates@, position),
            ) == Ok::<_, Seq<char>>(t.predicates)
        } by {
            if i < before.tracks.len() {
                assert(before.tracks[i] == track.tracks[i]);
            }
        }
    }
}

/// A plan for a path starts at one of its vertices. To the right it goes on along every edge after
/// that one, and to every vertex; to the left it goes back against every edge before it, and to
/// every vertex. It asks for the conditions of each, once.
pub proof fn plans_follow_the_path(
    data: FlatView,
    query: PathQuery,
    track: Track,
    start: int,
    i: int,
)
    requires
        alternates(query),
        track_of(data, query, query.path_elements@.len() as int) matches Ok(t) && t == track,
        0 <= start <= query.path_elements@.len() / 2,
    ensures
        ({
            let plan = plan_from(track, start);
            let m = query.path_elements@.len() / 2;
            &&& plan.start_idx == start
            &&& stops_at(data, query, 2 * start, plan.start_label, plan.start_predicates)
            &&& plan.right.len() == 2 * (m - start)
            &&& plan.left.len() == 2 * start
            &&& 0 <= i < m - start ==> steps_along(
                data,
                query,
                2 * (start + i) + 1,
                true,
                plan.right[2 * i],
            ) && steps_to(data, query, 2 * (start + i) + 2, plan.right[2 * i + 1])
            &&& 0 <= i < start ==> steps_along(
                data,
                query,
                2 * (start - i) - 1,
                false,
                plan.left[2 * i],
            ) && steps_to(data, query, 2 * (start - i) - 2, plan.left[2 * i + 1])
        }),
{
    let n = query.path_elements@.len() as int;
    let m = n / 2;
    lemma_track(data, query, n);
    let plan = plan_from(track, start);
    assert(track.stops.len() == m + 1 && track.tracks.len() == m);
    let first = track.stops[start];
    if 0 <= i < m - start {
        let k = start + i;
        let (a, t, b) = (track.stops[k], track.tracks[k], track.stops[k + 1]);
        assert((2 * i) / 2 == i && (2 * i + 1) / 2 == i);
        assert(plan.right[2 * i] == StepView::Edge {
            label: a.label,
            edge_label: t.label,
            outgoing: t.direction == EdgeDirection::Outgoing,
            predicates: t.predicates,
        });
        assert(plan.right[2 * i + 1] == StepView::Vertex {
            label: b.label,
            predicates: b.predicates,
        });
        assert(stops_at(data, query, 2 * k, a.label, a.predicates));
        assert(stops_at(data, query, 2 * (k + 1), b.label, b.predicates));
    }
    if 0 <= i < start {
        let k = start - 1 - i;
        let (a, t, b) = (track.stops[k], track.tracks[k], track.stops[k + 1]);
        assert((2 * i) / 2 == i && (2 * i + 1) / 2 == i);
        assert(plan.left[2 * i] == StepView::Edge {
            label: b.label,
            edge_label: t.label,
            outgoing: t.direction == EdgeDirection::Incoming,
            predicates: t.predicates,
        });
        assert(plan.left[2 * i + 1] == StepView::Vertex {
            label: a.label,
            predicates: a.predicates,
        });
        assert(stops_at(data, query, 2 * k, a.label, a.predicates));
        assert(stops_at(data, query, 2 * (k + 1), b.label, b.predicates));
    }
}

} // verus!
