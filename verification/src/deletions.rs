//! What random changes delete, insert and log.
use crate::counting::{lemma_no_places, lemma_places_finite, lemma_places_step, places};
use crate::flat::{labelled_ids, FlatVertexView, FlatView, PendingView};
use crate::lookups::labelled_vertices_are_listed;
use crate::pending::{
    incident_edges_are_at_the_vertex, incident_to, joins_to, label_of, IncidentView,
};
use crate::query::{EdgeId, VertexId};
use crate::random_insert::{
    edge_changes, ends_for, label_at, planned_ids, sum_of, type_of, EdgeTypeView, NewEdge, NewVertex,
};
use crate::random_update::{
    edges_cut, goes_alone, gone_changes, is_incident_at, lone_changes, lone_edges, vertices_gone,
    with_incident, with_new,
};
use crate::update_log::one_edge;
use vstd::prelude::*;

verus! {

/// The edges that go for themselves are those among the chosen ones that are in the data and have
/// no end that goes; none of them is listed twice.
pub proof fn edges_go_alone_between_vertices_that_stay(
    data: FlatView,
    edges: Seq<EdgeId>,
    vertices: Seq<VertexId>,
    n: int,
)
    requires
        0 <= n <= edges.len(),
    ensures
        lone_edges(data, edges, vertices, n).no_duplicates(),
        forall|id: EdgeId|
            #![trigger lone_edges(data, edges, vertices, n).contains(id)]
            lone_edges(data, edges, vertices, n).contains(id) <==> {
                &&& exists|k: int| 0 <= k < n && #[trigger] edges[k] == id
                &&& data.edge(id) matches Some(e)
                &&& !vertices.contains(e.src)
                &&& !vertices.contains(e.dst)
            },
    decreases n,
{
    if n > 0 {
        edges_go_alone_between_vertices_that_stay(data, edges, vertices, n - 1);
        let before = lone_edges(data, edges, vertices, n - 1);
        let all = lone_edges(data, edges, vertices, n);
        assert forall|id: EdgeId| #![trigger all.contains(id)] all.contains(id) <==> {
            &&& exists|k: int| 0 <= k < n && #[trigger] edges[k] == id
            &&& data.edge(id) matches Some(e)
            &&& !vertices.contains(e.src)
            &&& !vertices.contains(e.dst)
        } by {
            assert(before.contains(id) ==> all.contains(id)) by {
                if before.contains(id) {
                    let i = choose|i: int| 0 <= i < before.len() && before[i] == id;
                    assert(all[i] == id);
                }
            }
            if id == edges[n - 1] && goes_alone(data, id, vertices) && !before.contains(id) {
                assert(all[all.len() - 1] == id);
            }
            if all.contains(id) && !before.contains(id) {
                assert(edges[n - 1] == id);
            }
        }
    }
}

/// The vertices that go are the chosen ones that are in the data.
pub proof fn chosen_vertices_go(data: FlatView, vertices: Seq<VertexId>, n: int, v: VertexId)
    requires
        0 <= n <= vertices.len(),
    ensures
        vertices_gone(data, vertices, n).contains(v) <==> label_of(data.vertices, v) is Some
            && exists|k: int| 0 <= k < n && #[trigger] vertices[k] == v,
    decreases n,
{
    if n > 0 {
        chosen_vertices_go(data, vertices, n - 1, v);
        let before = vertices_gone(data, vertices, n - 1);
        let all = vertices_gone(data, vertices, n);
        if before.contains(v) {
            let i = choose|i: int| 0 <= i < before.len() && before[i] == v;
            assert(all[i] == v);
        }
        if vertices[n - 1] == v && label_of(data.vertices, v) is Some {
            assert(all[all.len() - 1] == v);
        }
        if all.contains(v) && !before.contains(v) {
            assert(vertices[n - 1] == v);
        }
    }
}

proof fn lemma_with_incident(cut: Seq<EdgeId>, incident: Seq<IncidentView>, n: int)
    requires
        0 <= n <= incident.len(),
    ensures
        cut.no_duplicates() ==> with_incident(cut, incident, n).no_duplicates(),
        forall|id: EdgeId|
            #![trigger with_incident(cut, incident, n).contains(id)]
            with_incident(cut, incident, n).contains(id) <==> cut.contains(id) || exists|k: int|
                0 <= k < n && (#[trigger] incident[k]).edge == id,
    decreases n,
{
    if n > 0 {
        lemma_with_incident(cut, incident, n - 1);
        let before = with_incident(cut, incident, n - 1);
        let all = with_incident(cut, incident, n);
        assert forall|id: EdgeId| #![trigger all.contains(id)] all.contains(id) <==> cut.contains(
            id,
        ) || exists|k: int| 0 <= k < n && (#[trigger] incident[k]).edge == id by {
            if before.contains(id) {
                let i = choose|i: int| 0 <= i < before.len() && before[i] == id;
                assert(all[i] == id);
            }
            if incident[n - 1].edge == id && !before.contains(id) {
                assert(all[all.len() - 1] == id);
            }
            if all.contains(id) && !before.contains(id) {
                assert(incident[n - 1].edge == id);
            }
        }
    }
}

/// Whether an edge with an id is at one of the first chosen vertices that are in the data.
pub open spec fn is_at_gone(data: FlatView, vertices: Seq<VertexId>, n: int, id: EdgeId) -> bool {
    exists|p: int, k: int|
        #![trigger data.edges[p], vertices[k]]
        0 <= p < data.edges.len() && 0 <= k < n && data.edges[p].id == id && (data.edges[p].src
            == vertices[k] || data.edges[p].dst == vertices[k]) && label_of(
            data.vertices,
            vertices[k],
        ) is Some
}

/// The edges that go are those that go for themselves and those at vertices that go, and no
/// others; none of them is listed twice.
pub proof fn edges_go_alone_or_with_an_end(
    data: FlatView,
    lone: Seq<EdgeId>,
    vertices: Seq<VertexId>,
    n: int,
)
    requires
        0 <= n <= vertices.len(),
        lone.no_duplicates(),
    ensures
        edges_cut(data, lone, vertices, n).no_duplicates(),
        forall|id: EdgeId|
            #![trigger edges_cut(data, lone, vertices, n).contains(id)]
            edges_cut(data, lone, vertices, n).contains(id) <==> lone.contains(id) || is_at_gone(
                data,
                vertices,
                n,
                id,
            ),
    decreases n,
{
    if n > 0 {
        edges_go_alone_or_with_an_end(data, lone, vertices, n - 1);
        let before = edges_cut(data, lone, vertices, n - 1);
        let all = edges_cut(data, lone, vertices, n);
        let u = vertices[n - 1];
        let incident = incident_to(data.edges, u);
        lemma_with_incident(before, incident, incident.len() as int);
        incident_edges_are_at_the_vertex(data.edges, u);
        assert forall|id: EdgeId| #![trigger all.contains(id)] all.contains(id) <==> lone.contains(
            id,
        ) || is_at_gone(data, vertices, n, id) by {
            if is_at_gone(data, vertices, n - 1, id) {
                let (p, k) = choose|p: int, k: int|
                    #![trigger data.edges[p], vertices[k]]
                    0 <= p < data.edges.len() && 0 <= k < n - 1 && data.edges[p].id == id && (
                    data.edges[p].src == vertices[k] || data.edges[p].dst == vertices[k])
                        && label_of(data.vertices, vertices[k]) is Some;
                assert(data.edges[p].id == id && label_of(data.vertices, vertices[k]) is Some);
                assert(is_at_gone(data, vertices, n, id));
            }
            if all.contains(id) && !before.contains(id) {
                let i = choose|i: int|
                    0 <= i < incident.len() && (#[trigger] incident[i]).edge == id;
                assert(incident.contains(incident[i]));
                let p = choose|p: int|
                    0 <= p < data.edges.len() && joins_to(
                        #[trigger] data.edges[p],
                        u,
                        incident[i],
                    );
                assert(data.edges[p].id == id && vertices[n - 1] == u);
                assert(is_at_gone(data, vertices, n, id));
            }
            if is_at_gone(data, vertices, n, id) {
                let (p, k) = choose|p: int, k: int|
                    #![trigger data.edges[p], vertices[k]]
                    0 <= p < data.edges.len() && 0 <= k < n && data.edges[p].id == id && (
                    data.edges[p].src == vertices[k] || data.edges[p].dst == vertices[k])
                        && label_of(data.vertices, vertices[k]) is Some;
                if k < n - 1 {
                    assert(data.edges[p].id == id && label_of(data.vertices, vertices[k]) is Some);
                    assert(is_at_gone(data, vertices, n - 1, id));
                } else {
                    let e = data.edges[p];
                    let out = IncidentView {
                        edge: e.id,
                        neighbor: if e.src == u {
                            e.dst
                        } else {
                            e.src
                        },
                        neighbor_label: if e.src == u {
                            e.dst_label
                        } else {
                            e.src_label
                        },
                        label: e.label,
                    };
                    assert(joins_to(data.edges[p], u, out));
                    assert(incident.contains(out));
                    let i = choose|i: int| 0 <= i < incident.len() && incident[i] == out;
                    assert(incident[i].edge == id);
                }
            }
        }
    }
}

/// Ids with others are those of both; where the ids were distinct, they stay so.
pub proof fn new_ids_come_once(ids: Seq<VertexId>, more: Seq<VertexId>)
    ensures
        ids.no_duplicates() ==> with_new(ids, more).no_duplicates(),
        forall|v: VertexId|
            #![trigger with_new(ids, more).contains(v)]
            with_new(ids, more).contains(v) <==> ids.contains(v) || more.contains(v),
    decreases more.len(),
{
    if more.len() > 0 {
        let fewer = more.drop_last();
        new_ids_come_once(ids, fewer);
        let before = with_new(ids, fewer);
        let all = with_new(ids, more);
        assert forall|v: VertexId| #![trigger all.contains(v)] all.contains(v) <==> ids.contains(v)
            || more.contains(v) by {
            if fewer.contains(v) {
                let i = choose|i: int| 0 <= i < fewer.len() && fewer[i] == v;
                assert(more[i] == v);
            }
            if before.contains(v) {
                let i = choose|i: int| 0 <= i < before.len() && before[i] == v;
                assert(all[i] == v);
            }
            if v == more.last() {
                assert(more[more.len() - 1] == v);
                if !before.contains(v) {
                    assert(all[all.len() - 1] == v);
                }
            }
            if more.contains(v) && v != more.last() {
                let i = choose|i: int| 0 <= i < more.len() && more[i] == v;
                assert(fewer[i] == v);
            }
        }
    }
}

/// Whether an edge with a label, between vertices with labels, is one of a path of one edge, seen
/// from a vertex at its beginning.
pub open spec fn is_seen_from(
    v: VertexId,
    from: VertexId,
    from_label: Seq<char>,
    edge_label: Seq<char>,
    to_label: Seq<char>,
    path: Seq<Seq<char>>,
    label: Seq<char>,
) -> bool {
    v == from && label == from_label && path == one_edge(from_label, edge_label, to_label)
}

/// What is logged for edges that go for themselves: a vertex loses each of them that is one of the
/// path and has the vertex as its source or as its destination.
pub proof fn lone_edges_are_logged_at_their_ends(
    data: FlatView,
    lone: Seq<EdgeId>,
    n: int,
    path: Seq<Seq<char>>,
    label: Seq<char>,
    v: VertexId,
)
    requires
        0 <= n <= lone.len(),
    ensures
        lone_changes(data, lone, n, path, label, v) == -(places(
            n,
            |k: int|
                {
                    let e = data.edge(lone[k])->0;
                    is_seen_from(v, e.src, e.src_label, e.label, e.dst_label, path, label)
                },
        ).len() + places(
            n,
            |k: int|
                {
                    let e = data.edge(lone[k])->0;
                    is_seen_from(v, e.dst, e.dst_label, e.label, e.src_label, path, label)
                },
        ).len()),
    decreases n,
{
    let out = |k: int|
        {
            let e = data.edge(lone[k])->0;
            is_seen_from(v, e.src, e.src_label, e.label, e.dst_label, path, label)
        };
    let into = |k: int|
        {
            let e = data.edge(lone[k])->0;
            is_seen_from(v, e.dst, e.dst_label, e.label, e.src_label, path, label)
        };
    if n == 0 {
        lemma_no_places(out);
        lemma_no_places(into);
    } else {
        lone_edges_are_logged_at_their_ends(data, lone, n - 1, path, label, v);
        lemma_places_finite(n - 1, out);
        lemma_places_finite(n - 1, into);
        lemma_places_step(n, out);
        lemma_places_step(n, into);
    }
}

/// What is logged for edges that come: a vertex gets each of them that is one of the path and has
/// the vertex as its source or as its destination.
pub proof fn new_edges_are_logged_at_their_ends(
    edges: Seq<NewEdge>,
    n: int,
    path: Seq<Seq<char>>,
    label: Seq<char>,
    v: VertexId,
)
    requires
        0 <= n <= edges.len(),
    ensures
        edge_changes(edges, n, path, label, v) == places(
            n,
            |k: int|
                is_seen_from(
                    v,
                    edges[k].src,
                    edges[k].src_label@,
                    edges[k].label@,
                    edges[k].dst_label@,
                    path,
                    label,
                ),
        ).len() + places(
            n,
            |k: int|
                is_seen_from(
                    v,
                    edges[k].dst,
                    edges[k].dst_label@,
                    edges[k].label@,
                    edges[k].src_label@,
                    path,
                    label,
                ),
        ).len(),
    decreases n,
{
    let out = |k: int|
        is_seen_from(
            v,
            edges[k].src,
            edges[k].src_label@,
            edges[k].label@,
            edges[k].dst_label@,
            path,
            label,
        );
    let into = |k: int|
        is_seen_from(
            v,
            edges[k].dst,
            edges[k].dst_label@,
            edges[k].label@,
            edges[k].src_label@,
            path,
            label,
        );
    if n == 0 {
        lemma_no_places(out);
        lemma_no_places(into);
    } else {
        new_edges_are_logged_at_their_ends(edges, n - 1, path, label, v);
        lemma_places_finite(n - 1, out);
        lemma_places_finite(n - 1, into);
        lemma_places_step(n, out);
        lemma_places_step(n, into);
    }
}

/// Whether a data edge joins a vertex to one that goes, as an edge of a path.
pub open spec fn loses_neighbor(
    data: FlatView,
    gone: VertexId,
    path: Seq<Seq<char>>,
    label: Seq<char>,
    v: VertexId,
) -> bool {
    label_of(data.vertices, gone) matches Some(gone_label) && exists|p: int|
        0 <= p < data.edges.len() && {
            let e = #[trigger] data.edges[p];
            ||| e.src == gone && e.dst == v && e.dst_label == label && path == one_edge(
                label,
                e.label,
                gone_label,
            )
            ||| e.dst == gone && e.src == v && e.src_label == label && path == one_edge(
                label,
                e.label,
                gone_label,
            )
        }
}

proof fn lemma_loses(
    data: FlatView,
    gone: VertexId,
    path: Seq<Seq<char>>,
    label: Seq<char>,
    v: VertexId,
)
    requires
        label_of(data.vertices, gone) is Some,
    ensures
        is_incident_at(
            incident_to(data.edges, gone),
            path,
            label,
            v,
            label_of(data.vertices, gone)->0,
        ) <==> loses_neighbor(data, gone, path, label, v),
{
    let gone_label = label_of(data.vertices, gone)->0;
    let incident = incident_to(data.edges, gone);
    incident_edges_are_at_the_vertex(data.edges, gone);
    if is_incident_at(incident, path, label, v, gone_label) {
        let i = choose|i: int|
            0 <= i < incident.len() && (#[trigger] incident[i]).neighbor == v
                && incident[i].neighbor_label == label && path == one_edge(
                label,
                incident[i].label,
                gone_label,
            );
        assert(incident.contains(incident[i]));
        let p = choose|p: int|
            0 <= p < data.edges.len() && joins_to(#[trigger] data.edges[p], gone, incident[i]);
        assert(data.edges[p].label == incident[i].label);
    }
    if loses_neighbor(data, gone, path, label, v) {
        let p = choose|p: int|
            0 <= p < data.edges.len() && {
                let e = #[trigger] data.edges[p];
                ||| e.src == gone && e.dst == v && e.dst_label == label && path == one_edge(
                    label,
                    e.label,
                    gone_label,
                )
                ||| e.dst == gone && e.src == v && e.src_label == label && path == one_edge(
                    label,
                    e.label,
                    gone_label,
                )
            };
        let e = data.edges[p];
        let x = IncidentView { edge: e.id, neighbor: v, neighbor_label: label, label: e.label };
        assert(joins_to(data.edges[p], gone, x));
        assert(incident.contains(x));
        let i = choose|i: int| 0 <= i < incident.len() && incident[i] == x;
        assert(incident[i].neighbor == v);
    }
}

/// What is logged for vertices that go: a vertex loses one for each of them that an edge of the
/// path joins it to.
pub proof fn gone_vertices_are_logged_at_their_neighbors(
    data: FlatView,
    vertices: Seq<VertexId>,
    n: int,
    path: Seq<Seq<char>>,
    label: Seq<char>,
    v: VertexId,
)
    requires
        0 <= n <= vertices.len(),
    ensures
        gone_changes(data, vertices, n, path, label, v) == -places(
            n,
            |k: int| loses_neighbor(data, vertices[k], path, label, v),
        ).len(),
    decreases n,
{
    let wanted = |k: int| loses_neighbor(data, vertices[k], path, label, v);
    if n == 0 {
        lemma_no_places(wanted);
    } else {
        gone_vertices_are_logged_at_their_neighbors(data, vertices, n - 1, path, label, v);
        lemma_places_finite(n - 1, wanted);
        lemma_places_step(n, wanted);
        if label_of(data.vertices, vertices[n - 1]) is Some {
            lemma_loses(data, vertices[n - 1], path, label, v);
        }
    }
}

/// The edge type with a label is the first that has it; there is none exactly where none has it.
pub proof fn types_are_found_first(types: Seq<EdgeTypeView>, label: Seq<char>)
    ensures
        match type_of(types, label) {
            Some(found) => exists|i: int|
                #![trigger types[i]]
                0 <= i < types.len() && types[i] == found && found.0 == label && forall|j: int|
                    #![trigger types[j]]
                    0 <= j < i ==> types[j].0 != label,
            None => forall|i: int|
                #![trigger types[i]]
                0 <= i < types.len() ==> types[i].0 != label,
        },
    decreases types.len(),
{
    if types.len() > 0 {
        let n = types.len() - 1;
        let fewer = types.drop_last();
        types_are_found_first(fewer, label);
        match type_of(fewer, label) {
            Some(found) => {
                let i = choose|i: int|
                    #![trigger fewer[i]]
                    0 <= i < fewer.len() && fewer[i] == found && found.0 == label && forall|j: int|
                        #![trigger fewer[j]]
                        0 <= j < i ==> fewer[j].0 != label;
                assert(types[i] == found);
                assert forall|j: int| #![trigger types[j]] 0 <= j < i implies types[j].0 != label by {
                    assert(fewer[j] == types[j]);
                }
            },
            None => {
                assert forall|j: int| #![trigger types[j]] 0 <= j < n implies types[j].0 != label by {
                    assert(fewer[j] == types[j]);
                }
                if types.last().0 == label {
                    assert(types[n] == type_of(types, label)->0);
                }
            },
        }
    }
}

proof fn lemma_planned(vertices: Seq<NewVertex>, label: Seq<char>, id: VertexId)
    ensures
        planned_ids(vertices, label).contains(id) <==> exists|k: int|
            0 <= k < vertices.len() && (#[trigger] vertices[k]).label@ == label && vertices[k].id
                == id,
    decreases vertices.len(),
{
    if vertices.len() > 0 {
        let n = vertices.len() - 1;
        let fewer = vertices.drop_last();
        lemma_planned(fewer, label, id);
        let before = planned_ids(fewer, label);
        let all = planned_ids(vertices, label);
        if before.contains(id) {
            let i = choose|i: int| 0 <= i < before.len() && before[i] == id;
            assert(all[i] == id);
            let k = choose|k: int|
                0 <= k < fewer.len() && (#[trigger] fewer[k]).label@ == label && fewer[k].id == id;
            assert(vertices[k].label@ == label && vertices[k].id == id);
        }
        if vertices[n].label@ == label && vertices[n].id == id {
            assert(all[all.len() - 1] == id);
        }
        if all.contains(id) && !before.contains(id) {
            assert(vertices[n].label@ == label && vertices[n].id == id);
        }
        if exists|k: int|
            0 <= k < vertices.len() && (#[trigger] vertices[k]).label@ == label && vertices[k].id
                == id {
            let k = choose|k: int|
                0 <= k < vertices.len() && (#[trigger] vertices[k]).label@ == label
                    && vertices[k].id == id;
            if k < n {
                assert(fewer[k].label@ == label && fewer[k].id == id);
            }
        }
    }
}

/// A new edge may end at a vertex exactly where a vertex of the data has the label that is asked
/// for, and the vertex has it too: in the data, among those that come, or among those to insert.
pub proof fn new_edges_end_at_vertices_with_the_label(
    data: FlatView,
    pending: PendingView,
    vertices: Seq<NewVertex>,
    label: Seq<char>,
    id: VertexId,
)
    ensures
        ends_for(data, pending, vertices, label).contains(id) <==> {
            &&& exists|p: int|
                0 <= p < data.vertices.len() && (#[trigger] data.vertices[p]).label == label
            &&& ({
                ||| exists|p: int|
                    0 <= p < data.vertices.len() && (#[trigger] data.vertices[p]).label == label
                        && data.vertices[p].id == id
                ||| exists|p: int|
                    0 <= p < pending.inserted_vertices.len() && (
                    #[trigger] pending.inserted_vertices[p]).label == label
                        && pending.inserted_vertices[p].id == id
                ||| exists|k: int|
                    0 <= k < vertices.len() && (#[trigger] vertices[k]).label@ == label
                        && vertices[k].id == id
            })
        },
{
    let old = labelled_ids(data.vertices, label);
    let new = labelled_ids(pending.inserted_vertices, label);
    let planned = planned_ids(vertices, label);
    lemma_labelled(data.vertices, label, id);
    lemma_labelled(pending.inserted_vertices, label, id);
    lemma_planned(vertices, label, id);
    let all = old + new + planned;
    assert(all.contains(id) <==> old.contains(id) || new.contains(id) || planned.contains(id)) by {
        if old.contains(id) {
            let i = choose|i: int| 0 <= i < old.len() && old[i] == id;
            assert(all[i] == id);
        }
        if new.contains(id) {
            let i = choose|i: int| 0 <= i < new.len() && new[i] == id;
            assert(all[old.len() + i] == id);
        }
        if planned.contains(id) {
            let i = choose|i: int| 0 <= i < planned.len() && planned[i] == id;
            assert(all[old.len() + new.len() + i] == id);
        }
        if all.contains(id) {
            let i = choose|i: int| 0 <= i < all.len() && all[i] == id;
            if i < old.len() {
                assert(old[i] == id);
            } else if i < old.len() + new.len() {
                assert(new[i - old.len()] == id);
            } else {
                assert(planned[i - old.len() - new.len()] == id);
            }
        }
    }
    if old.len() > 0 {
        let at = labelled_vertices_are_listed(data.vertices, label);
        assert((|p: int| data.vertices[p].label == label)(at[0]));
        assert(data.vertices[at[0]].label == label);
    }
    if exists|p: int| 0 <= p < data.vertices.len() && (#[trigger] data.vertices[p]).label == label {
        let p = choose|p: int|
            0 <= p < data.vertices.len() && (#[trigger] data.vertices[p]).label == label;
        let at = labelled_vertices_are_listed(data.vertices, label);
        assert((|q: int| data.vertices[q].label == label)(p));
        assert(at.contains(p));
    }
}

proof fn lemma_labelled(
    vertices: Seq<FlatVertexView>,
    label: Seq<char>,
    id: VertexId,
)
    ensures
        labelled_ids(vertices, label).contains(id) <==> exists|p: int|
            0 <= p < vertices.len() && (#[trigger] vertices[p]).label == label && vertices[p].id
                == id,
{
    let ids = labelled_ids(vertices, label);
    let wanted = |p: int| vertices[p].label == label;
    let at = labelled_vertices_are_listed(vertices, label);
    if ids.contains(id) {
        let i = choose|i: int| 0 <= i < ids.len() && ids[i] == id;
        assert(wanted(at[i]));
        assert(vertices[at[i]].id == id);
    }
    if exists|p: int|
        0 <= p < vertices.len() && (#[trigger] vertices[p]).label == label && vertices[p].id == id {
        let p = choose|p: int|
            0 <= p < vertices.len() && (#[trigger] vertices[p]).label == label && vertices[p].id
                == id;
        assert(wanted(p));
        assert(at.contains(p));
        let i = choose|i: int| 0 <= i < at.len() && at[i] == p;
        assert(ids[i] == id);
    }
}

/// Vertices to insert are label by label: those from where the numbers for the labels before
/// add up to, as many as the number for a label, have it.
pub proof fn inserted_vertices_are_label_by_label(
    labels: Seq<Seq<char>>,
    counts: Seq<usize>,
    n: int,
    i: int,
    j: int,
)
    requires
        0 <= i < n <= labels.len(),
        n <= counts.len(),
        0 <= j < counts[i],
    ensures
        label_at(labels, counts, n, sum_of(counts, i) + j) == labels[i],
    decreases n,
{
    if i < n - 1 {
        inserted_vertices_are_label_by_label(labels, counts, n - 1, i, j);
        lemma_sums(counts, i + 1, n - 1);
    }
}

proof fn lemma_sums(counts: Seq<usize>, n: int, m: int)
    requires
        0 <= n <= m <= counts.len(),
    ensures
        sum_of(counts, n) <= sum_of(counts, m),
    decreases m,
{
    if n < m {
        lemma_sums(counts, n, m - 1);
    }
}

} // verus!
