//! Deletion of random vertices and edges.
use crate::catch_up::{is_caught_up, world_for, UpdateError};
use crate::chance::{seeded, shuffle};
use crate::compaction::{compaction_overflows, leaves_of};
use crate::flat::{labelled_ids, FlatEdgeView, FlatGraph, FlatVertexView, FlatView, PendingView};
use crate::pending::{
    edge_ids_of, flat_edges_kept, incident_to, label_of, labels_of, with_changes, IncidentEdge,
    IncidentView,
};
use crate::query::{contains_id, EdgeId, VertexId};
use crate::random_insert::rooms_shrink;
use crate::statistic::{PathKey, Statistic};
use crate::text::label_views;
use crate::update_log::{
    edge_change, edge_head, heads, is_neighbor, one_edge, with_edge_heads, with_head,
    with_neighbor_heads, GCardUpdateLog, Head,
};
use rand::rngs::StdRng;
use vstd::prelude::*;
use vstd::string::*;

verus! {

/// What to delete: the edges that may go, and the vertices.
#[derive(Debug)]
pub struct DeletePlan {
    pub edges: Vec<EdgeId>,
    pub vertices: Vec<VertexId>,
}

/// The ids of the vertices with the first `n` labels, label by label.
pub open spec fn ids_by_label(data: FlatView, labels: Seq<Seq<char>>, n: int) -> Seq<VertexId>
    decreases n,
{
    if n <= 0 {
        Seq::empty()
    } else {
        ids_by_label(data, labels, n - 1) + data.labelled(labels[n - 1])
    }
}

/// Whether ids are some of others, in any order: as many as a number says, or all where there are
/// no more.
pub open spec fn is_random_part(all: Seq<u64>, count: usize, part: Seq<u64>) -> bool {
    exists|order: Seq<u64>| #[trigger]
        order.to_multiset() == all.to_multiset() && part == (if count < order.len() {
            order.take(count as int)
        } else {
            order
        })
}

/// Whether a plan deletes some edges and some vertices: as many as another function says of how
/// many there are.
pub open spec fn is_delete_plan<F: Fn(usize) -> usize>(
    data: FlatView,
    share: F,
    plan: DeletePlan,
) -> bool {
    let ids = edge_ids_of(data.edges);
    let labels = labels_of(data.vertices);
    let vertices = ids_by_label(data, labels, labels.len() as int);
    &&& exists|count: usize| #[trigger]
        share.ensures((ids.len() as usize,), count) && is_random_part(ids, count, plan.edges@)
    &&& exists|count: usize| #[trigger]
        share.ensures((vertices.len() as usize,), count) && is_random_part(
            vertices,
            count,
            plan.vertices@,
        )
}

fn random_part(ids: Vec<u64>, count: usize, rng: &mut StdRng) -> (result: Vec<u64>)
    ensures
        is_random_part(ids@, count, result@),
{
    let mut order: Vec<u64> = ids;
    shuffle(rng, &mut order);
    let ghost whole = order@;
    if count < order.len() {
        order.truncate(count);
        assert(order@ =~= whole.take(count as int));
    }
    assert(whole.to_multiset() == ids@.to_multiset());
    order
}

fn all_ids_by_label(flat_graph: &FlatGraph) -> (result: Vec<VertexId>)
    ensures
        ({
            let labels = labels_of(flat_graph@.vertices);
            result@ == ids_by_label(flat_graph@, labels, labels.len() as int)
        }),
{
    let labels: Vec<String> = flat_graph.all_labels();
    let ghost names = label_views(labels@);
    let mut ids: Vec<VertexId> = Vec::new();
    let mut i: usize = 0;
    while i < labels.len()
        invariant
            names == label_views(labels@),
            i <= labels@.len(),
            ids@ == ids_by_label(flat_graph@, names, i as int),
        decreases labels.len() - i,
    {
        assert(names[i as int] == labels@[i as int]@);
        let mut more: Vec<VertexId> = flat_graph.all_vertex_ids_by_label(labels[i].as_str());
        ids.append(&mut more);
        i = i + 1;
    }
    assert(names.len() == labels@.len());
    ids
}

/// The edges and the vertices to delete.
pub fn plan_deletions<F: Fn(usize) -> usize>(
    flat_graph: &FlatGraph,
    share: &F,
    rng: &mut StdRng,
) -> (result: DeletePlan)
    requires
        forall|n: usize| #[trigger] share.requires((n,)),
    ensures
        is_delete_plan(flat_graph@, *share, result),
{
    let all_edges: Vec<EdgeId> = flat_graph.all_edge_ids();
    let ghost edge_ids = all_edges@;
    let edge_total: usize = all_edges.len();
    let edge_count: usize = share(edge_total);
    assert(share.ensures((edge_ids.len() as usize,), edge_count));
    let edges: Vec<EdgeId> = random_part(all_edges, edge_count, rng);
    let all_vertices: Vec<VertexId> = all_ids_by_label(flat_graph);
    let ghost vertex_ids = all_vertices@;
    let vertex_total: usize = all_vertices.len();
    let vertex_count: usize = share(vertex_total);
    assert(share.ensures((vertex_ids.len() as usize,), vertex_count));
    let vertices: Vec<VertexId> = random_part(all_vertices, vertex_count, rng);
    DeletePlan { edges, vertices }
}

/// Whether an edge goes for itself: it is there, and none of its ends goes.
pub open spec fn goes_alone(data: FlatView, id: EdgeId, vertices: Seq<VertexId>) -> bool {
    data.edge(id) matches Some(e) && !vertices.contains(e.src) && !vertices.contains(e.dst)
}

/// The edges that go for themselves, each of them once.
pub open spec fn lone_edges(
    data: FlatView,
    edges: Seq<EdgeId>,
    vertices: Seq<VertexId>,
    n: int,
) -> Seq<EdgeId>
    decreases n,
{
    if n <= 0 {
        Seq::empty()
    } else {
        let before = lone_edges(data, edges, vertices, n - 1);
        if goes_alone(data, edges[n - 1], vertices) && !before.contains(edges[n - 1]) {
            before.push(edges[n - 1])
        } else {
            before
        }
    }
}

/// Ids with those of the first `n` edges at a vertex, each of them once.
pub open spec fn with_incident(cut: Seq<EdgeId>, incident: Seq<IncidentView>, n: int) -> Seq<EdgeId>
    decreases n,
{
    if n <= 0 {
        cut
    } else {
        let before = with_incident(cut, incident, n - 1);
        if before.contains(incident[n - 1].edge) {
            before
        } else {
            before.push(incident[n - 1].edge)
        }
    }
}

/// The edges that go: some for themselves, and those at the first `n` vertices.
pub open spec fn edges_cut(
    data: FlatView,
    lone: Seq<EdgeId>,
    vertices: Seq<VertexId>,
    n: int,
) -> Seq<EdgeId>
    decreases n,
{
    if n <= 0 {
        lone
    } else {
        let before = edges_cut(data, lone, vertices, n - 1);
        if label_of(data.vertices, vertices[n - 1]) is Some {
            let incident = incident_to(data.edges, vertices[n - 1]);
            with_incident(before, incident, incident.len() as int)
        } else {
            before
        }
    }
}

/// The vertices that go: those of the first `n` that are there.
pub open spec fn vertices_gone(data: FlatView, vertices: Seq<VertexId>, n: int) -> Seq<VertexId>
    decreases n,
{
    if n <= 0 {
        Seq::empty()
    } else {
        let before = vertices_gone(data, vertices, n - 1);
        if label_of(data.vertices, vertices[n - 1]) is Some {
            before.push(vertices[n - 1])
        } else {
            before
        }
    }
}

/// Ids with others, each of which comes once.
pub open spec fn with_new(ids: Seq<VertexId>, more: Seq<VertexId>) -> Seq<VertexId>
    decreases more.len(),
{
    if more.len() == 0 {
        ids
    } else {
        let before = with_new(ids, more.drop_last());
        if before.contains(more.last()) {
            before
        } else {
            before.push(more.last())
        }
    }
}

/// How the first `n` edges that go for themselves change what is logged.
pub open spec fn lone_changes(
    data: FlatView,
    lone: Seq<EdgeId>,
    n: int,
    path: Seq<Seq<char>>,
    label: Seq<char>,
    v: VertexId,
) -> int
    decreases n,
{
    if n <= 0 {
        0
    } else {
        let e = data.edge(lone[n - 1])->0;
        lone_changes(data, lone, n - 1, path, label, v) + edge_change(
            path,
            label,
            v,
            e.src,
            e.src_label,
            e.dst,
            e.dst_label,
            e.label,
            -1,
        )
    }
}

/// Whether a vertex is a neighbor along a path of one edge.
pub open spec fn is_incident_at(
    incident: Seq<IncidentView>,
    path: Seq<Seq<char>>,
    label: Seq<char>,
    v: VertexId,
    u_label: Seq<char>,
) -> bool {
    exists|i: int|
        0 <= i < incident.len() && (#[trigger] incident[i]).neighbor == v
            && incident[i].neighbor_label == label && path == one_edge(
            label,
            incident[i].label,
            u_label,
        )
}

/// How the first `n` vertices that go change what is logged of their neighbors.
pub open spec fn gone_changes(
    data: FlatView,
    vertices: Seq<VertexId>,
    n: int,
    path: Seq<Seq<char>>,
    label: Seq<char>,
    v: VertexId,
) -> int
    decreases n,
{
    if n <= 0 {
        0
    } else {
        gone_changes(data, vertices, n - 1, path, label, v) + (match label_of(
            data.vertices,
            vertices[n - 1],
        ) {
            Some(u_label) => if is_incident_at(
                incident_to(data.edges, vertices[n - 1]),
                path,
                label,
                v,
                u_label,
            ) {
                -1
            } else {
                0
            },
            None => 0int,
        })
    }
}

/// What there are entries for with those for the first `n` edges that go for themselves.
pub open spec fn with_heads_of_lone(
    before: Seq<Head>,
    data: FlatView,
    lone: Seq<EdgeId>,
    n: int,
    res_len: nat,
) -> Seq<Head>
    decreases n,
{
    if n <= 0 {
        before
    } else {
        let e = data.edge(lone[n - 1])->0;
        with_edge_heads(
            with_heads_of_lone(before, data, lone, n - 1, res_len),
            e.src_label,
            e.dst_label,
            e.label,
            res_len,
        )
    }
}

/// What there are entries for with those for the first `n` edges at a vertex that goes, seen from
/// its neighbors.
pub open spec fn with_heads_at(
    before: Seq<Head>,
    incident: Seq<IncidentView>,
    n: int,
    u_label: Seq<char>,
    res_len: nat,
) -> Seq<Head>
    decreases n,
{
    if n <= 0 {
        before
    } else {
        with_head(
            with_heads_at(before, incident, n - 1, u_label, res_len),
            edge_head(incident[n - 1].neighbor_label, incident[n - 1].label, u_label, res_len),
        )
    }
}

/// What there are entries for with those for the first `n` vertices that go.
pub open spec fn with_heads_of_gone(
    before: Seq<Head>,
    data: FlatView,
    vertices: Seq<VertexId>,
    n: int,
    res_len: nat,
) -> Seq<Head>
    decreases n,
{
    if n <= 0 {
        before
    } else {
        let earlier = with_heads_of_gone(before, data, vertices, n - 1, res_len);
        match label_of(data.vertices, vertices[n - 1]) {
            Some(u_label) => {
                let incident = incident_to(data.edges, vertices[n - 1]);
                with_heads_at(earlier, incident, incident.len() as int, u_label, res_len)
            },
            None => earlier,
        }
    }
}

proof fn lemma_same_heads(
    before: Seq<Head>,
    neighbors: Seq<(VertexId, String, String)>,
    views: Seq<IncidentView>,
    n: int,
    u_label: Seq<char>,
    res_len: nat,
)
    requires
        neighbors.len() == views.len(),
        n <= neighbors.len(),
        forall|i: int|
            #![trigger neighbors[i]]
            0 <= i < neighbors.len() ==> neighbors[i].0 == views[i].neighbor && neighbors[i].1@
                == views[i].neighbor_label && neighbors[i].2@ == views[i].label,
    ensures
        with_neighbor_heads(before, neighbors, n, u_label, res_len) == with_heads_at(
            before,
            views,
            n,
            u_label,
            res_len,
        ),
    decreases n,
{
    if n > 0 {
        lemma_same_heads(before, neighbors, views, n - 1, u_label, res_len);
        assert(neighbors[n - 1].1@ == views[n - 1].neighbor_label);
    }
}

proof fn lemma_lone_heads_prefix(
    before: Seq<Head>,
    data: FlatView,
    a: Seq<EdgeId>,
    b: Seq<EdgeId>,
    n: int,
    res_len: nat,
)
    requires
        n <= a.len(),
        n <= b.len(),
        forall|i: int| 0 <= i < n ==> a[i] == b[i],
    ensures
        with_heads_of_lone(before, data, a, n, res_len) == with_heads_of_lone(
            before,
            data,
            b,
            n,
            res_len,
        ),
    decreases n,
{
    if n > 0 {
        lemma_lone_heads_prefix(before, data, a, b, n - 1, res_len);
    }
}

/// Whether deletions were noted in a data graph and logged.
pub open spec fn is_deletion_noted(
    before: FlatGraph,
    log_before: GCardUpdateLog,
    plan: DeletePlan,
    after: FlatGraph,
    log_after: GCardUpdateLog,
) -> bool {
    let data = before@;
    let edges = plan.edges@;
    let vertices = plan.vertices@;
    let n = vertices.len() as int;
    let lone = lone_edges(data, edges, vertices, edges.len() as int);
    &&& after@ == data
    &&& after.pending@ == (PendingView {
        deleted_edge_ids: before.pending@.deleted_edge_ids + edges_cut(data, lone, vertices, n),
        deleted_vertices: before.pending@.deleted_vertices + vertices_gone(data, vertices, n),
        ..before.pending@
    })
    &&& log_after.max_k == log_before.max_k
    &&& log_after.deleted_vertices@ == with_new(
        log_before.deleted_vertices@,
        vertices_gone(data, vertices, n),
    )
    &&& forall|p: Seq<Seq<char>>, l: Seq<char>, r: nat, x: VertexId| #[trigger]
        log_after.change(p, l, r, x) == log_before.change(p, l, r, x) + (if r
            == log_before.growth() {
            lone_changes(data, lone, lone.len() as int, p, l, x) + gone_changes(
                data,
                vertices,
                n,
                p,
                l,
                x,
            )
        } else {
            0
        })
    &&& heads(log_after.entries@) == with_heads_of_gone(
        with_heads_of_lone(
            heads(log_before.entries@),
            data,
            lone,
            lone.len() as int,
            log_before.growth(),
        ),
        data,
        vertices,
        n,
        log_before.growth(),
    )
}

proof fn lemma_lone_changes_prefix(
    data: FlatView,
    a: Seq<EdgeId>,
    b: Seq<EdgeId>,
    n: int,
    path: Seq<Seq<char>>,
    label: Seq<char>,
    v: VertexId,
)
    requires
        n <= a.len(),
        n <= b.len(),
        forall|i: int| 0 <= i < n ==> a[i] == b[i],
    ensures
        lone_changes(data, a, n, path, label, v) == lone_changes(data, b, n, path, label, v),
    decreases n,
{
    if n > 0 {
        lemma_lone_changes_prefix(data, a, b, n - 1, path, label, v);
    }
}

fn note_lone_edges(flat_graph: &mut FlatGraph, log: &mut GCardUpdateLog, plan: &DeletePlan) -> (result:
    Vec<EdgeId>)
    requires
        old(log).wf(),
        old(log).has_room(2 * plan.edges@.len() + plan.vertices@.len()),
        2 * plan.edges@.len() + plan.vertices@.len() <= i64::MAX,
    ensures
        final(log).wf(),
        final(log).has_room(plan.vertices@.len()),
        ({
            let data = old(flat_graph)@;
            let lone = lone_edges(data, plan.edges@, plan.vertices@, plan.edges@.len() as int);
            &&& result@ == lone
            &&& final(flat_graph)@ == data
            &&& final(flat_graph).pending@ == (PendingView {
                deleted_edge_ids: old(flat_graph).pending@.deleted_edge_ids + lone,
                ..old(flat_graph).pending@
            })
            &&& final(log).max_k == old(log).max_k
            &&& final(log).deleted_vertices == old(log).deleted_vertices
            &&& forall|p: Seq<Seq<char>>, l: Seq<char>, r: nat, x: VertexId| #[trigger]
                final(log).change(p, l, r, x) == old(log).change(p, l, r, x) + (if r
                    == old(log).growth() {
                    lone_changes(data, lone, lone.len() as int, p, l, x)
                } else {
                    0
                })
            &&& heads(final(log).entries@) == with_heads_of_lone(
                heads(old(log).entries@),
                data,
                lone,
                lone.len() as int,
                old(log).growth(),
            )
        }),
{
    let ghost start = *flat_graph;
    let ghost log_start = *log;
    let ghost data = start@;
    let ghost edges = plan.edges@;
    let ghost vertices = plan.vertices@;
    let mut lone: Vec<EdgeId> = Vec::new();
    let mut i: usize = 0;
    assert(start.pending@.deleted_edge_ids + lone@ =~= start.pending@.deleted_edge_ids);
    proof {
        assert forall|p: Seq<Seq<char>>, l: Seq<char>, r: nat, x: VertexId| #[trigger]
            log.change(p, l, r, x) == log_start.change(p, l, r, x) + (if r
                == log_start.growth() {
                lone_changes(data, lone@, 0, p, l, x)
            } else {
                0
            }) by {}
    }
    while i < plan.edges.len()
        invariant
            data == start@,
            edges == plan.edges@,
            vertices == plan.vertices@,
            2 * edges.len() + vertices.len() <= i64::MAX,
            i <= edges.len(),
            lone@ == lone_edges(data, edges, vertices, i as int),
            flat_graph@ == data,
            flat_graph.pending@ == (PendingView {
                deleted_edge_ids: start.pending@.deleted_edge_ids + lone@,
                ..start.pending@
            }),
            log.wf(),
            log.max_k == log_start.max_k,
            log.deleted_vertices == log_start.deleted_vertices,
            log.has_room((2 * (edges.len() - i) + vertices.len()) as nat),
            forall|p: Seq<Seq<char>>, l: Seq<char>, r: nat, x: VertexId| #[trigger]
                log.change(p, l, r, x) == log_start.change(p, l, r, x) + (if r
                    == log_start.growth() {
                    lone_changes(data, lone@, lone@.len() as int, p, l, x)
                } else {
                    0
                }),
            heads(log.entries@) == with_heads_of_lone(
                heads(log_start.entries@),
                data,
                lone@,
                lone@.len() as int,
                log_start.growth(),
            ),
        decreases plan.edges.len() - i,
    {
        let id: EdgeId = plan.edges[i];
        let ghost room = (2 * (edges.len() - i) + vertices.len()) as nat;
        let ghost less = (2 * (edges.len() - (i + 1)) + vertices.len()) as nat;
        let ghost log_before = *log;
        let ghost lone_before = lone@;
        let mut taken: bool = false;
        if let Some(e) = flat_graph.edge_endpoints(id) {
            if !contains_id(&plan.vertices, e.src) && !contains_id(&plan.vertices, e.dst) && !contains_id(
                &lone,
                id,
            ) {
                proof {
                    rooms_shrink(*log, room, 2);
                }
                log.record_delete_edge(
                    e.src,
                    e.src_label.as_str(),
                    e.dst,
                    e.dst_label.as_str(),
                    e.label.as_str(),
                );
                taken = true;
            }
        }
        if taken {
            flat_graph.record_delete_edge(id);
            lone.push(id);
            proof {
                assert(less + 2 == room);
                assert(log.has_room(less));
                assert(start.pending@.deleted_edge_ids + lone@ =~= (start.pending@.deleted_edge_ids
                    + lone_before).push(id));
                let n = lone_before.len() as int;
                lemma_lone_heads_prefix(
                    heads(log_start.entries@),
                    data,
                    lone_before,
                    lone@,
                    n,
                    log_start.growth(),
                );
                assert forall|p: Seq<Seq<char>>, l: Seq<char>, r: nat, x: VertexId| #[trigger]
                    log.change(p, l, r, x) == log_start.change(p, l, r, x) + (if r
                        == log_start.growth() {
                        lone_changes(data, lone@, lone@.len() as int, p, l, x)
                    } else {
                        0
                    }) by {
                    lemma_lone_changes_prefix(data, lone_before, lone@, n, p, l, x);
                    assert(log_before.change(p, l, r, x) == log_start.change(p, l, r, x) + (if r
                        == log_start.growth() {
                        lone_changes(data, lone_before, n, p, l, x)
                    } else {
                        0
                    }));
                }
            }
        } else {
            proof {
                rooms_shrink(*log, room, less);
            }
        }
        i = i + 1;
    }
    lone
}

fn neighbors_from(incident: &Vec<IncidentEdge>) -> (result: Vec<(VertexId, String, String)>)
    ensures
        result@.len() == incident@.len(),
        forall|i: int|
            #![trigger result@[i]]
            0 <= i < result@.len() ==> result@[i].0 == incident@[i]@.neighbor && result@[i].1@
                == incident@[i]@.neighbor_label && result@[i].2@ == incident@[i]@.label,
{
    let mut result: Vec<(VertexId, String, String)> = Vec::new();
    let mut i: usize = 0;
    while i < incident.len()
        invariant
            i <= incident@.len(),
            result@.len() == i,
            forall|j: int|
                #![trigger result@[j]]
                0 <= j < i ==> result@[j].0 == incident@[j]@.neighbor && result@[j].1@
                    == incident@[j]@.neighbor_label && result@[j].2@ == incident@[j]@.label,
        decreases incident.len() - i,
    {
        let e: &IncidentEdge = &incident[i];
        result.push(
            (e.neighbor, e.neighbor_label.as_str().to_owned(), e.label.as_str().to_owned()),
        );
        i = i + 1;
    }
    result
}

fn cut_incident(
    flat_graph: &mut FlatGraph,
    cut: &mut Vec<EdgeId>,
    incident: &Vec<IncidentEdge>,
    Ghost(views): Ghost<Seq<IncidentView>>,
    Ghost(base): Ghost<Seq<EdgeId>>,
)
    requires
        views == incident@.map_values(|e: IncidentEdge| e@),
        old(flat_graph).pending@.deleted_edge_ids == base + old(cut)@,
    ensures
        final(flat_graph)@ == old(flat_graph)@,
        final(cut)@ == with_incident(old(cut)@, views, views.len() as int),
        final(flat_graph).pending@ == (PendingView {
            deleted_edge_ids: base + final(cut)@,
            ..old(flat_graph).pending@
        }),
{
    let ghost start = *flat_graph;
    let ghost cut_start = cut@;
    let mut i: usize = 0;
    while i < incident.len()
        invariant
            views == incident@.map_values(|e: IncidentEdge| e@),
            i <= incident@.len(),
            flat_graph@ == start@,
            cut@ == with_incident(cut_start, views, i as int),
            flat_graph.pending@ == (PendingView {
                deleted_edge_ids: base + cut@,
                ..start.pending@
            }),
        decreases incident.len() - i,
    {
        let id: EdgeId = incident[i].edge;
        assert(views[i as int] == incident@[i as int]@);
        if !contains_id(cut, id) {
            let ghost before = cut@;
            cut.push(id);
            flat_graph.record_delete_edge(id);
            assert(base + cut@ =~= (base + before).push(id));
        }
        i = i + 1;
    }
    assert(views.len() == incident@.len());
}

proof fn lemma_same_neighbors(
    neighbors: Seq<(VertexId, String, String)>,
    views: Seq<IncidentView>,
    path: Seq<Seq<char>>,
    label: Seq<char>,
    v: VertexId,
    u_label: Seq<char>,
)
    requires
        neighbors.len() == views.len(),
        forall|i: int|
            #![trigger neighbors[i]]
            0 <= i < neighbors.len() ==> neighbors[i].0 == views[i].neighbor && neighbors[i].1@
                == views[i].neighbor_label && neighbors[i].2@ == views[i].label,
    ensures
        is_neighbor(neighbors, neighbors.len() as int, path, label, v, u_label) == is_incident_at(
            views,
            path,
            label,
            v,
            u_label,
        ),
{
    if is_neighbor(neighbors, neighbors.len() as int, path, label, v, u_label) {
        let i = choose|i: int|
            0 <= i < neighbors.len() && (#[trigger] neighbors[i]).0 == v && neighbors[i].1@ == label
                && path == one_edge(label, neighbors[i].2@, u_label);
        assert(views[i].neighbor == v);
    }
    if is_incident_at(views, path, label, v, u_label) {
        let i = choose|i: int|
            0 <= i < views.len() && (#[trigger] views[i]).neighbor == v && views[i].neighbor_label
                == label && path == one_edge(label, views[i].label, u_label);
        assert(neighbors[i].0 == v);
    }
}

/// Notes deletions in a data graph, and logs them. It is said how many edges and vertices go.
pub fn note_deletions(flat_graph: &mut FlatGraph, log: &mut GCardUpdateLog, plan: &DeletePlan) -> (result:
    (usize, usize))
    requires
        old(log).wf(),
        old(log).has_room(2 * plan.edges@.len() + plan.vertices@.len()),
        2 * plan.edges@.len() + plan.vertices@.len() <= i64::MAX,
    ensures
        final(log).wf(),
        is_deletion_noted(*old(flat_graph), *old(log), *plan, *final(flat_graph), *final(log)),
        ({
            let data = old(flat_graph)@;
            let lone = lone_edges(data, plan.edges@, plan.vertices@, plan.edges@.len() as int);
            let n = plan.vertices@.len() as int;
            result.0 == edges_cut(data, lone, plan.vertices@, n).len() && result.1
                == vertices_gone(data, plan.vertices@, n).len()
        }),
{
    let ghost start = *flat_graph;
    let ghost log_start = *log;
    let ghost data = start@;
    let ghost vertices = plan.vertices@;
    let ghost base = start.pending@.deleted_edge_ids;
    let mut cut: Vec<EdgeId> = note_lone_edges(flat_graph, log, plan);
    let ghost lone = cut@;
    let ghost log_middle = *log;
    let mut gone: usize = 0;
    let mut i: usize = 0;
    proof {
        assert(start.pending@.deleted_vertices + vertices_gone(data, vertices, 0)
            =~= start.pending@.deleted_vertices);
        assert forall|p: Seq<Seq<char>>, l: Seq<char>, r: nat, x: VertexId| #[trigger]
            log.change(p, l, r, x) == log_middle.change(p, l, r, x) + (if r
                == log_middle.growth() {
                gone_changes(data, vertices, 0, p, l, x)
            } else {
                0
            }) by {}
    }
    while i < plan.vertices.len()
        invariant
            data == start@,
            vertices == plan.vertices@,
            base == start.pending@.deleted_edge_ids,
            vertices.len() <= i64::MAX,
            i <= vertices.len(),
            cut@ == edges_cut(data, lone, vertices, i as int),
            gone == vertices_gone(data, vertices, i as int).len(),
            gone <= i,
            flat_graph@ == data,
            flat_graph.pending@ == (PendingView {
                deleted_edge_ids: base + cut@,
                deleted_vertices: start.pending@.deleted_vertices + vertices_gone(
                    data,
                    vertices,
                    i as int,
                ),
                ..start.pending@
            }),
            log.wf(),
            log.max_k == log_middle.max_k,
            log.deleted_vertices@ == with_new(
                log_start.deleted_vertices@,
                vertices_gone(data, vertices, i as int),
            ),
            log.has_room((vertices.len() - i) as nat),
            forall|p: Seq<Seq<char>>, l: Seq<char>, r: nat, x: VertexId| #[trigger]
                log.change(p, l, r, x) == log_middle.change(p, l, r, x) + (if r
                    == log_middle.growth() {
                    gone_changes(data, vertices, i as int, p, l, x)
                } else {
                    0
                }),
            heads(log.entries@) == with_heads_of_gone(
                heads(log_middle.entries@),
                data,
                vertices,
                i as int,
                log_middle.growth(),
            ),
        decreases plan.vertices.len() - i,
    {
        let v: VertexId = plan.vertices[i];
        let ghost log_before = *log;
        let ghost room = (vertices.len() - i) as nat;
        let ghost less = (vertices.len() - (i + 1)) as nat;
        let ghost gone_before = vertices_gone(data, vertices, i as int);
        let label: Option<String> = match flat_graph.vertex_label(v) {
            Some(label) => Some(label.as_str().to_owned()),
            None => None,
        };
        match label {
            None => {
                proof {
                    rooms_shrink(*log, room, less);
                    assert forall|p: Seq<Seq<char>>, l: Seq<char>, r: nat, x: VertexId| #[trigger]
                        log.change(p, l, r, x) == log_middle.change(p, l, r, x) + (if r
                            == log_middle.growth() {
                            gone_changes(data, vertices, i + 1, p, l, x)
                        } else {
                            0
                        }) by {}
                }
            },
            Some(label) => {
                let incident: Vec<IncidentEdge> = flat_graph.incident_edges(v);
                let ghost views = incident_to(data.edges, v);
                let neighbors: Vec<(VertexId, String, String)> = neighbors_from(&incident);
                proof {
                    rooms_shrink(*log, room, 1);
                    assert(views.len() == incident@.len());
                    assert forall|k: int|
                        #![trigger neighbors@[k]]
                        0 <= k < neighbors@.len() implies neighbors@[k].0 == views[k].neighbor
                        && neighbors@[k].1@ == views[k].neighbor_label && neighbors@[k].2@
                        == views[k].label by {
                        assert(views[k] == incident@[k]@);
                    }
                }
                log.record_delete_vertex(v, label.as_str(), &neighbors);
                cut_incident(flat_graph, &mut cut, &incident, Ghost(views), Ghost(base));
                flat_graph.record_delete_vertex(v);
                gone = gone + 1;
                proof {
                    let gone_now = vertices_gone(data, vertices, i + 1);
                    assert(gone_now.drop_last() =~= gone_before);
                    assert(start.pending@.deleted_vertices + gone_now
                        =~= (start.pending@.deleted_vertices + gone_before).push(v));
                    assert(less + 1 == room);
                    assert(log.has_room(less));
                    lemma_same_heads(
                        heads(log_before.entries@),
                        neighbors@,
                        views,
                        views.len() as int,
                        label@,
                        log_middle.growth(),
                    );
                    assert forall|p: Seq<Seq<char>>, l: Seq<char>, r: nat, x: VertexId| #[trigger]
                        log.change(p, l, r, x) == log_middle.change(p, l, r, x) + (if r
                            == log_middle.growth() {
                            gone_changes(data, vertices, i + 1, p, l, x)
                        } else {
                            0
                        }) by {
                        lemma_same_neighbors(neighbors@, views, p, l, x, label@);
                        assert(log_before.change(p, l, r, x) == log_middle.change(p, l, r, x) + (
                        if r == log_middle.growth() {
                            gone_changes(data, vertices, i as int, p, l, x)
                        } else {
                            0
                        }));
                    }
                }
            },
        }
        i = i + 1;
    }
    (cut.len(), gone)
}

/// What came of a deletion: how many edges and vertices went, and which paths have other degrees,
/// each with a label.
#[derive(Debug)]
pub struct DeleteReport {
    pub deleted_edges: usize,
    pub deleted_vertices: usize,
    pub dirty: Vec<PathKey>,
}

/// Deletes random vertices and edges, and brings the degrees up to date. Another function says of
/// how many there are how many are to go.
pub fn do_random_update<F: Fn(usize) -> usize>(
    flat_graph: &mut FlatGraph,
    log: &mut GCardUpdateLog,
    statistic: &mut Statistic,
    share: &F,
    seed: u64,
) -> (result: Result<DeleteReport, UpdateError>)
    requires
        old(log).wf(),
        old(statistic).wf(),
        old(log).has_room(2 * old(flat_graph)@.edges.len() + old(flat_graph)@.vertices.len()),
        2 * old(flat_graph)@.edges.len() + old(flat_graph)@.vertices.len() <= i64::MAX,
        forall|n: usize| #[trigger] share.requires((n,)),
    ensures
        final(log).wf(),
        final(statistic).wf(),
        old(statistic).index_is_complete() ==> final(statistic).index_is_complete(),
        exists|plan: DeletePlan, graph: FlatGraph, noted: GCardUpdateLog| #[trigger]
            is_deletion_noted(*old(flat_graph), *old(log), plan, graph, noted) && is_delete_plan(
                old(flat_graph)@,
                *share,
                plan,
            ) && match result {
                Ok(report) => {
                    let data = old(flat_graph)@;
                    let n = plan.vertices@.len() as int;
                    let lone = lone_edges(
                        data,
                        plan.edges@,
                        plan.vertices@,
                        plan.edges@.len() as int,
                    );
                    &&& report.deleted_edges == edges_cut(data, lone, plan.vertices@, n).len()
                    &&& report.deleted_vertices == vertices_gone(data, plan.vertices@, n).len()
                    &&& is_caught_up(
                        old(statistic).labels(),
                        leaves_of(
                            world_for(graph, noted),
                            noted.entries@,
                            noted.entries@.len() as int,
                        ),
                        noted.deleted_vertices@,
                        final(statistic).labels(),
                        report.dirty@,
                    )
                    &&& final(flat_graph)@ == with_changes(graph@, graph.pending@)
                    &&& final(flat_graph).pending@ == PendingView::nothing()
                    &&& final(log).entries@.len() == 0
                    &&& final(log).deleted_vertices@.len() == 0
                },
                Err(error) => {
                    &&& compaction_overflows(world_for(graph, noted), noted.entries@)
                    &&& *final(flat_graph) == graph
                    &&& *final(log) == noted
                    &&& *final(statistic) == *old(statistic)
                },
            },
{
    let ghost graph_start = *flat_graph;
    let ghost log_start = *log;
    let mut rng: StdRng = seeded(seed);
    let plan: DeletePlan = plan_deletions(flat_graph, share, &mut rng);
    proof {
        lemma_plan_is_small(graph_start@, *share, plan);
        rooms_shrink(
            log_start,
            2 * graph_start@.edges.len() + graph_start@.vertices.len(),
            2 * plan.edges@.len() + plan.vertices@.len(),
        );
    }
    let (deleted_edges, deleted_vertices) = note_deletions(flat_graph, log, &plan);
    let ghost graph = *flat_graph;
    let ghost noted = *log;
    assert(is_deletion_noted(graph_start, log_start, plan, graph, noted));
    match log.compact_and_apply_flat(flat_graph, statistic) {
        Ok(dirty) => {
            flat_graph.apply_pending();
            Ok(DeleteReport { deleted_edges, deleted_vertices, dirty })
        },
        Err(error) => Err(error),
    }
}

proof fn lemma_part_is_small(all: Seq<u64>, count: usize, part: Seq<u64>)
    requires
        is_random_part(all, count, part),
    ensures
        part.len() <= all.len(),
{
    broadcast use vstd::seq_lib::group_to_multiset_ensures;

    let order = choose|order: Seq<u64>| #[trigger]
        order.to_multiset() == all.to_multiset() && part == (if count < order.len() {
            order.take(count as int)
        } else {
            order
        });
    assert(order.len() == order.to_multiset().len());
    assert(all.len() == all.to_multiset().len());
}

proof fn lemma_labels_partition(vertices: Seq<FlatVertexView>, labels: Seq<Seq<char>>, n: int)
    requires
        labels.no_duplicates(),
        0 <= n <= labels.len(),
    ensures
        labelled_total(vertices, labels, n) <= vertices.len(),
    decreases vertices.len(),
{
    if vertices.len() == 0 {
        assert(vertices =~= Seq::empty());
        lemma_none_labelled(labels, n);
    } else {
        lemma_labels_partition(vertices.drop_last(), labels, n);
        lemma_one_more_labelled(vertices, labels, n);
    }
}

/// How many vertices have one of the first `n` labels, label by label.
pub open spec fn labelled_total(
    vertices: Seq<FlatVertexView>,
    labels: Seq<Seq<char>>,
    n: int,
) -> nat
    decreases n,
{
    if n <= 0 {
        0
    } else {
        labelled_total(vertices, labels, n - 1) + labelled_ids(vertices, labels[n - 1]).len()
    }
}

proof fn lemma_none_labelled(labels: Seq<Seq<char>>, n: int)
    ensures
        labelled_total(Seq::empty(), labels, n) == 0,
    decreases n,
{
    if n > 0 {
        lemma_none_labelled(labels, n - 1);
    }
}

proof fn lemma_one_more_labelled(vertices: Seq<FlatVertexView>, labels: Seq<Seq<char>>, n: int)
    requires
        vertices.len() > 0,
        labels.no_duplicates(),
        0 <= n <= labels.len(),
    ensures
        labelled_total(vertices, labels, n) <= labelled_total(vertices.drop_last(), labels, n) + 1,
        (forall|i: int| 0 <= i < n ==> labels[i] != vertices.last().label) ==> labelled_total(
            vertices,
            labels,
            n,
        ) == labelled_total(vertices.drop_last(), labels, n),
    decreases n,
{
    if n > 0 {
        lemma_one_more_labelled(vertices, labels, n - 1);
        if labels[n - 1] == vertices.last().label {
            assert forall|i: int| 0 <= i < n - 1 implies labels[i] != vertices.last().label by {
                assert(labels[i] != labels[n - 1]);
            }
        }
    }
}

proof fn lemma_labels_distinct(vertices: Seq<FlatVertexView>)
    ensures
        labels_of(vertices).no_duplicates(),
    decreases vertices.len(),
{
    if vertices.len() > 0 {
        lemma_labels_distinct(vertices.drop_last());
    }
}

proof fn lemma_ids_by_label_len(data: FlatView, labels: Seq<Seq<char>>, n: int)
    ensures
        ids_by_label(data, labels, n).len() == labelled_total(data.vertices, labels, n),
    decreases n,
{
    if n > 0 {
        lemma_ids_by_label_len(data, labels, n - 1);
    }
}

proof fn lemma_plan_is_small<F: Fn(usize) -> usize>(data: FlatView, share: F, plan: DeletePlan)
    requires
        is_delete_plan(data, share, plan),
    ensures
        plan.edges@.len() <= data.edges.len(),
        plan.vertices@.len() <= data.vertices.len(),
{
    let ids = edge_ids_of(data.edges);
    let labels = labels_of(data.vertices);
    let vertices = ids_by_label(data, labels, labels.len() as int);
    let a = choose|count: usize| #[trigger]
        share.ensures((ids.len() as usize,), count) && is_random_part(ids, count, plan.edges@);
    lemma_part_is_small(ids, a, plan.edges@);
    let b = choose|count: usize| #[trigger]
        share.ensures((vertices.len() as usize,), count) && is_random_part(
            vertices,
            count,
            plan.vertices@,
        );
    lemma_part_is_small(vertices, b, plan.vertices@);
    lemma_labels_distinct(data.vertices);
    lemma_ids_by_label_len(data, labels, labels.len() as int);
    lemma_labels_partition(data.vertices, labels, labels.len() as int);
}

proof fn lemma_incident_listed(edges: Seq<FlatEdgeView>, v: VertexId, i: int)
    requires
        0 <= i < edges.len(),
        edges[i].src == v || edges[i].dst == v,
    ensures
        exists|k: int|
            0 <= k < incident_to(edges, v).len() && (#[trigger] incident_to(edges, v)[k]).edge
                == edges[i].id,
    decreases edges.len(),
{
    let all = incident_to(edges, v);
    let before = incident_to(edges.drop_last(), v);
    if i == edges.len() - 1 {
        assert(all[all.len() - 1].edge == edges[i].id);
    } else {
        lemma_incident_listed(edges.drop_last(), v, i);
        let k = choose|k: int|
            0 <= k < before.len() && (#[trigger] before[k]).edge == edges.drop_last()[i].id;
        assert(all[k] == before[k]);
    }
}

proof fn lemma_with_incident(cut: Seq<EdgeId>, incident: Seq<IncidentView>, n: int)
    requires
        0 <= n <= incident.len(),
    ensures
        forall|id: EdgeId| cut.contains(id) ==> #[trigger] with_incident(cut, incident, n).contains(
            id,
        ),
        forall|k: int|
            0 <= k < n ==> with_incident(cut, incident, n).contains((#[trigger] incident[k]).edge),
    decreases n,
{
    if n > 0 {
        lemma_with_incident(cut, incident, n - 1);
        let before = with_incident(cut, incident, n - 1);
        let after = with_incident(cut, incident, n);
        assert forall|id: EdgeId| before.contains(id) implies #[trigger] after.contains(id) by {
            let j = choose|j: int| 0 <= j < before.len() && before[j] == id;
            assert(after[j] == id);
        }
        assert(after.contains(incident[n - 1].edge)) by {
            if !before.contains(incident[n - 1].edge) {
                assert(after[before.len() as int] == incident[n - 1].edge);
            }
        }
        assert forall|k: int| 0 <= k < n implies after.contains(
            (#[trigger] incident[k]).edge,
        ) by {
            if k < n - 1 {
                assert(before.contains(incident[k].edge));
            }
        }
    }
}

proof fn lemma_cut_grows(
    data: FlatView,
    lone: Seq<EdgeId>,
    vertices: Seq<VertexId>,
    n: int,
    m: int,
)
    requires
        0 <= n <= m,
    ensures
        forall|id: EdgeId|
            edges_cut(data, lone, vertices, n).contains(id) ==> #[trigger] edges_cut(
                data,
                lone,
                vertices,
                m,
            ).contains(id),
    decreases m,
{
    if n < m {
        lemma_cut_grows(data, lone, vertices, n, m - 1);
        let incident = incident_to(data.edges, vertices[m - 1]);
        let before = edges_cut(data, lone, vertices, m - 1);
        lemma_with_incident(before, incident, incident.len() as int);
        assert forall|id: EdgeId| edges_cut(data, lone, vertices, n).contains(id) implies
            #[trigger] edges_cut(data, lone, vertices, m).contains(id) by {
            assert(before.contains(id));
        }
    }
}

proof fn lemma_gone_from(data: FlatView, vertices: Seq<VertexId>, n: int, v: VertexId) -> (i: int)
    requires
        0 <= n <= vertices.len(),
        vertices_gone(data, vertices, n).contains(v),
    ensures
        0 <= i < n,
        vertices[i] == v,
        label_of(data.vertices, v) is Some,
    decreases n,
{
    let all = vertices_gone(data, vertices, n);
    let before = vertices_gone(data, vertices, n - 1);
    let k = choose|k: int| 0 <= k < all.len() && all[k] == v;
    if k < before.len() {
        assert(before[k] == v);
        lemma_gone_from(data, vertices, n - 1, v)
    } else {
        n - 1
    }
}

/// All edges at a vertex that goes are among those that go.
pub proof fn edges_go_with_vertices(
    data: FlatView,
    lone: Seq<EdgeId>,
    vertices: Seq<VertexId>,
    v: VertexId,
    i: int,
)
    requires
        vertices_gone(data, vertices, vertices.len() as int).contains(v),
        0 <= i < data.edges.len(),
        data.edges[i].src == v || data.edges[i].dst == v,
    ensures
        edges_cut(data, lone, vertices, vertices.len() as int).contains(data.edges[i].id),
{
    let n = lemma_gone_from(data, vertices, vertices.len() as int, v);
    let incident = incident_to(data.edges, v);
    lemma_incident_listed(data.edges, v, i);
    let k = choose|k: int|
        0 <= k < incident.len() && (#[trigger] incident[k]).edge == data.edges[i].id;
    lemma_with_incident(
        edges_cut(data, lone, vertices, n),
        incident,
        incident.len() as int,
    );
    assert(edges_cut(data, lone, vertices, n + 1).contains(incident[k].edge));
    lemma_cut_grows(data, lone, vertices, n + 1, vertices.len() as int);
}

proof fn lemma_kept_edge(edges: Seq<FlatEdgeView>, deleted: Seq<EdgeId>, k: int) -> (i: int)
    requires
        0 <= k < flat_edges_kept(edges, deleted).len(),
    ensures
        0 <= i < edges.len(),
        edges[i] == flat_edges_kept(edges, deleted)[k],
        !deleted.contains(edges[i].id),
    decreases edges.len(),
{
    let before = flat_edges_kept(edges.drop_last(), deleted);
    if k < before.len() {
        lemma_kept_edge(edges.drop_last(), deleted, k)
    } else {
        edges.len() - 1
    }
}

/// When the deletions are made, no edge is left at a vertex that went.
pub proof fn no_edge_hangs(
    before: FlatGraph,
    log_before: GCardUpdateLog,
    plan: DeletePlan,
    after: FlatGraph,
    log_after: GCardUpdateLog,
    k: int,
)
    requires
        before.pending@ == PendingView::nothing(),
        is_deletion_noted(before, log_before, plan, after, log_after),
        0 <= k < with_changes(after@, after.pending@).edges.len(),
    ensures
        ({
            let e = with_changes(after@, after.pending@).edges[k];
            let gone = vertices_gone(before@, plan.vertices@, plan.vertices@.len() as int);
            !gone.contains(e.src) && !gone.contains(e.dst)
        }),
{
    let data = before@;
    let all = after@.edges + after.pending@.inserted_edges;
    assert(all =~= data.edges);
    let i = lemma_kept_edge(all, after.pending@.deleted_edge_ids, k);
    let e = data.edges[i];
    let lone = lone_edges(data, plan.edges@, plan.vertices@, plan.edges@.len() as int);
    let cut = edges_cut(data, lone, plan.vertices@, plan.vertices@.len() as int);
    let gone = vertices_gone(data, plan.vertices@, plan.vertices@.len() as int);
    assert(after.pending@.deleted_edge_ids =~= cut);
    if gone.contains(e.src) {
        edges_go_with_vertices(data, lone, plan.vertices@, e.src, i);
    }
    if gone.contains(e.dst) {
        edges_go_with_vertices(data, lone, plan.vertices@, e.dst, i);
    }
}

/// Some of ids in any order are as many as were asked for, or all of them; none of them occurs more
/// often than among the ids.
pub proof fn random_parts_are_parts(all: Seq<u64>, count: usize, part: Seq<u64>, id: u64)
    requires
        is_random_part(all, count, part),
    ensures
        part.len() == count || part.len() == all.len() < count,
        part.len() <= all.len(),
        part.to_multiset().count(id) <= all.to_multiset().count(id),
        part.contains(id) ==> all.contains(id),
{
    broadcast use vstd::seq_lib::group_to_multiset_ensures;

    let order = choose|order: Seq<u64>| #[trigger]
        order.to_multiset() == all.to_multiset() && part == (if count < order.len() {
            order.take(count as int)
        } else {
            order
        });
    assert(order.len() == order.to_multiset().len());
    assert(all.len() == all.to_multiset().len());
    if count < order.len() {
        let rest = order.skip(count as int);
        assert(order =~= part + rest);
        vstd::seq_lib::lemma_multiset_commutative(part, rest);
        assert(order.to_multiset() == part.to_multiset().add(rest.to_multiset()));
    }
    if part.contains(id) {
        assert(part.to_multiset().count(id) > 0);
        assert(all.to_multiset().count(id) > 0);
    }
}

} // verus!
