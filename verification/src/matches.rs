//! What a complete walk is: a match of the query in the data.
use crate::counting::{lemma_no_places, lemma_places_finite, lemma_places_step, places};
use crate::embeddings::far_end_of;
use crate::flat::{hops_along, passes, resolution, schema_of, FlatView, ResolvedView};
use crate::lookups::{
    are_names_of, conditions_say_what_predicates_say, edges_are_found, is_first_edge,
    labelled_edges_are_listed, labelled_vertices_are_listed, lemma_listed_count,
    neighbors_are_other_ends, property_meets,
};
use crate::order::{sorted, sorting_orders_the_values};
use crate::pending::label_of;
use crate::query::{
    lemma_edge_at, lemma_vertex_at, EdgeId, EdgeView, GraphView, PredicateView, VertexId,
    VertexView,
};
use crate::value::ScalarValue;
use crate::wander_join::{
    edge_nodes, joins_between, matches_are_joined, query_nodes, vertex_nodes, NodeView,
};
use crate::wander_plans::{is_visited, is_wander_plan, WanderJoinJoin, WanderView};
use crate::wander_sampling::{
    are_draws, bound_at, edge_bindings, is_draw_at, is_wander_sample, join_holds, meets_node,
    next_bindings, node_at, place_among, start_at, start_count, WanderJoinBinding, WanderJoinDraw,
    WanderJoinSample,
};
use vstd::prelude::*;

verus! {

/// Whether no id is that of two edges of the data.
pub open spec fn edge_ids_are_distinct(data: FlatView) -> bool {
    forall|i: int, j: int|
        #![trigger data.edges[i], data.edges[j]]
        0 <= i < j < data.edges.len() ==> data.edges[i].id != data.edges[j].id
}

proof fn lemma_edge_is_found(data: FlatView, p: int)
    requires
        edge_ids_are_distinct(data),
        0 <= p < data.edges.len(),
    ensures
        data.edge(data.edges[p].id) == Some(data.edges[p]),
{
    let id = data.edges[p].id;
    edges_are_found(data, id);
    if data.edge(id) is None {
        assert(data.edges[p].id != id);
    } else {
        let q = choose|q: int| #[trigger]
            is_first_edge(data.edges, id, q) && data.edge(id)->0 == data.edges[q]
                && data.edge_props(id) == Some(data.edges[q].props);
        if q < p {
            assert(data.edges[q].id != data.edges[p].id);
        }
        if p < q {
            assert(data.edges[p].id != id);
        }
    }
}

/// Whether a node is bound to a vertex that is there with its label and meets its conditions, or
/// to an edge that is there with its labels and meets its conditions.
pub open spec fn is_bound(data: FlatView, node: NodeView, binding: WanderJoinBinding) -> bool {
    match (node, binding) {
        (NodeView::Vertex { id, label, predicates }, WanderJoinBinding::Vertex(v)) => {
            &&& exists|p: int|
                #![trigger data.vertices[p]]
                0 <= p < data.vertices.len() && data.vertices[p].label == label
                    && data.vertices[p].id == v
            &&& passes(data.vertex_props(label, v), predicates)
        },
        (
            NodeView::Edge { label, src, dst, src_label, dst_label, predicates },
            WanderJoinBinding::Edge { src: from, dst: to, edge_id },
        ) => exists|p: int|
            #![trigger data.edges[p]]
            0 <= p < data.edges.len() && {
                let e = data.edges[p];
                &&& e.id == edge_id && e.src == from && e.dst == to
                &&& e.label == label && e.src_label == src_label && e.dst_label == dst_label
                &&& passes(data.edge_props(e.id), predicates)
            },
        _ => false,
    }
}

proof fn lemma_label_is_there(data: FlatView, n: int, v: VertexId, label: Seq<char>)
    requires
        0 <= n <= data.vertices.len(),
        label_of(data.vertices.take(n), v) == Some(label),
    ensures
        exists|p: int|
            #![trigger data.vertices[p]]
            0 <= p < data.vertices.len() && data.vertices[p].label == label && data.vertices[p].id
                == v,
    decreases n,
{
    if n > 0 {
        assert(data.vertices.take(n).drop_last() =~= data.vertices.take(n - 1));
        if label_of(data.vertices.take(n - 1), v) is Some {
            lemma_label_is_there(data, n - 1, v, label);
        } else {
            assert(data.vertices[n - 1].id == v);
        }
    }
}

proof fn lemma_edge_binding(
    data: FlatView,
    node: NodeView,
    bound: VertexId,
    outgoing: bool,
    hops: Seq<(VertexId, EdgeId)>,
    k: int,
) -> (h: int)
    requires
        node is Edge,
        0 <= k < edge_bindings(data, node, bound, outgoing, hops).len(),
    ensures
        0 <= h < hops.len(),
        edge_bindings(data, node, bound, outgoing, hops)[k] == (if outgoing {
            WanderJoinBinding::Edge { src: bound, dst: hops[h].0, edge_id: hops[h].1 }
        } else {
            WanderJoinBinding::Edge { src: hops[h].0, dst: bound, edge_id: hops[h].1 }
        }),
        data.edge(hops[h].1) matches Some(e) && e.src_label == node->Edge_src_label && e.dst_label
            == node->Edge_dst_label,
    decreases hops.len(),
{
    let before = edge_bindings(data, node, bound, outgoing, hops.drop_last());
    if k < before.len() {
        let h = lemma_edge_binding(data, node, bound, outgoing, hops.drop_last(), k);
        assert(hops.drop_last()[h] == hops[h]);
        h
    } else {
        hops.len() - 1
    }
}

proof fn lemma_next_is_bound(
    data: FlatView,
    node: NodeView,
    bound: VertexId,
    col: int,
    k: int,
)
    requires
        edge_ids_are_distinct(data),
        0 <= k < next_bindings(data, node, bound, col).len(),
        meets_node(data, node, next_bindings(data, node, bound, col)[k]),
    ensures
        is_bound(data, node, next_bindings(data, node, bound, col)[k]),
        next_bindings(data, node, bound, col)[k].value(col) == Some(bound) || node is Vertex,
{
    let binding = next_bindings(data, node, bound, col)[k];
    match node {
        NodeView::Vertex { id, label, predicates } => {
            let n = data.vertices.len() as int;
            assert(data.vertices.take(n) =~= data.vertices);
            lemma_label_is_there(data, n, bound, label);
        },
        NodeView::Edge { label, src, dst, src_label, dst_label, predicates } => {
            let outgoing = col == 0;
            let own = if outgoing {
                src_label
            } else {
                dst_label
            };
            let hops = data.hops(own, label, outgoing, bound);
            let h = lemma_edge_binding(data, node, bound, outgoing, hops, k);
            let at = neighbors_are_other_ends(data.edges, own, label, outgoing, bound);
            let e = data.edges[at[h]];
            assert(hops[h] == (far_end_of(e, outgoing), e.id));
            lemma_edge_is_found(data, at[h]);
        },
    }
}

proof fn lemma_start_is_bound(data: FlatView, node: NodeView, k: int)
    requires
        edge_ids_are_distinct(data),
        0 <= k < start_count(data, node),
        start_at(data, node, k) is Some,
    ensures
        is_bound(data, node, start_at(data, node, k)->0),
{
    match node {
        NodeView::Vertex { id, label, predicates } => {
            let at = labelled_vertices_are_listed(data.vertices, label);
            let p = at[k];
            assert(data.vertices[p].label == label && data.vertices[p].id == data.labelled(
                label,
            )[k]);
        },
        NodeView::Edge { label, src, dst, src_label, dst_label, predicates } => {
            let at = labelled_edges_are_listed(data.edges, label);
            let p = at[k];
            assert(data.edges[p].label == label && data.edges[p].id == data.edges_labelled(
                label,
            )[k]);
            lemma_edge_is_found(data, p);
        },
    }
}

/// What is drawn on a walk is there and meets the conditions of its node.
pub proof fn draws_are_there(
    data: FlatView,
    nodes: Seq<NodeView>,
    plan: WanderView,
    draws: Seq<WanderJoinDraw>,
    i: int,
)
    requires
        edge_ids_are_distinct(data),
        are_draws(data, nodes, plan, draws),
        0 <= i < draws.len(),
    ensures
        is_bound(data, nodes[node_at(plan, i) as int], draws[i].binding),
{
    let before = draws.take(i);
    assert(is_draw_at(data, nodes, plan, before, Some(draws[i])));
    if i == 0 {
        let node = nodes[plan.start as int];
        let k = choose|k: int|
            0 <= k < start_count(data, node) && Some(draws[i]) == (match #[trigger] start_at(
                data,
                node,
                k,
            ) {
                Some(binding) => Some(
                    WanderJoinDraw { binding, factor: start_count(data, node) as usize },
                ),
                None => None,
            });
        lemma_start_is_bound(data, node, k);
    } else {
        let step = plan.steps[i - 1];
        let node = nodes[step.node_idx as int];
        let bound = bound_at(
            plan,
            before,
            step.counterpart_node_idx,
            step.counterpart_col as int,
        )->0;
        let col = step.node_col as int;
        let bindings = next_bindings(data, node, bound, col);
        let k = choose|k: int|
            #![trigger bindings[k]]
            0 <= k < bindings.len() && Some(draws[i]) == (if meets_node(data, node, bindings[k]) {
                Some(WanderJoinDraw { binding: bindings[k], factor: bindings.len() as usize })
            } else {
                None
            });
        lemma_next_is_bound(data, node, bound, col, k);
    }
}

proof fn lemma_places_are_apart(joins: Seq<WanderJoinJoin>, node_count: nat, plan: WanderView)
    requires
        is_wander_plan(joins, node_count, plan),
    ensures
        forall|i: int, j: int|
            0 <= i < j < node_count ==> #[trigger] node_at(plan, i) != #[trigger] node_at(plan, j),
{
    assert forall|i: int, j: int| 0 <= i < j < node_count implies #[trigger] node_at(plan, i)
        != #[trigger] node_at(plan, j) by {
        let step = plan.steps[j - 1];
        assert(!is_visited(plan, j - 1, step.node_idx));
        if i > 0 {
            assert(plan.steps[i - 1].node_idx != step.node_idx);
        }
    }
}

proof fn lemma_place_found(plan: WanderView, node: usize, n: int, i: int)
    requires
        0 <= i < n,
        node_at(plan, i) == node,
    ensures
        place_among(plan, node, n) is Some,
    decreases n,
{
    if i < n - 1 {
        lemma_place_found(plan, node, n - 1, i);
    }
}

proof fn lemma_place_is_its_own(plan: WanderView, node: usize, n: int)
    requires
        place_among(plan, node, n) is Some,
    ensures
        0 <= place_among(plan, node, n)->0 < n,
        node_at(plan, place_among(plan, node, n)->0) == node,
    decreases n,
{
    if n > 0 && place_among(plan, node, n - 1) is Some {
        lemma_place_is_its_own(plan, node, n - 1);
    }
}

proof fn lemma_below(plan: WanderView, n: int, bound: int)
    requires
        0 <= n,
        0 <= bound,
        forall|i: int| 0 <= i < n ==> #[trigger] node_at(plan, i) < bound,
        forall|i: int, j: int|
            0 <= i < j < n ==> #[trigger] node_at(plan, i) != #[trigger] node_at(plan, j),
    ensures
        ({
            let seen: Set<int> = Set::new(
                |x: int| exists|i: int| 0 <= i < n && #[trigger] node_at(plan, i) as int == x,
            );
            seen.finite() && seen.len() == n && forall|x: int| #[trigger]
                seen.contains(x) ==> 0 <= x < bound
        }),
    decreases n,
{
    let seen: Set<int> = Set::new(
        |x: int| exists|i: int| 0 <= i < n && #[trigger] node_at(plan, i) as int == x,
    );
    if n == 0 {
        assert(seen =~= Set::empty());
    } else {
        lemma_below(plan, n - 1, bound);
        let fewer: Set<int> = Set::new(
            |x: int| exists|i: int| 0 <= i < n - 1 && #[trigger] node_at(plan, i) as int == x,
        );
        let last = node_at(plan, n - 1) as int;
        assert(seen =~= fewer.insert(last)) by {
            assert forall|x: int| seen.contains(x) <==> #[trigger] fewer.insert(last).contains(
                x,
            ) by {
                if seen.contains(x) {
                    let i = choose|i: int| 0 <= i < n && #[trigger] node_at(plan, i) as int == x;
                    if i < n - 1 {
                        assert(fewer.contains(x));
                    }
                }
                if fewer.contains(x) {
                    let i = choose|i: int|
                        0 <= i < n - 1 && #[trigger] node_at(plan, i) as int == x;
                    assert(node_at(plan, i) as int == x);
                }
                assert(node_at(plan, n - 1) as int == last);
            }
        }
        assert(!fewer.contains(last)) by {
            if fewer.contains(last) {
                let i = choose|i: int|
                    0 <= i < n - 1 && #[trigger] node_at(plan, i) as int == last;
                assert(node_at(plan, i) != node_at(plan, n - 1));
            }
        }
    }
}

/// Every node has a place in a plan.
pub proof fn plans_visit_every_node(
    joins: Seq<WanderJoinJoin>,
    node_count: nat,
    plan: WanderView,
    node: usize,
)
    requires
        is_wander_plan(joins, node_count, plan),
        forall|k: int|
            #![trigger joins[k]]
            0 <= k < joins.len() ==> joins[k].to_node < node_count,
        node < node_count,
    ensures
        exists|i: int| 0 <= i < node_count && #[trigger] node_at(plan, i) == node,
{
    let n = node_count as int;
    lemma_places_are_apart(joins, node_count, plan);
    assert forall|i: int| 0 <= i < n implies #[trigger] node_at(plan, i) < n by {
        if i > 0 {
            let step = plan.steps[i - 1];
            let j = choose|j: int|
                0 <= j < joins.len() && crate::wander_plans::step_of(#[trigger] joins[j]) == step;
            assert(joins[j].to_node < node_count);
        }
    }
    lemma_below(plan, n, n);
    let seen: Set<int> = Set::new(
        |x: int| exists|i: int| 0 <= i < n && #[trigger] node_at(plan, i) as int == x,
    );
    let all = vstd::set_lib::set_int_range(0, n);
    vstd::set_lib::lemma_int_range(0, n);
    assert(seen.subset_of(all));
    vstd::set_lib::lemma_subset_equality(seen, all);
    assert(seen.contains(node as int));
    let i = choose|i: int| 0 <= i < n && #[trigger] node_at(plan, i) as int == node as int;
    assert(node_at(plan, i) == node);
}

/// What a node is bound to on a walk that got through.
pub open spec fn binding_of(
    plan: WanderView,
    draws: Seq<WanderJoinDraw>,
    node: int,
) -> WanderJoinBinding {
    draws[place_among(plan, node as usize, draws.len() as int)->0].binding
}

/// Whether every end of an edge node is a vertex node.
pub open spec fn ends_are_nodes(nodes: Seq<NodeView>) -> bool {
    forall|i: int|
        #![trigger nodes[i]]
        0 <= i < nodes.len() && nodes[i] is Edge ==> is_vertex_node(nodes, nodes[i]->Edge_src)
            && is_vertex_node(nodes, nodes[i]->Edge_dst)
}

/// Whether a query vertex is a node.
pub open spec fn is_vertex_node(nodes: Seq<NodeView>, id: VertexId) -> bool {
    exists|k: int|
        0 <= k < nodes.len() && (#[trigger] nodes[k]) is Vertex && nodes[k]->Vertex_id == id
}

/// The node of a query vertex.
pub open spec fn vertex_node(nodes: Seq<NodeView>, id: VertexId) -> int {
    choose|k: int|
        0 <= k < nodes.len() && (#[trigger] nodes[k]) is Vertex && nodes[k]->Vertex_id == id
}

/// Where query vertices are on a walk that got through.
pub open spec fn where_bound(
    nodes: Seq<NodeView>,
    plan: WanderView,
    draws: Seq<WanderJoinDraw>,
) -> spec_fn(VertexId) -> VertexId {
    |id: VertexId|
        match binding_of(plan, draws, vertex_node(nodes, id)) {
            WanderJoinBinding::Vertex(v) => v,
            WanderJoinBinding::Edge { src, dst, edge_id } => src,
        }
}

/// Whether what a node is bound to agrees with where the query vertices are.
pub open spec fn agrees(
    node: NodeView,
    binding: WanderJoinBinding,
    stands: spec_fn(VertexId) -> VertexId,
) -> bool {
    match (node, binding) {
        (
            NodeView::Vertex { id, label, predicates },
            WanderJoinBinding::Vertex(v),
        ) => v == stands(id),
        (
            NodeView::Edge { label, src, dst, src_label, dst_label, predicates },
            WanderJoinBinding::Edge { src: from, dst: to, edge_id },
        ) => from == stands(src) && to == stands(dst),
        _ => false,
    }
}

proof fn lemma_columns_agree(
    nodes: Seq<NodeView>,
    plan: WanderView,
    draws: Seq<WanderJoinDraw>,
    a: int,
    col_a: int,
    b: int,
    col_b: int,
)
    requires
        nodes.len() <= usize::MAX,
        forall|k: int|
            #![trigger joins_between(nodes, nodes.len() as int)[k]]
            0 <= k < joins_between(nodes, nodes.len() as int).len() ==> join_holds(
                plan,
                draws,
                joins_between(nodes, nodes.len() as int)[k],
            ),
        0 <= a < nodes.len(),
        0 <= b < nodes.len(),
        0 <= col_a < nodes[a].refs().len(),
        0 <= col_b < nodes[b].refs().len(),
        nodes[a].refs()[col_a] == nodes[b].refs()[col_b],
        a != b,
    ensures
        binding_of(plan, draws, a).value(col_a) == binding_of(plan, draws, b).value(col_b),
{
    let joins = joins_between(nodes, nodes.len() as int);
    let join = WanderJoinJoin {
        from_node: a as usize,
        from_col: col_a as usize,
        to_node: b as usize,
        to_col: col_b as usize,
    };
    matches_are_joined(nodes, join);
    let k = choose|k: int| 0 <= k < joins.len() && joins[k] == join;
    assert(join_holds(plan, draws, joins[k]));
}

/// A complete walk binds every vertex and every edge of a query to one of the data that is there,
/// has the right labels and meets every condition, and it binds the ends of edges to where their
/// vertices are bound.
pub proof fn complete_walks_are_matches(
    data: FlatView,
    nodes: Seq<NodeView>,
    plan: WanderView,
    sample: WanderJoinSample,
)
    requires
        edge_ids_are_distinct(data),
        nodes.len() <= usize::MAX,
        ends_are_nodes(nodes),
        is_wander_plan(joins_between(nodes, nodes.len() as int), nodes.len(), plan),
        is_wander_sample(data, nodes, joins_between(nodes, nodes.len() as int), plan, sample),
        sample.complete,
    ensures
        ({
            let draws = sample.draws@;
            let stands = where_bound(nodes, plan, draws);
            forall|i: int|
                #![trigger nodes[i]]
                0 <= i < nodes.len() ==> is_bound(data, nodes[i], binding_of(plan, draws, i))
                    && agrees(nodes[i], binding_of(plan, draws, i), stands)
        }),
{
    let n = nodes.len() as int;
    let joins = joins_between(nodes, n);
    let draws = sample.draws@;
    let stands = where_bound(nodes, plan, draws);
    assert(draws.len() == n);
    assert forall|k: int| #![trigger joins[k]] 0 <= k < joins.len() implies joins[k].to_node
        < nodes.len() by {
        crate::wander_join::joins_are_matches(nodes, n, k);
    }
    assert forall|i: int| #![trigger nodes[i]] 0 <= i < n implies is_bound(
        data,
        nodes[i],
        binding_of(plan, draws, i),
    ) by {
        plans_visit_every_node(joins, nodes.len(), plan, i as usize);
        let at = choose|p: int| 0 <= p < n && #[trigger] node_at(plan, p) == i as usize;
        lemma_place_found(plan, i as usize, n, at);
        lemma_place_is_its_own(plan, i as usize, n);
        draws_are_there(data, nodes, plan, draws, place_among(plan, i as usize, n)->0);
    }
    assert forall|i: int| #![trigger nodes[i]] 0 <= i < n implies agrees(
        nodes[i],
        binding_of(plan, draws, i),
        stands,
    ) by {
        assert(is_bound(data, nodes[i], binding_of(plan, draws, i)));
        match nodes[i] {
            NodeView::Vertex { id, label, predicates } => {
                let k = vertex_node(nodes, id);
                assert(nodes[k] is Vertex && nodes[k]->Vertex_id == id);
                assert(is_bound(data, nodes[k], binding_of(plan, draws, k)));
                if k != i {
                    lemma_columns_agree(nodes, plan, draws, i, 0, k, 0);
                }
            },
            NodeView::Edge { label, src, dst, src_label, dst_label, predicates } => {
                assert(is_vertex_node(nodes, src) && is_vertex_node(nodes, dst));
                let a = vertex_node(nodes, src);
                let b = vertex_node(nodes, dst);
                assert(nodes[a] is Vertex && nodes[a]->Vertex_id == src);
                assert(nodes[b] is Vertex && nodes[b]->Vertex_id == dst);
                assert(is_bound(data, nodes[a], binding_of(plan, draws, a)));
                assert(is_bound(data, nodes[b], binding_of(plan, draws, b)));
                lemma_columns_agree(nodes, plan, draws, i, 0, a, 0);
                lemma_columns_agree(nodes, plan, draws, i, 1, b, 0);
            },
        }
    }
}

/// A walk that got through is complete where its bindings agree on where the query vertices are.
pub proof fn walks_that_agree_are_complete(
    data: FlatView,
    nodes: Seq<NodeView>,
    plan: WanderView,
    sample: WanderJoinSample,
    stands: spec_fn(VertexId) -> VertexId,
)
    requires
        nodes.len() <= usize::MAX,
        is_wander_plan(joins_between(nodes, nodes.len() as int), nodes.len(), plan),
        is_wander_sample(data, nodes, joins_between(nodes, nodes.len() as int), plan, sample),
        sample.draws@.len() == nodes.len(),
        forall|i: int|
            #![trigger nodes[i]]
            0 <= i < nodes.len() ==> agrees(
                nodes[i],
                binding_of(plan, sample.draws@, i),
                stands,
            ),
    ensures
        sample.complete,
{
    let n = nodes.len() as int;
    let joins = joins_between(nodes, n);
    let draws = sample.draws@;
    assert forall|k: int| #![trigger joins[k]] 0 <= k < joins.len() implies joins[k].to_node
        < nodes.len() by {
        crate::wander_join::joins_are_matches(nodes, n, k);
    }
    assert forall|k: int| #![trigger joins[k]] 0 <= k < joins.len() implies join_holds(
        plan,
        draws,
        joins[k],
    ) by {
        crate::wander_join::joins_are_matches(nodes, n, k);
        let join = joins[k];
        let (a, b) = (join.from_node as int, join.to_node as int);
        plans_visit_every_node(joins, nodes.len(), plan, join.from_node);
        plans_visit_every_node(joins, nodes.len(), plan, join.to_node);
        let x = choose|p: int| 0 <= p < n && #[trigger] node_at(plan, p) == join.from_node;
        let y = choose|p: int| 0 <= p < n && #[trigger] node_at(plan, p) == join.to_node;
        lemma_place_found(plan, join.from_node, n, x);
        lemma_place_found(plan, join.to_node, n, y);
        assert(agrees(nodes[a], binding_of(plan, draws, a), stands));
        assert(agrees(nodes[b], binding_of(plan, draws, b), stands));
    }
}

/// Whether a data edge can be drawn for an edge node with a data vertex in a column: it has the
/// labels of the node, the vertex is its end there, and the other end is known with its label.
pub open spec fn can_be_drawn(
    data: FlatView,
    node: NodeView,
    bound: VertexId,
    col: int,
    place: int,
) -> bool {
    let e = data.edges[place];
    &&& 0 <= place < data.edges.len()
    &&& e.label == node->Edge_label
    &&& e.src_label == node->Edge_src_label
    &&& e.dst_label == node->Edge_dst_label
    &&& if col == 0 {
        e.src == bound && label_of(data.vertices, e.dst) == Some(node->Edge_dst_label)
    } else {
        e.dst == bound && label_of(data.vertices, e.src) == Some(node->Edge_src_label)
    }
}

proof fn lemma_binding_count(
    data: FlatView,
    node: NodeView,
    bound: VertexId,
    col: int,
    n: int,
)
    requires
        edge_ids_are_distinct(data),
        node is Edge,
        col == 0 || col == 1,
        0 <= n <= data.edges.len(),
    ensures
        ({
            let own = if col == 0 {
                node->Edge_src_label
            } else {
                node->Edge_dst_label
            };
            let hops = hops_along(data.edges.take(n), own, node->Edge_label, col == 0, bound);
            let found = places(n, |p: int| can_be_drawn(data, node, bound, col, p));
            &&& found.finite()
            &&& edge_bindings(data, node, bound, col == 0, hops).len() == found.len()
        }),
    decreases n,
{
    let wanted = |p: int| can_be_drawn(data, node, bound, col, p);
    let own = if col == 0 {
        node->Edge_src_label
    } else {
        node->Edge_dst_label
    };
    if n == 0 {
        lemma_no_places(wanted);
    } else {
        lemma_binding_count(data, node, bound, col, n - 1);
        lemma_places_step(n, wanted);
        let edges = data.edges.take(n);
        let before = hops_along(edges.drop_last(), own, node->Edge_label, col == 0, bound);
        assert(edges.drop_last() =~= data.edges.take(n - 1));
        let e = data.edges[n - 1];
        assert(edges.last() == e);
        lemma_edge_is_found(data, n - 1);
        let hop = (far_end_of(e, col == 0), e.id);
        assert(before.push(hop).drop_last() =~= before);
    }
}

/// The factor of a draw is the number of what could have been drawn: for the first node all
/// vertices or edges of the data with its label; for a further vertex only the one that is bound;
/// for a further edge the data edges at the bound vertex.
pub proof fn factors_count_what_could_be_drawn(
    data: FlatView,
    nodes: Seq<NodeView>,
    plan: WanderView,
    draws: Seq<WanderJoinDraw>,
    i: int,
)
    requires
        edge_ids_are_distinct(data),
        data.vertices.len() <= usize::MAX,
        data.edges.len() <= usize::MAX,
        are_draws(data, nodes, plan, draws),
        0 <= i < draws.len(),
    ensures
        ({
            let node = nodes[node_at(plan, i) as int];
            let factor = draws[i].factor;
            let vertices = places(
                data.vertices.len() as int,
                |p: int| data.vertices[p].label == node->Vertex_label,
            );
            let edges = places(
                data.edges.len() as int,
                |p: int| data.edges[p].label == node->Edge_label,
            );
            &&& i == 0 && node is Vertex ==> factor == vertices.len()
            &&& i == 0 && node is Edge ==> factor == edges.len()
            &&& i > 0 && node is Vertex ==> factor == 1
            &&& i > 0 && node is Edge ==> {
                let step = plan.steps[i - 1];
                let bound = bound_at(
                    plan,
                    draws.take(i),
                    step.counterpart_node_idx,
                    step.counterpart_col as int,
                );
                &&& bound is Some
                &&& step.node_col <= 1
                &&& factor == places(
                    data.edges.len() as int,
                    |p: int| can_be_drawn(data, node, bound->0, step.node_col as int, p),
                ).len()
            }
        }),
{
    let before = draws.take(i);
    assert(is_draw_at(data, nodes, plan, before, Some(draws[i])));
    if i == 0 {
        let node = nodes[plan.start as int];
        match node {
            NodeView::Vertex { id, label, predicates } => {
                let at = labelled_vertices_are_listed(data.vertices, label);
                lemma_listed_count(
                    at,
                    data.vertices.len() as int,
                    |p: int| data.vertices[p].label == label,
                );
                lemma_places_finite(
                    data.vertices.len() as int,
                    |p: int| data.vertices[p].label == label,
                );
            },
            NodeView::Edge { label, src, dst, src_label, dst_label, predicates } => {
                let at = labelled_edges_are_listed(data.edges, label);
                lemma_listed_count(
                    at,
                    data.edges.len() as int,
                    |p: int| data.edges[p].label == label,
                );
                lemma_places_finite(
                    data.edges.len() as int,
                    |p: int| data.edges[p].label == label,
                );
            },
        }
    } else {
        let step = plan.steps[i - 1];
        let node = nodes[step.node_idx as int];
        let bound = bound_at(
            plan,
            before,
            step.counterpart_node_idx,
            step.counterpart_col as int,
        )->0;
        let col = step.node_col as int;
        if node is Edge && col <= 1 {
            let n = data.edges.len() as int;
            lemma_binding_count(data, node, bound, col, n);
            assert(data.edges.take(n) =~= data.edges);
            lemma_places_finite(n, |p: int| can_be_drawn(data, node, bound, col, p));
        }
    }
}

/// Whether properties are there and meet all predicates on a label.
pub open spec fn predicates_hold(
    schemas: Seq<(Seq<char>, Seq<Seq<char>>)>,
    label: Seq<char>,
    predicates: Seq<PredicateView>,
    props: Option<Seq<ScalarValue>>,
) -> bool {
    predicates.len() > 0 ==> exists|names: Seq<Seq<char>>| #[trigger]
        are_names_of(schemas, label, names) && props is Some && forall|i: int|
            #![trigger predicates[i]]
            0 <= i < predicates.len() ==> property_meets(names, props->0, predicates[i])
}

proof fn lemma_schema_is_there(schemas: Seq<(Seq<char>, Seq<Seq<char>>)>, label: Seq<char>)
    requires
        schema_of(schemas, label) is Some,
    ensures
        are_names_of(schemas, label, schema_of(schemas, label)->0),
    decreases schemas.len(),
{
    let names = schema_of(schemas, label)->0;
    if schemas.first().0 == label {
        assert(schemas[0] == (label, names));
    } else {
        let rest = schemas.drop_first();
        lemma_schema_is_there(rest, label);
        let i = choose|i: int|
            #![trigger rest[i]]
            0 <= i < rest.len() && rest[i] == (label, names) && forall|j: int|
                #![trigger rest[j]]
                0 <= j < i ==> rest[j].0 != label;
        assert(schemas[i + 1] == (label, names));
        assert forall|j: int| #![trigger schemas[j]] 0 <= j < i + 1 implies schemas[j].0
            != label by {
            if j > 0 {
                assert(schemas[j] == rest[j - 1]);
            }
        }
    }
}

proof fn lemma_resolved_needs_schema(
    schemas: Seq<(Seq<char>, Seq<Seq<char>>)>,
    label: Seq<char>,
    predicates: Seq<PredicateView>,
)
    requires
        predicates.len() > 0,
        resolution(schemas, label, predicates) is Ok,
    ensures
        schema_of(schemas, label) is Some,
        resolution(schemas, label, predicates)->Ok_0.len() == predicates.len(),
    decreases predicates.len(),
{
    let fewer = predicates.drop_last();
    if predicates.len() > 1 {
        lemma_resolved_needs_schema(schemas, label, fewer);
    } else {
        assert(resolution(schemas, label, fewer) == Ok::<_, Seq<char>>(
            Seq::<ResolvedView>::empty(),
        ));
    }
}

/// Where properties meet the conditions of predicates, the predicates hold.
pub proof fn met_conditions_are_held_predicates(
    schemas: Seq<(Seq<char>, Seq<Seq<char>>)>,
    label: Seq<char>,
    predicates: Seq<PredicateView>,
    props: Option<Seq<ScalarValue>>,
)
    requires
        resolution(schemas, label, predicates) is Ok,
    ensures
        passes(props, resolution(schemas, label, predicates)->Ok_0) <==> predicates_hold(
            schemas,
            label,
            predicates,
            props,
        ),
{
    if predicates.len() > 0 {
        lemma_resolved_needs_schema(schemas, label, predicates);
        lemma_schema_is_there(schemas, label);
        let names = schema_of(schemas, label)->0;
        if props is Some {
            conditions_say_what_predicates_say(schemas, label, names, predicates, props->0);
            if predicates_hold(schemas, label, predicates, props) {
                let found = choose|found: Seq<Seq<char>>| #[trigger]
                    are_names_of(schemas, label, found) && props is Some && forall|i: int|
                        #![trigger predicates[i]]
                        0 <= i < predicates.len() ==> property_meets(
                            found,
                            props->0,
                            predicates[i],
                        );
                conditions_say_what_predicates_say(schemas, label, found, predicates, props->0);
            }
        }
    }
}

spec fn is_vertex_node_for(
    graph: GraphView,
    data: FlatView,
    id: VertexId,
    node: NodeView,
) -> bool {
    let v = graph.vertex(id)->0;
    let found = resolution(data.vertex_schemas, v.label, v.predicates);
    found is Ok && node == NodeView::Vertex { id, label: v.label, predicates: found->Ok_0 }
}

proof fn lemma_vertex_nodes(
    graph: GraphView,
    data: FlatView,
    ids: Seq<VertexId>,
    n: int,
)
    requires
        0 <= n <= ids.len(),
        vertex_nodes(graph, data, ids, n) is Ok,
    ensures
        ({
            let nodes = vertex_nodes(graph, data, ids, n)->Ok_0;
            &&& nodes.len() == n
            &&& forall|k: int|
                #![trigger nodes[k]]
                0 <= k < n ==> is_vertex_node_for(graph, data, ids[k], nodes[k])
        }),
    decreases n,
{
    if n > 0 {
        lemma_vertex_nodes(graph, data, ids, n - 1);
        let before = vertex_nodes(graph, data, ids, n - 1)->Ok_0;
        let nodes = vertex_nodes(graph, data, ids, n)->Ok_0;
        assert forall|k: int| #![trigger nodes[k]] 0 <= k < n implies is_vertex_node_for(
            graph,
            data,
            ids[k],
            nodes[k],
        ) by {
            if k < n - 1 {
                assert(nodes[k] == before[k]);
            }
        }
    }
}

proof fn lemma_edge_nodes(
    graph: GraphView,
    data: FlatView,
    begun: Seq<NodeView>,
    ids: Seq<EdgeId>,
    n: int,
)
    requires
        0 <= n <= ids.len(),
        edge_nodes(graph, data, begun, ids, n) is Ok,
    ensures
        ({
            let nodes = edge_nodes(graph, data, begun, ids, n)->Ok_0;
            &&& nodes.len() == begun.len() + n
            &&& forall|k: int| #![trigger nodes[k]] 0 <= k < begun.len() ==> nodes[k] == begun[k]
            &&& forall|k: int|
                #![trigger nodes[k]]
                begun.len() <= k < nodes.len() ==> is_node_of_edge(
                    graph,
                    data,
                    graph.edge(ids[k - begun.len()])->0,
                    nodes[k],
                )
        }),
    decreases n,
{
    if n > 0 {
        lemma_edge_nodes(graph, data, begun, ids, n - 1);
        let before = edge_nodes(graph, data, begun, ids, n - 1)->Ok_0;
        let nodes = edge_nodes(graph, data, begun, ids, n)->Ok_0;
        assert forall|k: int| #![trigger nodes[k]] 0 <= k < begun.len() implies nodes[k]
            == begun[k] by {
            assert(nodes[k] == before[k]);
        }
        assert forall|k: int| #![trigger nodes[k]] begun.len() <= k < nodes.len() implies is_node_of_edge(
            graph,
            data,
            graph.edge(ids[k - begun.len()])->0,
            nodes[k],
        ) by {
            if k < before.len() {
                assert(nodes[k] == before[k]);
            }
        }
    }
}

/// Whether a node is that of a vertex of a query.
pub open spec fn is_node_of_vertex(data: FlatView, v: VertexView, node: NodeView) -> bool {
    let found = resolution(data.vertex_schemas, v.label, v.predicates);
    found is Ok && node == NodeView::Vertex { id: v.id, label: v.label, predicates: found->Ok_0 }
}

/// Whether a node is that of an edge of a query.
pub open spec fn is_node_of_edge(
    graph: GraphView,
    data: FlatView,
    e: EdgeView,
    node: NodeView,
) -> bool {
    let found = resolution(data.edge_schemas, e.label, e.predicates);
    found is Ok && node == NodeView::Edge {
        label: e.label,
        src: e.src,
        dst: e.dst,
        src_label: graph.vertex(e.src)->0.label,
        dst_label: graph.vertex(e.dst)->0.label,
        predicates: found->Ok_0,
    }
}

proof fn lemma_sorted_has(ids: Seq<u64>, i: int) -> (k: int)
    requires
        0 <= i < ids.len(),
    ensures
        0 <= k < sorted(ids).len(),
        sorted(ids)[k] == ids[i],
{
    sorting_orders_the_values(ids);
    assert(ids.to_multiset().count(ids[i]) > 0) by {
        ids.to_multiset_ensures();
        assert(ids.contains(ids[i]));
    }
    sorted(ids).to_multiset_ensures();
    assert(sorted(ids).contains(ids[i]));
    choose|k: int| 0 <= k < sorted(ids).len() && sorted(ids)[k] == ids[i]
}

proof fn lemma_sorted_from(ids: Seq<u64>, k: int) -> (i: int)
    requires
        0 <= k < sorted(ids).len(),
    ensures
        0 <= i < ids.len(),
        sorted(ids)[k] == ids[i],
{
    sorting_orders_the_values(ids);
    sorted(ids).to_multiset_ensures();
    assert(sorted(ids).contains(sorted(ids)[k]));
    ids.to_multiset_ensures();
    assert(ids.contains(sorted(ids)[k]));
    choose|i: int| 0 <= i < ids.len() && sorted(ids)[k] == ids[i]
}

/// The nodes of a query are those of its vertices and of its edges: there is one for each of them,
/// with its labels, its ends and the conditions of its predicates.
pub proof fn nodes_are_those_of_the_query(graph: GraphView, data: FlatView)
    requires
        graph.wf(),
        query_nodes(graph, data) is Ok,
    ensures
        ({
            let nodes = query_nodes(graph, data)->Ok_0;
            &&& nodes.len() == graph.vertices.len() + graph.edges.len()
            &&& ends_are_nodes(nodes)
            &&& forall|i: int|
                #![trigger graph.vertices[i]]
                0 <= i < graph.vertices.len() ==> exists|k: int|
                    0 <= k < nodes.len() && is_node_of_vertex(
                        data,
                        graph.vertices[i],
                        #[trigger] nodes[k],
                    )
            &&& forall|i: int|
                #![trigger graph.edges[i]]
                0 <= i < graph.edges.len() ==> exists|k: int|
                    0 <= k < nodes.len() && is_node_of_edge(
                        graph,
                        data,
                        graph.edges[i],
                        #[trigger] nodes[k],
                    )
        }),
{
    let all_vertices = graph.vertices.map_values(|v: VertexView| v.id);
    let all_edges = graph.edges.map_values(|e: EdgeView| e.id);
    let vertex_ids = sorted(all_vertices);
    let edge_ids = sorted(all_edges);
    sorting_orders_the_values(all_vertices);
    sorting_orders_the_values(all_edges);
    let (n, m) = (vertex_ids.len() as int, edge_ids.len() as int);
    let begun = vertex_nodes(graph, data, vertex_ids, n)->Ok_0;
    let nodes = query_nodes(graph, data)->Ok_0;
    lemma_vertex_nodes(graph, data, vertex_ids, n);
    lemma_edge_nodes(graph, data, begun, edge_ids, m);
    all_vertices.to_multiset_ensures();
    vertex_ids.to_multiset_ensures();
    all_edges.to_multiset_ensures();
    edge_ids.to_multiset_ensures();
    assert(n == graph.vertices.len() && m == graph.edges.len());
    assert forall|i: int|
        #![trigger graph.vertices[i]]
        0 <= i < graph.vertices.len() implies exists|k: int|
        0 <= k < n && is_node_of_vertex(data, graph.vertices[i], #[trigger] nodes[k]) by {
        let k = lemma_sorted_has(all_vertices, i);
        lemma_vertex_at(graph, i);
        assert(nodes[k] == begun[k]);
        assert(is_node_of_vertex(data, graph.vertices[i], nodes[k]));
    }
    assert forall|i: int|
        #![trigger graph.edges[i]]
        0 <= i < graph.edges.len() implies exists|k: int|
        0 <= k < nodes.len() && is_node_of_edge(
            graph,
            data,
            graph.edges[i],
            #[trigger] nodes[k],
        ) by {
        let k = lemma_sorted_has(all_edges, i);
        lemma_edge_at(graph, i);
        assert(is_node_of_edge(graph, data, graph.edges[i], nodes[n + k]));
    }
    assert forall|k: int| #![trigger nodes[k]] 0 <= k < nodes.len() && nodes[k] is Edge implies
        is_vertex_node(nodes, nodes[k]->Edge_src) && is_vertex_node(nodes, nodes[k]->Edge_dst) by {
        if k < n {
            assert(nodes[k] == begun[k]);
        }
        let j = lemma_sorted_from(all_edges, k - n);
        lemma_edge_at(graph, j);
        let e = graph.edges[j];
        let a = graph.vertex_at(e.src)->0;
        let b = graph.vertex_at(e.dst)->0;
        assert(graph.vertices[a].id == e.src && graph.vertices[b].id == e.dst);
        let x = choose|x: int|
            0 <= x < n && is_node_of_vertex(data, graph.vertices[a], #[trigger] nodes[x]);
        let y = choose|y: int|
            0 <= y < n && is_node_of_vertex(data, graph.vertices[b], #[trigger] nodes[y]);
        assert(nodes[x] is Vertex && nodes[x]->Vertex_id == e.src);
        assert(nodes[y] is Vertex && nodes[y]->Vertex_id == e.dst);
    }
}

/// Whether a query is matched: its vertices stand at vertices of the data with their labels, its
/// edges have data edges with their labels between these, and all predicates hold.
pub open spec fn is_matched(
    graph: GraphView,
    data: FlatView,
    stands: spec_fn(VertexId) -> VertexId,
) -> bool {
    &&& forall|i: int|
        #![trigger graph.vertices[i]]
        0 <= i < graph.vertices.len() ==> {
            let q = graph.vertices[i];
            &&& exists|p: int|
                #![trigger data.vertices[p]]
                0 <= p < data.vertices.len() && data.vertices[p].label == q.label
                    && data.vertices[p].id == stands(q.id)
            &&& predicates_hold(
                data.vertex_schemas,
                q.label,
                q.predicates,
                data.vertex_props(q.label, stands(q.id)),
            )
        }
    &&& forall|i: int|
        #![trigger graph.edges[i]]
        0 <= i < graph.edges.len() ==> exists|p: int|
            #![trigger data.edges[p]]
            0 <= p < data.edges.len() && {
                let (q, e) = (graph.edges[i], data.edges[p]);
                &&& e.label == q.label
                &&& e.src == stands(q.src) && e.dst == stands(q.dst)
                &&& e.src_label == graph.vertex(q.src)->0.label
                &&& e.dst_label == graph.vertex(q.dst)->0.label
                &&& predicates_hold(data.edge_schemas, q.label, q.predicates, data.edge_props(e.id))
            }
}

/// A complete walk for a query is a match of the query in the data.
pub proof fn complete_walks_match_the_query(
    graph: GraphView,
    data: FlatView,
    plan: WanderView,
    sample: WanderJoinSample,
)
    requires
        graph.wf(),
        edge_ids_are_distinct(data),
        query_nodes(graph, data) is Ok,
        ({
            let nodes = query_nodes(graph, data)->Ok_0;
            let joins = joins_between(nodes, nodes.len() as int);
            &&& nodes.len() <= usize::MAX
            &&& is_wander_plan(joins, nodes.len(), plan)
            &&& is_wander_sample(data, nodes, joins, plan, sample)
        }),
        sample.complete,
    ensures
        is_matched(
            graph,
            data,
            where_bound(query_nodes(graph, data)->Ok_0, plan, sample.draws@),
        ),
{
    let nodes = query_nodes(graph, data)->Ok_0;
    let draws = sample.draws@;
    let stands = where_bound(nodes, plan, draws);
    nodes_are_those_of_the_query(graph, data);
    complete_walks_are_matches(data, nodes, plan, sample);
    assert forall|i: int|
        #![trigger graph.vertices[i]]
        0 <= i < graph.vertices.len() implies {
        let q = graph.vertices[i];
        &&& exists|p: int|
            #![trigger data.vertices[p]]
            0 <= p < data.vertices.len() && data.vertices[p].label == q.label
                && data.vertices[p].id == stands(q.id)
        &&& predicates_hold(
            data.vertex_schemas,
            q.label,
            q.predicates,
            data.vertex_props(q.label, stands(q.id)),
        )
    } by {
        let q = graph.vertices[i];
        let k = choose|k: int|
            0 <= k < nodes.len() && is_node_of_vertex(data, q, #[trigger] nodes[k]);
        let binding = binding_of(plan, draws, k);
        assert(is_bound(data, nodes[k], binding) && agrees(nodes[k], binding, stands));
        met_conditions_are_held_predicates(
            data.vertex_schemas,
            q.label,
            q.predicates,
            data.vertex_props(q.label, stands(q.id)),
        );
    }
    assert forall|i: int|
        #![trigger graph.edges[i]]
        0 <= i < graph.edges.len() implies exists|p: int|
        #![trigger data.edges[p]]
        0 <= p < data.edges.len() && {
            let (q, e) = (graph.edges[i], data.edges[p]);
            &&& e.label == q.label
            &&& e.src == stands(q.src) && e.dst == stands(q.dst)
            &&& e.src_label == graph.vertex(q.src)->0.label
            &&& e.dst_label == graph.vertex(q.dst)->0.label
            &&& predicates_hold(data.edge_schemas, q.label, q.predicates, data.edge_props(e.id))
        } by {
        let q = graph.edges[i];
        let k = choose|k: int|
            0 <= k < nodes.len() && is_node_of_edge(graph, data, q, #[trigger] nodes[k]);
        let binding = binding_of(plan, draws, k);
        assert(is_bound(data, nodes[k], binding) && agrees(nodes[k], binding, stands));
        let p = choose|p: int|
            #![trigger data.edges[p]]
            0 <= p < data.edges.len() && {
                let e = data.edges[p];
                &&& e.id == binding->edge_id && e.src == binding->src && e.dst == binding->dst
                &&& e.label == q.label && e.src_label == nodes[k]->Edge_src_label && e.dst_label
                    == nodes[k]->Edge_dst_label
                &&& passes(data.edge_props(e.id), nodes[k]->Edge_predicates)
            };
        met_conditions_are_held_predicates(
            data.edge_schemas,
            q.label,
            q.predicates,
            data.edge_props(data.edges[p].id),
        );
    }
}

} // verus!
