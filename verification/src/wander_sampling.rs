//! Random matches along an order: every node is bound to a vertex or an edge of the data that fits
//! the nodes before it.
use crate::chance::{index_below, seeded};
use crate::counting::{lemma_no_places, lemma_parts, lemma_places_step, lemma_renamed, places};
use crate::flat::{passes, properties_pass_predicates, FlatEdgeView, FlatError, FlatGraph, FlatView};
use crate::lookups::{
    labelled_edges_are_listed, labelled_vertices_are_listed, lemma_listed_count,
};
use crate::pending::label_of;
use crate::query::{EdgeId, GraphView, QueryGraph, VertexId};
use crate::text::is_text;
use crate::wander_join::{
    compile_wander_join, joins_are_matches, joins_between, node_views, query_nodes, NodeView,
    WanderJoinNode, WanderJoinNodeKind, WanderJoinQuery,
};
use crate::wander_plans::{
    is_visited, is_wander_plan, step_of, WanderJoinJoin, WanderJoinPlan, WanderView,
};
use rand::rngs::StdRng;
use vstd::prelude::*;

verus! {

/// What a node is bound to.
#[derive(Debug, Clone, Copy)]
pub enum WanderJoinBinding {
    Vertex(VertexId),
    Edge { src: VertexId, dst: VertexId, edge_id: EdgeId },
}

impl WanderJoinBinding {
    /// The data vertex in a column.
    pub open spec fn value(self, col: int) -> Option<VertexId> {
        match self {
            WanderJoinBinding::Vertex(v) => if col == 0 {
                Some(v)
            } else {
                None
            },
            WanderJoinBinding::Edge { src, dst, edge_id } => if col == 0 {
                Some(src)
            } else if col == 1 {
                Some(dst)
            } else {
                None
            },
        }
    }

    /// The data vertex in a column.
    pub fn value_at(&self, col: usize) -> (result: Option<VertexId>)
        ensures
            result == self.value(col as int),
    {
        match self {
            WanderJoinBinding::Vertex(v) => if col == 0 {
                Some(*v)
            } else {
                None
            },
            WanderJoinBinding::Edge { src, dst, .. } => if col == 0 {
                Some(*src)
            } else if col == 1 {
                Some(*dst)
            } else {
                None
            },
        }
    }
}

/// Whether what a node is bound to is of its kind and meets its conditions.
pub open spec fn meets_node(data: FlatView, node: NodeView, binding: WanderJoinBinding) -> bool {
    match (node, binding) {
        (NodeView::Vertex { id, label, predicates }, WanderJoinBinding::Vertex(v)) => passes(
            data.vertex_props(label, v),
            predicates,
        ),
        (
            NodeView::Edge { label, src, dst, src_label, dst_label, predicates },
            WanderJoinBinding::Edge { src: from, dst: to, edge_id },
        ) => passes(data.edge_props(edge_id), predicates),
        _ => false,
    }
}

/// Decides whether what a node is bound to is of its kind and meets its conditions.
pub fn evaluate_wander_join_binding(
    flat_graph: &FlatGraph,
    node: &WanderJoinNode,
    binding: &WanderJoinBinding,
) -> (result: bool)
    ensures
        result == meets_node(flat_graph@, node@, *binding),
{
    match (&node.kind, binding) {
        (WanderJoinNodeKind::Vertex { label, .. }, WanderJoinBinding::Vertex(v)) => {
            properties_pass_predicates(
                flat_graph.vertex_props(label.as_str(), *v),
                &node.predicates,
            )
        },
        (WanderJoinNodeKind::Edge { .. }, WanderJoinBinding::Edge { edge_id, .. }) => {
            properties_pass_predicates(flat_graph.edge_props(*edge_id), &node.predicates)
        },
        _ => false,
    }
}

/// How many vertices or edges of the data have the label of a node.
pub open spec fn start_count(data: FlatView, node: NodeView) -> nat {
    match node {
        NodeView::Vertex { id, label, predicates } => data.labelled(label).len(),
        NodeView::Edge { label, src, dst, src_label, dst_label, predicates } => data.edges_labelled(
            label,
        ).len(),
    }
}

/// What a node is bound to by the vertex or the edge at a place among those with its label.
pub open spec fn start_at(data: FlatView, node: NodeView, k: int) -> Option<WanderJoinBinding> {
    match node {
        NodeView::Vertex { id, label, predicates } => {
            let binding = WanderJoinBinding::Vertex(data.labelled(label)[k]);
            if meets_node(data, node, binding) {
                Some(binding)
            } else {
                None
            }
        },
        NodeView::Edge { label, src, dst, src_label, dst_label, predicates } => {
            let edge_id = data.edges_labelled(label)[k];
            match data.edge(edge_id) {
                None => None,
                Some(e) => {
                    let binding = WanderJoinBinding::Edge { src: e.src, dst: e.dst, edge_id };
                    if e.src_label == src_label && e.dst_label == dst_label && meets_node(
                        data,
                        node,
                        binding,
                    ) {
                        Some(binding)
                    } else {
                        None
                    }
                },
            }
        },
    }
}

/// Binds a node to the vertex or the edge at a place among those with its label.
pub fn bind_start_node(flat_graph: &FlatGraph, node: &WanderJoinNode, k: usize) -> (result: Option<
    WanderJoinBinding,
>)
    requires
        k < start_count(flat_graph@, node@),
    ensures
        result == start_at(flat_graph@, node@, k as int),
{
    match &node.kind {
        WanderJoinNodeKind::Vertex { label, .. } => {
            let candidates: Vec<VertexId> = flat_graph.all_vertex_ids_by_label(label.as_str());
            let binding = WanderJoinBinding::Vertex(candidates[k]);
            if evaluate_wander_join_binding(flat_graph, node, &binding) {
                Some(binding)
            } else {
                None
            }
        },
        WanderJoinNodeKind::Edge { label, src_label, dst_label, .. } => {
            let candidates: Vec<EdgeId> = flat_graph.all_edge_ids_by_label(label.as_str());
            let edge_id: EdgeId = candidates[k];
            match flat_graph.edge_endpoints(edge_id) {
                None => None,
                Some(e) => {
                    let binding = WanderJoinBinding::Edge { src: e.src, dst: e.dst, edge_id };
                    if is_text(e.src_label.as_str(), src_label.as_str()) && is_text(
                        e.dst_label.as_str(),
                        dst_label.as_str(),
                    ) && evaluate_wander_join_binding(flat_graph, node, &binding) {
                        Some(binding)
                    } else {
                        None
                    }
                },
            }
        },
    }
}

/// What was drawn for a node: what it was bound to, and among how many.
#[derive(Debug, Clone, Copy)]
pub struct WanderJoinDraw {
    pub binding: WanderJoinBinding,
    pub factor: usize,
}

/// Whether this can be drawn for the first node.
pub open spec fn is_start_draw(data: FlatView, node: NodeView, draw: Option<WanderJoinDraw>) -> bool {
    if start_count(data, node) == 0 {
        draw is None
    } else {
        exists|k: int|
            0 <= k < start_count(data, node) && draw == (match #[trigger] start_at(data, node, k) {
                Some(binding) => Some(
                    WanderJoinDraw { binding, factor: start_count(data, node) as usize },
                ),
                None => None,
            })
    }
}

/// Draws a vertex or an edge for the first node.
pub fn sample_wander_join_start_node(
    flat_graph: &FlatGraph,
    node: &WanderJoinNode,
    rng: &mut StdRng,
) -> (result: Option<WanderJoinDraw>)
    ensures
        is_start_draw(flat_graph@, node@, result),
{
    let factor: usize = match &node.kind {
        WanderJoinNodeKind::Vertex { label, .. } => flat_graph.vertex_count_by_label(
            label.as_str(),
        ),
        WanderJoinNodeKind::Edge { label, .. } => flat_graph.edge_count_by_label(label.as_str()),
    };
    assert(factor == start_count(flat_graph@, node@));
    if factor == 0 {
        return None;
    }
    let k: usize = index_below(rng, factor);
    match bind_start_node(flat_graph, node, k) {
        Some(binding) => Some(WanderJoinDraw { binding, factor }),
        None => None,
    }
}

/// Whether a data edge is one between vertices with given labels.
pub open spec fn is_edge_between(
    edge: Option<FlatEdgeView>,
    label: Seq<char>,
    src_label: Seq<char>,
    dst_label: Seq<char>,
) -> bool {
    edge matches Some(e) && e.label == label && e.src_label == src_label && e.dst_label == dst_label
}

/// The bindings of an edge node by the neighbors of a data vertex that have the right label.
pub open spec fn edge_bindings(
    data: FlatView,
    node: NodeView,
    bound: VertexId,
    outgoing: bool,
    hops: Seq<(VertexId, EdgeId)>,
) -> Seq<WanderJoinBinding>
    decreases hops.len(),
{
    if hops.len() == 0 {
        Seq::empty()
    } else {
        let before = edge_bindings(data, node, bound, outgoing, hops.drop_last());
        let (other, edge_id) = hops.last();
        let label = node->Edge_label;
        let src_label = node->Edge_src_label;
        let dst_label = node->Edge_dst_label;
        let other_label = if outgoing {
            dst_label
        } else {
            src_label
        };
        if label_of(data.vertices, other) == Some(other_label) && is_edge_between(
            data.edge(edge_id),
            label,
            src_label,
            dst_label,
        ) {
            before.push(
                if outgoing {
                    WanderJoinBinding::Edge { src: bound, dst: other, edge_id }
                } else {
                    WanderJoinBinding::Edge { src: other, dst: bound, edge_id }
                },
            )
        } else {
            before
        }
    }
}

/// The bindings of a node with a data vertex in one of its columns.
pub open spec fn next_bindings(
    data: FlatView,
    node: NodeView,
    bound: VertexId,
    col: int,
) -> Seq<WanderJoinBinding> {
    match node {
        NodeView::Vertex { id, label, predicates } => if label_of(data.vertices, bound) == Some(
            label,
        ) {
            seq![WanderJoinBinding::Vertex(bound)]
        } else {
            Seq::empty()
        },
        NodeView::Edge { label, src, dst, src_label, dst_label, predicates } => if col == 0 {
            edge_bindings(data, node, bound, true, data.hops(src_label, label, true, bound))
        } else if col == 1 {
            edge_bindings(data, node, bound, false, data.hops(dst_label, label, false, bound))
        } else {
            Seq::empty()
        },
    }
}

fn vertex_has_label(flat_graph: &FlatGraph, v: VertexId, label: &str) -> (result: bool)
    ensures
        result == (label_of(flat_graph@.vertices, v) == Some(label@)),
{
    match flat_graph.vertex_label(v) {
        Some(found) => is_text(found.as_str(), label),
        None => false,
    }
}

fn edge_is_between(
    flat_graph: &FlatGraph,
    edge_id: EdgeId,
    label: &str,
    src_label: &str,
    dst_label: &str,
) -> (result: bool)
    ensures
        result == is_edge_between(flat_graph@.edge(edge_id), label@, src_label@, dst_label@),
{
    match flat_graph.edge_endpoints(edge_id) {
        Some(e) => is_text(e.label.as_str(), label) && is_text(e.src_label.as_str(), src_label)
            && is_text(e.dst_label.as_str(), dst_label),
        None => false,
    }
}

/// The bindings of a node with a data vertex in one of its columns.
pub fn collect_next_bindings(
    flat_graph: &FlatGraph,
    node: &WanderJoinNode,
    bound: VertexId,
    col: usize,
) -> (result: Vec<WanderJoinBinding>)
    ensures
        result@ == next_bindings(flat_graph@, node@, bound, col as int),
{
    let ghost data = flat_graph@;
    let ghost view = node@;
    let mut result: Vec<WanderJoinBinding> = Vec::new();
    match &node.kind {
        WanderJoinNodeKind::Vertex { label, .. } => {
            if vertex_has_label(flat_graph, bound, label.as_str()) {
                result.push(WanderJoinBinding::Vertex(bound));
            }
        },
        WanderJoinNodeKind::Edge { label, src_label, dst_label, .. } => {
            if col <= 1 {
                let outgoing: bool = col == 0;
                let own: &str = if outgoing {
                    src_label.as_str()
                } else {
                    dst_label.as_str()
                };
                let far: &str = if outgoing {
                    dst_label.as_str()
                } else {
                    src_label.as_str()
                };
                let hops: Vec<(VertexId, EdgeId)> = flat_graph.neighbors(
                    own,
                    label.as_str(),
                    outgoing,
                    bound,
                );
                let mut i: usize = 0;
                while i < hops.len()
                    invariant
                        data == flat_graph@,
                        view is Edge,
                        view->Edge_label == label@,
                        view->Edge_src_label == src_label@,
                        view->Edge_dst_label == dst_label@,
                        far@ == (if outgoing {
                            dst_label@
                        } else {
                            src_label@
                        }),
                        i <= hops@.len(),
                        result@ == edge_bindings(data, view, bound, outgoing, hops@.take(i as int)),
                    decreases hops.len() - i,
                {
                    assert(hops@.take(i + 1).drop_last() =~= hops@.take(i as int));
                    let (other, edge_id) = hops[i];
                    if vertex_has_label(flat_graph, other, far) && edge_is_between(
                        flat_graph,
                        edge_id,
                        label.as_str(),
                        src_label.as_str(),
                        dst_label.as_str(),
                    ) {
                        result.push(
                            if outgoing {
                                WanderJoinBinding::Edge { src: bound, dst: other, edge_id }
                            } else {
                                WanderJoinBinding::Edge { src: other, dst: bound, edge_id }
                            },
                        );
                    }
                    i = i + 1;
                }
                assert(hops@.take(i as int) =~= hops@);
            }
        },
    }
    assert(result@ =~= next_bindings(data, view, bound, col as int));
    result
}

/// Whether this can be drawn among bindings.
pub open spec fn is_draw_among(
    data: FlatView,
    node: NodeView,
    bindings: Seq<WanderJoinBinding>,
    draw: Option<WanderJoinDraw>,
) -> bool {
    if bindings.len() == 0 {
        draw is None
    } else {
        exists|k: int|
            #![trigger bindings[k]]
            0 <= k < bindings.len() && draw == (if meets_node(data, node, bindings[k]) {
                Some(WanderJoinDraw { binding: bindings[k], factor: bindings.len() as usize })
            } else {
                None
            })
    }
}

/// Whether this can be drawn for a node with a data vertex in one of its columns.
pub open spec fn is_next_draw(
    data: FlatView,
    node: NodeView,
    bound: VertexId,
    col: int,
    draw: Option<WanderJoinDraw>,
) -> bool {
    is_draw_among(data, node, next_bindings(data, node, bound, col), draw)
}

/// Draws a binding of a node with a data vertex in one of its columns.
pub fn sample_wander_join_next_node(
    flat_graph: &FlatGraph,
    node: &WanderJoinNode,
    bound_value: VertexId,
    node_col: usize,
    rng: &mut StdRng,
) -> (result: Option<WanderJoinDraw>)
    ensures
        is_next_draw(flat_graph@, node@, bound_value, node_col as int, result),
{
    let bindings: Vec<WanderJoinBinding> = collect_next_bindings(
        flat_graph,
        node,
        bound_value,
        node_col,
    );
    let factor: usize = bindings.len();
    if factor == 0 {
        return None;
    }
    let k: usize = match &node.kind {
        WanderJoinNodeKind::Vertex { .. } => 0,
        WanderJoinNodeKind::Edge { .. } => index_below(rng, factor),
    };
    let binding: WanderJoinBinding = bindings[k];
    assert(binding == bindings@[k as int]);
    if evaluate_wander_join_binding(flat_graph, node, &binding) {
        Some(WanderJoinDraw { binding, factor })
    } else {
        None
    }
}

/// The node at a place of an order.
pub open spec fn node_at(plan: WanderView, i: int) -> usize {
    if i <= 0 {
        plan.start
    } else {
        plan.steps[i - 1].node_idx
    }
}

/// The place of a node among the first `n` of an order.
pub open spec fn place_among(plan: WanderView, node: usize, n: int) -> Option<int>
    decreases n,
{
    if n <= 0 {
        None
    } else {
        match place_among(plan, node, n - 1) {
            Some(place) => Some(place),
            None => if node_at(plan, n - 1) == node {
                Some(n - 1)
            } else {
                None
            },
        }
    }
}

proof fn lemma_place_stays(plan: WanderView, node: usize, n: int, m: int)
    requires
        0 <= n <= m,
        place_among(plan, node, n) is Some,
    ensures
        place_among(plan, node, m) == place_among(plan, node, n),
    decreases m,
{
    if n < m {
        lemma_place_stays(plan, node, n, m - 1);
    }
}

fn find_place(plan: &WanderJoinPlan, node: usize, n: usize) -> (result: Option<usize>)
    requires
        n <= plan@.steps.len() + 1,
    ensures
        match result {
            Some(place) => place < n && place_among(plan@, node, n as int) == Some(place as int),
            None => place_among(plan@, node, n as int) is None,
        },
{
    let mut i: usize = 0;
    while i < n
        invariant
            n <= plan@.steps.len() + 1,
            i <= n,
            place_among(plan@, node, i as int) is None,
        decreases n - i,
    {
        let here: usize = if i == 0 {
            plan.start_node_idx
        } else {
            plan.steps[i - 1].node_idx
        };
        if here == node {
            proof {
                lemma_place_stays(plan@, node, i + 1, n as int);
            }
            return Some(i);
        }
        i = i + 1;
    }
    None
}

/// The data vertex in a column of a node that was bound before.
pub open spec fn bound_at(
    plan: WanderView,
    draws: Seq<WanderJoinDraw>,
    node: usize,
    col: int,
) -> Option<VertexId> {
    match place_among(plan, node, draws.len() as int) {
        Some(place) => draws[place].binding.value(col),
        None => None,
    }
}

fn find_bound(plan: &WanderJoinPlan, draws: &Vec<WanderJoinDraw>, node: usize, col: usize) -> (result:
    Option<VertexId>)
    requires
        draws@.len() <= plan@.steps.len() + 1,
    ensures
        result == bound_at(plan@, draws@, node, col as int),
{
    match find_place(plan, node, draws.len()) {
        Some(place) => draws[place].binding.value_at(col),
        None => None,
    }
}

/// Whether two columns that are joined hold the same data vertex.
pub open spec fn join_holds(
    plan: WanderView,
    draws: Seq<WanderJoinDraw>,
    join: WanderJoinJoin,
) -> bool {
    &&& place_among(plan, join.from_node, draws.len() as int) is Some
    &&& place_among(plan, join.to_node, draws.len() as int) is Some
    &&& bound_at(plan, draws, join.from_node, join.from_col as int) == bound_at(
        plan,
        draws,
        join.to_node,
        join.to_col as int,
    )
}

/// Whether all columns that are joined hold the same data vertex.
pub open spec fn joins_hold(
    plan: WanderView,
    draws: Seq<WanderJoinDraw>,
    joins: Seq<WanderJoinJoin>,
) -> bool {
    forall|k: int| #![trigger joins[k]] 0 <= k < joins.len() ==> join_holds(plan, draws, joins[k])
}

/// Decides whether all columns that are joined hold the same data vertex.
pub fn check_wander_join_constraints(
    plan: &WanderJoinPlan,
    draws: &Vec<WanderJoinDraw>,
    joins: &Vec<WanderJoinJoin>,
) -> (result: bool)
    requires
        draws@.len() <= plan@.steps.len() + 1,
    ensures
        result == joins_hold(plan@, draws@, joins@),
{
    let mut k: usize = 0;
    while k < joins.len()
        invariant
            draws@.len() <= plan@.steps.len() + 1,
            k <= joins@.len(),
            forall|i: int|
                #![trigger joins@[i]]
                0 <= i < k ==> join_holds(plan@, draws@, joins@[i]),
        decreases joins.len() - k,
    {
        let join: WanderJoinJoin = joins[k];
        assert(join == joins@[k as int]);
        let holds: bool = match (
            find_place(plan, join.from_node, draws.len()),
            find_place(plan, join.to_node, draws.len()),
        ) {
            (Some(from), Some(to)) => draws[from].binding.value_at(join.from_col)
                == draws[to].binding.value_at(join.to_col),
            _ => false,
        };
        if !holds {
            assert(!join_holds(plan@, draws@, joins@[k as int]));
            return false;
        }
        k = k + 1;
    }
    true
}

/// A random walk along an order: what was drawn for the nodes, how often something was looked up,
/// and whether it is a match.
#[derive(Debug)]
pub struct WanderJoinSample {
    pub draws: Vec<WanderJoinDraw>,
    pub lookups: usize,
    pub complete: bool,
}

/// Whether this can be drawn for the node at a place of an order.
pub open spec fn is_draw_at(
    data: FlatView,
    nodes: Seq<NodeView>,
    plan: WanderView,
    before: Seq<WanderJoinDraw>,
    draw: Option<WanderJoinDraw>,
) -> bool {
    if before.len() == 0 {
        is_start_draw(data, nodes[plan.start as int], draw)
    } else {
        let step = plan.steps[before.len() - 1];
        bound_at(plan, before, step.counterpart_node_idx, step.counterpart_col as int) matches Some(
            bound,
        ) && is_next_draw(data, nodes[step.node_idx as int], bound, step.node_col as int, draw)
    }
}

/// Whether a walk has nothing to follow at a place of an order.
pub open spec fn is_cut_off(plan: WanderView, before: Seq<WanderJoinDraw>) -> bool {
    before.len() > 0 && {
        let step = plan.steps[before.len() - 1];
        bound_at(plan, before, step.counterpart_node_idx, step.counterpart_col as int) is None
    }
}

/// Whether draws follow an order.
pub open spec fn are_draws(
    data: FlatView,
    nodes: Seq<NodeView>,
    plan: WanderView,
    draws: Seq<WanderJoinDraw>,
) -> bool {
    forall|i: int|
        #![trigger draws[i]]
        0 <= i < draws.len() ==> is_draw_at(data, nodes, plan, draws.take(i), Some(draws[i]))
}

/// Whether this can be a random walk along an order. A walk that draws nothing for a node ends
/// there; one that gets through is a match where all joined columns hold the same data vertex.
pub open spec fn is_wander_sample(
    data: FlatView,
    nodes: Seq<NodeView>,
    joins: Seq<WanderJoinJoin>,
    plan: WanderView,
    sample: WanderJoinSample,
) -> bool {
    let draws = sample.draws@;
    &&& draws.len() <= plan.steps.len() + 1
    &&& are_draws(data, nodes, plan, draws)
    &&& if draws.len() == plan.steps.len() + 1 {
        &&& sample.lookups == draws.len()
        &&& sample.complete == joins_hold(plan, draws, joins)
    } else {
        &&& !sample.complete
        &&& if is_cut_off(plan, draws) {
            sample.lookups == draws.len()
        } else {
            &&& is_draw_at(data, nodes, plan, draws, None)
            &&& sample.lookups == draws.len() + 1
        }
    }
}

/// Whether an order is one of the nodes that are there.
pub open spec fn is_order_of(plan: WanderView, node_count: nat) -> bool {
    &&& plan.start < node_count
    &&& plan.steps.len() < node_count
    &&& forall|i: int|
        #![trigger plan.steps[i]]
        0 <= i < plan.steps.len() ==> plan.steps[i].node_idx < node_count
}

proof fn lemma_one_more_draw(
    data: FlatView,
    nodes: Seq<NodeView>,
    plan: WanderView,
    draws: Seq<WanderJoinDraw>,
    draw: WanderJoinDraw,
)
    requires
        are_draws(data, nodes, plan, draws),
        is_draw_at(data, nodes, plan, draws, Some(draw)),
    ensures
        are_draws(data, nodes, plan, draws.push(draw)),
{
    let more = draws.push(draw);
    assert forall|i: int| #![trigger more[i]] 0 <= i < more.len() implies is_draw_at(
        data,
        nodes,
        plan,
        more.take(i),
        Some(more[i]),
    ) by {
        assert(more.take(i) =~= draws.take(i));
        if i == draws.len() {
            assert(draws.take(i) =~= draws);
        } else {
            assert(more[i] == draws[i]);
        }
    }
}

/// Walks along an order at random.
pub fn execute_wander_join_sample(
    flat_graph: &FlatGraph,
    nodes: &Vec<WanderJoinNode>,
    joins: &Vec<WanderJoinJoin>,
    plan: &WanderJoinPlan,
    rng: &mut StdRng,
) -> (result: WanderJoinSample)
    requires
        is_order_of(plan@, nodes@.len()),
    ensures
        is_wander_sample(flat_graph@, node_views(nodes@), joins@, plan@, result),
{
    let ghost data = flat_graph@;
    let ghost views = node_views(nodes@);
    let mut draws: Vec<WanderJoinDraw> = Vec::new();
    assert(views[plan.start_node_idx as int] == nodes@[plan.start_node_idx as int]@);
    match sample_wander_join_start_node(flat_graph, &nodes[plan.start_node_idx], rng) {
        None => {
            return WanderJoinSample { draws, lookups: 1, complete: false };
        },
        Some(draw) => {
            proof {
                lemma_one_more_draw(data, views, plan@, draws@, draw);
            }
            draws.push(draw);
        },
    }
    let mut i: usize = 0;
    while i < plan.steps.len()
        invariant
            data == flat_graph@,
            views == node_views(nodes@),
            views.len() == nodes@.len(),
            is_order_of(plan@, nodes@.len()),
            i <= plan@.steps.len(),
            draws@.len() == i + 1,
            are_draws(data, views, plan@, draws@),
        decreases plan.steps.len() - i,
    {
        let step = plan.steps[i];
        assert(step == plan@.steps[i as int]);
        assert(views[step.node_idx as int] == nodes@[step.node_idx as int]@);
        let lookups: usize = draws.len();
        assert(nodes.len() == nodes@.len());
        match find_bound(plan, &draws, step.counterpart_node_idx, step.counterpart_col) {
            None => {
                return WanderJoinSample { draws, lookups, complete: false };
            },
            Some(bound) => {
                match sample_wander_join_next_node(
                    flat_graph,
                    &nodes[step.node_idx],
                    bound,
                    step.node_col,
                    rng,
                ) {
                    None => {
                        return WanderJoinSample { draws, lookups: lookups + 1, complete: false };
                    },
                    Some(draw) => {
                        proof {
                            lemma_one_more_draw(data, views, plan@, draws@, draw);
                        }
                        draws.push(draw);
                    },
                }
            },
        }
        i = i + 1;
    }
    let lookups: usize = draws.len();
    let complete: bool = check_wander_join_constraints(plan, &draws, joins);
    WanderJoinSample { draws, lookups, complete }
}

proof fn lemma_place_is_there(plan: WanderView, node: usize, n: int)
    ensures
        place_among(plan, node, n) matches Some(place) ==> 0 <= place < n && node_at(plan, place)
            == node,
        place_among(plan, node, n) is None ==> forall|i: int|
            0 <= i < n ==> #[trigger] node_at(plan, i) != node,
    decreases n,
{
    if n > 0 {
        lemma_place_is_there(plan, node, n - 1);
    }
}

proof fn lemma_draws_meet_nodes(
    data: FlatView,
    nodes: Seq<NodeView>,
    plan: WanderView,
    draws: Seq<WanderJoinDraw>,
    i: int,
)
    requires
        are_draws(data, nodes, plan, draws),
        0 <= i < draws.len(),
    ensures
        meets_node(data, nodes[node_at(plan, i) as int], draws[i].binding),
{
    assert(is_draw_at(data, nodes, plan, draws.take(i), Some(draws[i])));
    assert(draws.take(i).len() == i);
}

/// A walk along a plan of a query always has a vertex to follow.
pub proof fn walks_are_never_cut_off(
    data: FlatView,
    nodes: Seq<NodeView>,
    plan: WanderView,
    draws: Seq<WanderJoinDraw>,
)
    requires
        nodes.len() <= usize::MAX,
        is_wander_plan(joins_between(nodes, nodes.len() as int), nodes.len(), plan),
        are_draws(data, nodes, plan, draws),
        draws.len() <= plan.steps.len(),
    ensures
        !is_cut_off(plan, draws),
{
    if draws.len() > 0 {
        let joins = joins_between(nodes, nodes.len() as int);
        let n = draws.len() - 1;
        let step = plan.steps[n];
        let j = choose|j: int| 0 <= j < joins.len() && step_of(#[trigger] joins[j]) == step;
        joins_are_matches(nodes, nodes.len() as int, j);
        let node = step.counterpart_node_idx;
        assert(is_visited(plan, n, node));
        lemma_place_is_there(plan, node, n + 1);
        if plan.start == node {
            assert(node_at(plan, 0) == node);
        } else {
            let i = choose|i: int| 0 <= i < n && (#[trigger] plan.steps[i]).node_idx == node;
            assert(node_at(plan, i + 1) == node);
        }
        let place = place_among(plan, node, n + 1)->0;
        lemma_draws_meet_nodes(data, nodes, plan, draws, place);
    }
}

/// How many complete matches of a plan make it time to choose.
pub const CHOICE_SUCCESSES: usize = 100;

/// How many complete matches a plan needs to be chosen.
pub const CANDIDATE_SUCCESSES: usize = 50;

/// One walk: the plan whose turn it is, the plan that was chosen, if any, and the walk.
#[derive(Debug)]
pub struct WanderJoinTurn {
    pub current: usize,
    pub chosen: Option<usize>,
    pub sample: WanderJoinSample,
}

impl WanderJoinTurn {
    /// The plan that a walk follows.
    pub open spec fn plan(self) -> usize {
        match self.chosen {
            Some(plan) => plan,
            None => self.current,
        }
    }
}

/// How many walks of a plan were complete matches.
pub open spec fn successes(turns: Seq<WanderJoinTurn>, plan: usize) -> nat
    decreases turns.len(),
{
    if turns.len() == 0 {
        0
    } else {
        let before = successes(turns.drop_last(), plan);
        if turns.last().plan() == plan && turns.last().sample.complete {
            before + 1
        } else {
            before
        }
    }
}

/// The plans below `n` that can be chosen.
pub open spec fn candidate_plans(turns: Seq<WanderJoinTurn>, n: int) -> Seq<usize>
    decreases n,
{
    if n <= 0 {
        Seq::empty()
    } else {
        let before = candidate_plans(turns, n - 1);
        if successes(turns, (n - 1) as usize) >= CANDIDATE_SUCCESSES {
            before.push((n - 1) as usize)
        } else {
            before
        }
    }
}

/// Whether a plan, or none, may have been chosen after some walks.
pub open spec fn may_choose<C: Fn(&Vec<WanderJoinTurn>, &Vec<usize>) -> Option<usize>>(
    choice: C,
    turns: Seq<WanderJoinTurn>,
    candidates: Seq<usize>,
    chosen: Option<usize>,
) -> bool {
    exists|t: Vec<WanderJoinTurn>, c: Vec<usize>|
        t@ == turns && c@ == candidates && #[trigger] choice.ensures((&t, &c), chosen)
}

/// Whether a turn may follow the turns so far: a chosen plan stays; else the next plan has its
/// turn, unless the last one has matched so often that a plan is chosen.
pub open spec fn may_follow<C: Fn(&Vec<WanderJoinTurn>, &Vec<usize>) -> Option<usize>>(
    choice: C,
    plan_count: nat,
    turns: Seq<WanderJoinTurn>,
    current: usize,
    chosen: Option<usize>,
) -> bool {
    let last = turns.last();
    let after = (last.current + 1) % plan_count as int;
    match last.chosen {
        Some(plan) => chosen == Some(plan) && current == last.current,
        None => if successes(turns, last.current) >= CHOICE_SUCCESSES {
            &&& may_choose(choice, turns, candidate_plans(turns, plan_count as int), chosen)
            &&& current == (match chosen {
                Some(_) => last.current as int,
                None => after,
            })
        } else {
            chosen is None && current == after
        },
    }
}

/// Whether walks took their turns.
pub open spec fn are_turns<C: Fn(&Vec<WanderJoinTurn>, &Vec<usize>) -> Option<usize>>(
    data: FlatView,
    query: WanderJoinQuery,
    choice: C,
    turns: Seq<WanderJoinTurn>,
) -> bool {
    &&& turns.len() > 0 ==> turns[0].current == 0 && turns[0].chosen is None
    &&& forall|i: int|
        #![trigger turns[i]]
        0 <= i < turns.len() ==> {
            &&& turns[i].plan() < query.plans@.len()
            &&& is_wander_sample(
                data,
                node_views(query.nodes@),
                query.joins@,
                query.plans@[turns[i].plan() as int]@,
                turns[i].sample,
            )
        }
    &&& forall|i: int|
        #![trigger turns[i]]
        0 < i < turns.len() ==> may_follow(
            choice,
            query.plans@.len(),
            turns.take(i),
            turns[i].current,
            turns[i].chosen,
        )
}

fn count_successes(turns: &Vec<WanderJoinTurn>, plan: usize) -> (result: usize)
    ensures
        result == successes(turns@, plan),
{
    let mut count: usize = 0;
    let mut i: usize = 0;
    while i < turns.len()
        invariant
            i <= turns@.len(),
            count <= i,
            count == successes(turns@.take(i as int), plan),
        decreases turns.len() - i,
    {
        assert(turns@.take(i + 1).drop_last() =~= turns@.take(i as int));
        let turn: &WanderJoinTurn = &turns[i];
        let followed: usize = match turn.chosen {
            Some(plan) => plan,
            None => turn.current,
        };
        if followed == plan && turn.sample.complete {
            count = count + 1;
        }
        i = i + 1;
    }
    assert(turns@.take(i as int) =~= turns@);
    count
}

fn collect_candidates(turns: &Vec<WanderJoinTurn>, plan_count: usize) -> (result: Vec<usize>)
    ensures
        result@ == candidate_plans(turns@, plan_count as int),
{
    let mut candidates: Vec<usize> = Vec::new();
    let mut n: usize = 0;
    while n < plan_count
        invariant
            n <= plan_count,
            candidates@ == candidate_plans(turns@, n as int),
        decreases plan_count - n,
    {
        if count_successes(turns, n) >= CANDIDATE_SUCCESSES {
            candidates.push(n);
        }
        n = n + 1;
    }
    candidates
}

proof fn lemma_candidates_are_plans(turns: Seq<WanderJoinTurn>, n: int, plan: usize)
    requires
        0 <= n <= usize::MAX,
        candidate_plans(turns, n).contains(plan),
    ensures
        plan < n,
    decreases n,
{
    if n > 0 {
        let before = candidate_plans(turns, n - 1);
        if before.contains(plan) {
            lemma_candidates_are_plans(turns, n - 1, plan);
        }
    }
}

proof fn lemma_one_more_turn<C: Fn(&Vec<WanderJoinTurn>, &Vec<usize>) -> Option<usize>>(
    data: FlatView,
    query: WanderJoinQuery,
    choice: C,
    turns: Seq<WanderJoinTurn>,
    next: WanderJoinTurn,
)
    requires
        are_turns(data, query, choice, turns),
        turns.len() == 0 ==> next.current == 0 && next.chosen is None,
        turns.len() > 0 ==> may_follow(
            choice,
            query.plans@.len(),
            turns,
            next.current,
            next.chosen,
        ),
        next.plan() < query.plans@.len(),
        is_wander_sample(
            data,
            node_views(query.nodes@),
            query.joins@,
            query.plans@[next.plan() as int]@,
            next.sample,
        ),
    ensures
        are_turns(data, query, choice, turns.push(next)),
{
    let more = turns.push(next);
    assert forall|i: int| #![trigger more[i]] 0 < i < more.len() implies may_follow(
        choice,
        query.plans@.len(),
        more.take(i),
        more[i].current,
        more[i].chosen,
    ) by {
        assert(more.take(i) =~= turns.take(i));
        if i == turns.len() {
            assert(turns.take(i) =~= turns);
        } else {
            assert(more[i] == turns[i]);
        }
    }
    assert forall|i: int| #![trigger more[i]] 0 <= i < turns.len() implies more[i] == turns[i] by {}
}

/// Walks so often along the plans of a query, which take turns until one is chosen among those
/// that have matched often enough.
pub fn run_wander_join<C: Fn(&Vec<WanderJoinTurn>, &Vec<usize>) -> Option<usize>>(
    flat_graph: &FlatGraph,
    query: &WanderJoinQuery,
    sample_size: usize,
    choice: &C,
    rng: &mut StdRng,
) -> (result: Vec<WanderJoinTurn>)
    requires
        query.wf(),
        query.plans@.len() > 0,
        forall|t: &Vec<WanderJoinTurn>, c: &Vec<usize>| #[trigger] choice.requires((t, c)),
        forall|t: &Vec<WanderJoinTurn>, c: &Vec<usize>, plan: usize| #[trigger]
            choice.ensures((t, c), Some(plan)) ==> c@.contains(plan),
    ensures
        result@.len() == sample_size,
        are_turns(flat_graph@, *query, *choice, result@),
{
    let plan_count: usize = query.plans.len();
    let mut turns: Vec<WanderJoinTurn> = Vec::new();
    let mut current: usize = 0;
    let mut chosen: Option<usize> = None;
    while turns.len() < sample_size
        invariant
            query.wf(),
            plan_count == query.plans@.len(),
            plan_count > 0,
            forall|t: &Vec<WanderJoinTurn>, c: &Vec<usize>| #[trigger] choice.requires((t, c)),
            forall|t: &Vec<WanderJoinTurn>, c: &Vec<usize>, plan: usize| #[trigger]
                choice.ensures((t, c), Some(plan)) ==> c@.contains(plan),
            turns@.len() <= sample_size,
            are_turns(flat_graph@, *query, *choice, turns@),
            current < plan_count,
            chosen matches Some(plan) ==> plan < plan_count,
            turns@.len() == 0 ==> current == 0 && chosen is None,
            turns@.len() > 0 ==> may_follow(*choice, plan_count as nat, turns@, current, chosen),
        decreases sample_size - turns.len(),
    {
        let plan: usize = match chosen {
            Some(plan) => plan,
            None => current,
        };
        proof {
            lemma_plan_is_order(*query, plan as int);
        }
        let sample: WanderJoinSample = execute_wander_join_sample(
            flat_graph,
            &query.nodes,
            &query.joins,
            &query.plans[plan],
            rng,
        );
        let turn = WanderJoinTurn { current, chosen, sample };
        proof {
            lemma_one_more_turn(flat_graph@, *query, *choice, turns@, turn);
        }
        turns.push(turn);
        assert(turns@.last() == turn);
        if chosen.is_none() {
            let after: usize = if current + 1 == plan_count {
                0
            } else {
                current + 1
            };
            assert(after == (current + 1) % plan_count as int) by (nonlinear_arith)
                requires
                    current < plan_count,
                    after == (if current + 1 == plan_count {
                        0
                    } else {
                        current + 1
                    }),
            ;
            if count_successes(&turns, current) >= CHOICE_SUCCESSES {
                let candidates: Vec<usize> = collect_candidates(&turns, plan_count);
                let best: Option<usize> = choice(&turns, &candidates);
                assert(may_choose(*choice, turns@, candidates@, best));
                match best {
                    Some(best) => {
                        proof {
                            lemma_candidates_are_plans(turns@, plan_count as int, best);
                        }
                        chosen = Some(best);
                    },
                    None => {
                        current = after;
                    },
                }
            } else {
                current = after;
            }
        }
    }
    turns
}

proof fn lemma_plan_is_order(query: WanderJoinQuery, i: int)
    requires
        query.wf(),
        0 <= i < query.plans@.len(),
    ensures
        is_order_of(query.plans@[i]@, query.nodes@.len()),
{
    let plan = query.plans@[i]@;
    assert(is_wander_plan(query.joins@, query.nodes@.len(), plan));
    assert forall|k: int| #![trigger plan.steps[k]] 0 <= k < plan.steps.len() implies
        plan.steps[k].node_idx < query.nodes@.len() by {
        let j = choose|j: int|
            0 <= j < query.joins@.len() && step_of(#[trigger] query.joins@[j])
                == plan.steps[k];
        assert(query.joins@[j].to_node < query.nodes@.len());
    }
}

/// Matches a query at random, so often. No walk is made where there is no plan.
pub fn estimate_cardinality_wander_join_flat<
    C: Fn(&Vec<WanderJoinTurn>, &Vec<usize>) -> Option<usize>,
>(
    query_graph: &QueryGraph,
    flat_graph: &FlatGraph,
    sample_size: usize,
    seed: Option<u64>,
    choice: &C,
) -> (result: Result<Vec<WanderJoinTurn>, FlatError>)
    requires
        query_graph@.wf(),
        forall|t: &Vec<WanderJoinTurn>, c: &Vec<usize>| #[trigger] choice.requires((t, c)),
        forall|t: &Vec<WanderJoinTurn>, c: &Vec<usize>, plan: usize| #[trigger]
            choice.ensures((t, c), Some(plan)) ==> c@.contains(plan),
    ensures
        sample_size == 0 ==> (result matches Ok(turns) && turns@.len() == 0),
        sample_size > 0 ==> match query_nodes(query_graph@, flat_graph@) {
            Err(error) => result matches Err(e) && e@ == error,
            Ok(nodes) => result matches Ok(turns) && is_estimate(
                flat_graph@,
                nodes,
                sample_size,
                *choice,
                turns@,
            ),
        },
{
    if sample_size == 0 {
        return Ok(Vec::new());
    }
    let query: WanderJoinQuery = match compile_wander_join(query_graph, flat_graph, sample_size) {
        Ok(query) => query,
        Err(error) => {
            return Err(error);
        },
    };
    let ghost nodes = query_nodes(query_graph@, flat_graph@)->Ok_0;
    if query.plans.len() == 0 {
        let turns: Vec<WanderJoinTurn> = Vec::new();
        assert(is_estimate_by(flat_graph@, query, nodes, sample_size, *choice, turns@));
        return Ok(turns);
    }
    let mut rng: StdRng = seeded(
        match seed {
            Some(seed) => seed,
            None => 0,
        },
    );
    let turns: Vec<WanderJoinTurn> = run_wander_join(
        flat_graph,
        &query,
        sample_size,
        choice,
        &mut rng,
    );
    assert(is_estimate_by(flat_graph@, query, nodes, sample_size, *choice, turns@));
    Ok(turns)
}

/// Whether these are the walks of a query that is ready to be matched.
pub open spec fn is_estimate_by<C: Fn(&Vec<WanderJoinTurn>, &Vec<usize>) -> Option<usize>>(
    data: FlatView,
    query: WanderJoinQuery,
    nodes: Seq<NodeView>,
    sample_size: usize,
    choice: C,
    turns: Seq<WanderJoinTurn>,
) -> bool {
    &&& query.wf()
    &&& query.is_for(nodes, sample_size as nat)
    &&& turns.len() == (if query.plans@.len() == 0 {
        0
    } else {
        sample_size as nat
    })
    &&& are_turns(data, query, choice, turns)
}

/// Whether these are the walks of a query with given nodes.
pub open spec fn is_estimate<C: Fn(&Vec<WanderJoinTurn>, &Vec<usize>) -> Option<usize>>(
    data: FlatView,
    nodes: Seq<NodeView>,
    sample_size: usize,
    choice: C,
    turns: Seq<WanderJoinTurn>,
) -> bool {
    exists|query: WanderJoinQuery| #[trigger]
        is_estimate_by(data, query, nodes, sample_size, choice, turns)
}

/// The sum of counts over the first `n` vertices of a query.
pub open spec fn vertex_population(graph: GraphView, data: FlatView, n: int) -> nat
    decreases n,
{
    if n <= 0 {
        0
    } else {
        vertex_population(graph, data, n - 1) + data.labelled(graph.vertices[n - 1].label).len()
    }
}

/// The sum of counts over the first `n` edges of a query.
pub open spec fn edge_population(graph: GraphView, data: FlatView, n: int) -> nat
    decreases n,
{
    if n <= 0 {
        0
    } else {
        edge_population(graph, data, n - 1) + data.edges_labelled(graph.edges[n - 1].label).len()
    }
}

/// The sum of counts over all vertices and edges of a query.
pub open spec fn query_population(graph: GraphView, data: FlatView) -> nat {
    vertex_population(graph, data, graph.vertices.len() as int) + edge_population(
        graph,
        data,
        graph.edges.len() as int,
    )
}

proof fn lemma_populations_grow(graph: GraphView, data: FlatView, n: int, m: int)
    requires
        0 <= n <= m,
    ensures
        vertex_population(graph, data, n) <= vertex_population(graph, data, m),
        edge_population(graph, data, n) <= edge_population(graph, data, m),
    decreases m,
{
    if n < m {
        lemma_populations_grow(graph, data, n, m - 1);
    }
}

/// How many vertices or edges of the data a vertex or an edge of a query can be bound to, on
/// average and rounded down; none for an empty query, and where the sum is too large.
pub fn average_population(query_graph: &QueryGraph, flat_graph: &FlatGraph) -> (result: Option<
    usize,
>)
    ensures
        ({
            let graph = query_graph@;
            let size = graph.vertices.len() + graph.edges.len();
            let sum = query_population(graph, flat_graph@);
            match result {
                None => size == 0 || size > usize::MAX || sum > usize::MAX,
                Some(average) => 0 < size <= usize::MAX && sum <= usize::MAX && average == sum
                    / size,
            }
        }),
{
    let ghost graph = query_graph@;
    let ghost data = flat_graph@;
    let mut sum: usize = 0;
    let mut i: usize = 0;
    while i < query_graph.vertices.len()
        invariant
            graph == query_graph@,
            data == flat_graph@,
            graph.vertices.len() == query_graph.vertices@.len(),
            i <= query_graph.vertices@.len(),
            sum == vertex_population(graph, data, i as int),
        decreases query_graph.vertices.len() - i,
    {
        assert(graph.vertices[i as int] == query_graph.vertices@[i as int]@);
        let count: usize = flat_graph.vertex_count_by_label(query_graph.vertices[i].label.as_str());
        match sum.checked_add(count) {
            None => {
                proof {
                    lemma_populations_grow(graph, data, i + 1, graph.vertices.len() as int);
                }
                return None;
            },
            Some(more) => {
                sum = more;
            },
        }
        i = i + 1;
    }
    let ghost vertices = sum as nat;
    let mut j: usize = 0;
    while j < query_graph.edges.len()
        invariant
            graph == query_graph@,
            data == flat_graph@,
            graph.edges.len() == query_graph.edges@.len(),
            vertices == vertex_population(graph, data, graph.vertices.len() as int),
            j <= query_graph.edges@.len(),
            sum == vertices + edge_population(graph, data, j as int),
        decreases query_graph.edges.len() - j,
    {
        assert(graph.edges[j as int] == query_graph.edges@[j as int]@);
        let count: usize = flat_graph.edge_count_by_label(query_graph.edges[j].label.as_str());
        match sum.checked_add(count) {
            None => {
                proof {
                    lemma_populations_grow(graph, data, j + 1, graph.edges.len() as int);
                }
                return None;
            },
            Some(more) => {
                sum = more;
            },
        }
        j = j + 1;
    }
    match query_graph.vertices.len().checked_add(query_graph.edges.len()) {
        None => None,
        Some(size) => if size == 0 {
            None
        } else {
            Some(sum / size)
        },
    }
}

/// The walks of a plan that were complete matches.
pub open spec fn complete_walks(turns: Seq<WanderJoinTurn>, plan: usize) -> Set<int> {
    places(turns.len() as int, |k: int| turns[k].plan() == plan && turns[k].sample.complete)
}

/// A plan has as many successes as walks that were complete matches.
pub proof fn successes_are_complete_walks(turns: Seq<WanderJoinTurn>, plan: usize)
    ensures
        complete_walks(turns, plan).finite(),
        successes(turns, plan) == complete_walks(turns, plan).len(),
    decreases turns.len(),
{
    let wanted = |k: int| turns[k].plan() == plan && turns[k].sample.complete;
    let n = turns.len() as int;
    assert(complete_walks(turns, plan) =~= places(n, wanted));
    if n == 0 {
        lemma_no_places(wanted);
    } else {
        let fewer = turns.drop_last();
        successes_are_complete_walks(fewer, plan);
        assert(complete_walks(fewer, plan) =~= places(n - 1, wanted));
        lemma_places_step(n, wanted);
    }
}

/// The plans that can be chosen are those with at least fifty complete walks.
pub proof fn candidates_have_fifty_complete_walks(
    turns: Seq<WanderJoinTurn>,
    plan_count: int,
    plan: usize,
)
    requires
        plan_count <= usize::MAX,
    ensures
        candidate_plans(turns, plan_count).contains(plan) <==> plan < plan_count && complete_walks(
            turns,
            plan,
        ).len() >= 50,
    decreases plan_count,
{
    successes_are_complete_walks(turns, plan);
    if plan_count > 0 {
        candidates_have_fifty_complete_walks(turns, plan_count - 1, plan);
        let before = candidate_plans(turns, plan_count - 1);
        let all = candidate_plans(turns, plan_count);
        if before.contains(plan) {
            let i = choose|i: int| 0 <= i < before.len() && before[i] == plan;
            assert(all[i] == plan);
        }
        if plan == plan_count - 1 && complete_walks(turns, plan).len() >= 50 {
            assert(all[all.len() - 1] == plan);
        }
    }
}

/// The first walk follows the first plan. As long as no plan is chosen, the next walk follows the
/// next plan, and after the last one the first again; a plan can be chosen only after a walk of a
/// plan with at least a hundred complete walks. A chosen plan is followed from then on.
pub proof fn plans_take_turns<C: Fn(&Vec<WanderJoinTurn>, &Vec<usize>) -> Option<usize>>(
    data: FlatView,
    query: WanderJoinQuery,
    choice: C,
    turns: Seq<WanderJoinTurn>,
    i: int,
)
    requires
        are_turns(data, query, choice, turns),
        0 <= i < turns.len(),
    ensures
        turns[i].plan() < query.plans@.len(),
        i == 0 ==> turns[i].plan() == 0 && turns[i].chosen is None,
        i > 0 && turns[i].chosen is None ==> turns[i - 1].chosen is None && turns[i].plan() == (
        turns[i - 1].plan() + 1) % query.plans@.len() as int,
        i > 0 && turns[i - 1].chosen is Some ==> turns[i].chosen is Some && turns[i].plan()
            == turns[i - 1].plan(),
        i > 0 && turns[i - 1].chosen is None && turns[i].chosen is Some ==> complete_walks(
            turns.take(i),
            turns[i - 1].plan(),
        ).len() >= 100,
{
    let turn = turns[i];
    if i > 0 {
        let last = turns[i - 1];
        assert(turns.take(i).last() == last);
        successes_are_complete_walks(turns.take(i), last.plan());
    }
}

/// The population of a query counts each vertex of it with each data vertex that has its label,
/// and each edge of it with each data edge that has its label.
pub proof fn populations_count_bindings(graph: GraphView, data: FlatView)
    ensures
        ({
            let vertices = Set::new(
                |b: (int, int)|
                    0 <= b.0 < graph.vertices.len() && 0 <= b.1 < data.vertices.len()
                        && graph.vertices[b.0].label == data.vertices[b.1].label,
            );
            let edges = Set::new(
                |b: (int, int)|
                    0 <= b.0 < graph.edges.len() && 0 <= b.1 < data.edges.len()
                        && graph.edges[b.0].label == data.edges[b.1].label,
            );
            &&& vertices.finite() && edges.finite()
            &&& query_population(graph, data) == vertices.len() + edges.len()
        }),
{
    lemma_vertex_bindings(graph, data, graph.vertices.len() as int);
    lemma_edge_bindings(graph, data, graph.edges.len() as int);
    assert(vertex_bindings(graph, data, graph.vertices.len() as int) =~= Set::new(
        |b: (int, int)|
            0 <= b.0 < graph.vertices.len() && 0 <= b.1 < data.vertices.len()
                && graph.vertices[b.0].label == data.vertices[b.1].label,
    ));
    assert(edge_label_bindings(graph, data, graph.edges.len() as int) =~= Set::new(
        |b: (int, int)|
            0 <= b.0 < graph.edges.len() && 0 <= b.1 < data.edges.len() && graph.edges[b.0].label
                == data.edges[b.1].label,
    ));
}

spec fn vertex_bindings(graph: GraphView, data: FlatView, n: int) -> Set<(int, int)> {
    Set::new(
        |b: (int, int)|
            0 <= b.0 < n && 0 <= b.1 < data.vertices.len() && graph.vertices[b.0].label
                == data.vertices[b.1].label,
    )
}

spec fn edge_label_bindings(graph: GraphView, data: FlatView, n: int) -> Set<(int, int)> {
    Set::new(
        |b: (int, int)|
            0 <= b.0 < n && 0 <= b.1 < data.edges.len() && graph.edges[b.0].label
                == data.edges[b.1].label,
    )
}

proof fn lemma_vertex_bindings(graph: GraphView, data: FlatView, n: int)
    requires
        0 <= n <= graph.vertices.len(),
    ensures
        vertex_bindings(graph, data, n).finite(),
        vertex_population(graph, data, n) == vertex_bindings(graph, data, n).len(),
    decreases n,
{
    let all = vertex_bindings(graph, data, n);
    if n == 0 {
        assert(all =~= Set::empty());
    } else {
        lemma_vertex_bindings(graph, data, n - 1);
        let label = graph.vertices[n - 1].label;
        let m = data.vertices.len() as int;
        let wanted = |p: int| data.vertices[p].label == label;
        let at = labelled_vertices_are_listed(data.vertices, label);
        lemma_listed_count(at, m, wanted);
        let here = Set::new(
            |b: (int, int)| b.0 == n - 1 && 0 <= b.1 < m && data.vertices[b.1].label == label,
        );
        let name = |p: int| (n - 1, p);
        assert forall|b: (int, int)| #[trigger] here.contains(b) implies exists|p: int| #[trigger]
            places(m, wanted).contains(p) && name(p) == b by {
            assert(places(m, wanted).contains(b.1) && name(b.1) == b);
        }
        lemma_renamed(places(m, wanted), here, name);
        lemma_parts(all, vertex_bindings(graph, data, n - 1), here);
    }
}

proof fn lemma_edge_bindings(graph: GraphView, data: FlatView, n: int)
    requires
        0 <= n <= graph.edges.len(),
    ensures
        edge_label_bindings(graph, data, n).finite(),
        edge_population(graph, data, n) == edge_label_bindings(graph, data, n).len(),
    decreases n,
{
    let all = edge_label_bindings(graph, data, n);
    if n == 0 {
        assert(all =~= Set::empty());
    } else {
        lemma_edge_bindings(graph, data, n - 1);
        let label = graph.edges[n - 1].label;
        let m = data.edges.len() as int;
        let wanted = |p: int| data.edges[p].label == label;
        let at = labelled_edges_are_listed(data.edges, label);
        lemma_listed_count(at, m, wanted);
        let here = Set::new(
            |b: (int, int)| b.0 == n - 1 && 0 <= b.1 < m && data.edges[b.1].label == label,
        );
        let name = |p: int| (n - 1, p);
        assert forall|b: (int, int)| #[trigger] here.contains(b) implies exists|p: int| #[trigger]
            places(m, wanted).contains(p) && name(p) == b by {
            assert(places(m, wanted).contains(b.1) && name(b.1) == b);
        }
        lemma_renamed(places(m, wanted), here, name);
        lemma_parts(all, edge_label_bindings(graph, data, n - 1), here);
    }
}

} // verus!
