//! Random matches of a query: its vertices and edges are bound to the data one after the other.
use crate::flat::{
    resolution, resolved_views, FlatError, FlatErrorView, FlatGraph, FlatView, ResolvedPredicate,
    ResolvedView,
};
use crate::order::{sort, sorted, sorting_orders_the_values};
use crate::query::{
    lemma_edge_at, lemma_vertex_at, EdgeId, EdgeView, GraphView, QueryGraph, VertexId, VertexView,
};
use crate::wander_plans::{
    are_mutual, build_wander_join_plans, is_wander_plan, joins_wf, limited, plans_are_valid,
    plans_from_first, turned, wander_views, WanderJoinJoin, WanderJoinPlan,
};
use vstd::prelude::*;
use vstd::string::*;

verus! {

/// A vertex or an edge of a query.
#[derive(Debug)]
pub enum WanderJoinNodeKind {
    Vertex { query_vertex_id: VertexId, label: String },
    Edge {
        label: String,
        src_query_vertex_id: VertexId,
        dst_query_vertex_id: VertexId,
        src_label: String,
        dst_label: String,
    },
}

/// A vertex or an edge of a query with its conditions.
#[derive(Debug)]
pub struct WanderJoinNode {
    pub kind: WanderJoinNodeKind,
    pub predicates: Vec<ResolvedPredicate>,
}

/// What a vertex or an edge of a query says.
#[verifier::ext_equal]
pub enum NodeView {
    Vertex { id: VertexId, label: Seq<char>, predicates: Seq<ResolvedView> },
    Edge {
        label: Seq<char>,
        src: VertexId,
        dst: VertexId,
        src_label: Seq<char>,
        dst_label: Seq<char>,
        predicates: Seq<ResolvedView>,
    },
}

impl View for WanderJoinNode {
    type V = NodeView;

    open spec fn view(&self) -> NodeView {
        match self.kind {
            WanderJoinNodeKind::Vertex { query_vertex_id, label } => NodeView::Vertex {
                id: query_vertex_id,
                label: label@,
                predicates: resolved_views(self.predicates@),
            },
            WanderJoinNodeKind::Edge {
                label,
                src_query_vertex_id,
                dst_query_vertex_id,
                src_label,
                dst_label,
            } => NodeView::Edge {
                label: label@,
                src: src_query_vertex_id,
                dst: dst_query_vertex_id,
                src_label: src_label@,
                dst_label: dst_label@,
                predicates: resolved_views(self.predicates@),
            },
        }
    }
}

/// What nodes say.
pub open spec fn node_views(nodes: Seq<WanderJoinNode>) -> Seq<NodeView> {
    nodes.map_values(|n: WanderJoinNode| n@)
}

impl NodeView {
    /// The query vertices in the columns of a node.
    pub open spec fn refs(self) -> Seq<VertexId> {
        match self {
            NodeView::Vertex { id, label, predicates } => seq![id],
            NodeView::Edge { label, src, dst, src_label, dst_label, predicates } => seq![src, dst],
        }
    }
}

/// The query vertices in the columns of a node.
pub fn wander_join_node_query_refs(node: &WanderJoinNode) -> (result: Vec<VertexId>)
    ensures
        result@ == node@.refs(),
{
    let mut refs: Vec<VertexId> = Vec::new();
    match &node.kind {
        WanderJoinNodeKind::Vertex { query_vertex_id, .. } => {
            refs.push(*query_vertex_id);
        },
        WanderJoinNodeKind::Edge { src_query_vertex_id, dst_query_vertex_id, .. } => {
            refs.push(*src_query_vertex_id);
            refs.push(*dst_query_vertex_id);
        },
    }
    assert(refs@ =~= node@.refs());
    refs
}

/// The joins of one column with the first `n` columns of another node, both ways.
pub open spec fn joins_of_column(
    i: int,
    col: int,
    v: VertexId,
    j: int,
    refs: Seq<VertexId>,
    n: int,
) -> Seq<WanderJoinJoin>
    decreases n,
{
    if n <= 0 {
        Seq::empty()
    } else {
        let before = joins_of_column(i, col, v, j, refs, n - 1);
        if refs[n - 1] == v {
            before.push(
                WanderJoinJoin {
                    from_node: i as usize,
                    from_col: col as usize,
                    to_node: j as usize,
                    to_col: (n - 1) as usize,
                },
            ).push(
                WanderJoinJoin {
                    from_node: j as usize,
                    from_col: (n - 1) as usize,
                    to_node: i as usize,
                    to_col: col as usize,
                },
            )
        } else {
            before
        }
    }
}

/// The joins of the first `n` columns of one node with those of another.
pub open spec fn joins_of_pair(
    i: int,
    refs_i: Seq<VertexId>,
    j: int,
    refs_j: Seq<VertexId>,
    n: int,
) -> Seq<WanderJoinJoin>
    decreases n,
{
    if n <= 0 {
        Seq::empty()
    } else {
        joins_of_pair(i, refs_i, j, refs_j, n - 1) + joins_of_column(
            i,
            n - 1,
            refs_i[n - 1],
            j,
            refs_j,
            refs_j.len() as int,
        )
    }
}

/// The joins of a node with the nodes after it, up to one.
pub open spec fn joins_of_node(nodes: Seq<NodeView>, i: int, j: int) -> Seq<WanderJoinJoin>
    decreases j - i,
{
    if j <= i + 1 {
        Seq::empty()
    } else {
        joins_of_node(nodes, i, j - 1) + joins_of_pair(
            i,
            nodes[i].refs(),
            j - 1,
            nodes[j - 1].refs(),
            nodes[i].refs().len() as int,
        )
    }
}

/// The joins of the first `n` nodes with the nodes after them.
pub open spec fn joins_between(nodes: Seq<NodeView>, n: int) -> Seq<WanderJoinJoin>
    decreases n,
{
    if n <= 0 {
        Seq::empty()
    } else {
        joins_between(nodes, n - 1) + joins_of_node(nodes, n - 1, nodes.len() as int)
    }
}

fn join_pair(
    joins: &mut Vec<WanderJoinJoin>,
    i: usize,
    refs_i: &Vec<VertexId>,
    j: usize,
    refs_j: &Vec<VertexId>,
)
    ensures
        final(joins)@ == old(joins)@ + joins_of_pair(
            i as int,
            refs_i@,
            j as int,
            refs_j@,
            refs_i@.len() as int,
        ),
{
    let ghost begun = joins@;
    let mut a: usize = 0;
    assert(begun + joins_of_pair(i as int, refs_i@, j as int, refs_j@, 0) =~= begun);
    while a < refs_i.len()
        invariant
            a <= refs_i@.len(),
            joins@ == begun + joins_of_pair(i as int, refs_i@, j as int, refs_j@, a as int),
        decreases refs_i.len() - a,
    {
        let ghost before = joins@;
        let ghost v = refs_i@[a as int];
        let mut b: usize = 0;
        assert(before + joins_of_column(i as int, a as int, v, j as int, refs_j@, 0) =~= before);
        while b < refs_j.len()
            invariant
                a < refs_i@.len(),
                v == refs_i@[a as int],
                b <= refs_j@.len(),
                joins@ == before + joins_of_column(
                    i as int,
                    a as int,
                    v,
                    j as int,
                    refs_j@,
                    b as int,
                ),
            decreases refs_j.len() - b,
        {
            if refs_i[a] == refs_j[b] {
                let ghost sofar = joins_of_column(
                    i as int,
                    a as int,
                    v,
                    j as int,
                    refs_j@,
                    b as int,
                );
                let forth = WanderJoinJoin { from_node: i, from_col: a, to_node: j, to_col: b };
                let back = WanderJoinJoin { from_node: j, from_col: b, to_node: i, to_col: a };
                joins.push(forth);
                joins.push(back);
                assert(joins@ =~= before + sofar.push(forth).push(back));
            }
            b = b + 1;
        }
        proof {
            let more = joins_of_pair(i as int, refs_i@, j as int, refs_j@, a + 1);
            assert(joins@ =~= begun + more);
        }
        a = a + 1;
    }
}

/// The joins between nodes: for every two columns that hold the same query vertex, both ways.
pub fn build_wander_join_constraints(nodes: &Vec<WanderJoinNode>) -> (result: Vec<WanderJoinJoin>)
    ensures
        result@ == joins_between(node_views(nodes@), nodes@.len() as int),
        joins_wf(result@, nodes@.len()),
{
    let ghost views = node_views(nodes@);
    let mut joins: Vec<WanderJoinJoin> = Vec::new();
    let mut i: usize = 0;
    while i < nodes.len()
        invariant
            views == node_views(nodes@),
            views.len() == nodes@.len(),
            i <= nodes@.len(),
            joins@ == joins_between(views, i as int),
        decreases nodes.len() - i,
    {
        let ghost begun = joins@;
        assert(views[i as int] == nodes@[i as int]@);
        let refs_i: Vec<VertexId> = wander_join_node_query_refs(&nodes[i]);
        let mut j: usize = i + 1;
        assert(begun + joins_of_node(views, i as int, i + 1) =~= begun);
        while j < nodes.len()
            invariant
                views == node_views(nodes@),
                views.len() == nodes@.len(),
                i < j <= nodes@.len(),
                refs_i@ == views[i as int].refs(),
                joins@ == begun + joins_of_node(views, i as int, j as int),
            decreases nodes.len() - j,
        {
            let ghost before = joins@;
            assert(views[j as int] == nodes@[j as int]@);
            let refs_j: Vec<VertexId> = wander_join_node_query_refs(&nodes[j]);
            join_pair(&mut joins, i, &refs_i, j, &refs_j);
            assert(joins@ =~= begun + joins_of_node(views, i as int, j + 1));
            j = j + 1;
        }
        i = i + 1;
    }
    proof {
        assert forall|k: int| #![trigger joins@[k]] 0 <= k < joins@.len() implies
            joins@[k].from_node < nodes@.len() && joins@[k].to_node < nodes@.len() by {
            joins_are_matches(views, nodes@.len() as int, k);
        }
    }
    joins
}

/// Whether a join is between two columns that hold the same query vertex.
pub open spec fn is_match(nodes: Seq<NodeView>, join: WanderJoinJoin) -> bool {
    &&& join.from_node < nodes.len()
    &&& join.to_node < nodes.len()
    &&& join.from_node != join.to_node
    &&& join.from_col < nodes[join.from_node as int].refs().len()
    &&& join.to_col < nodes[join.to_node as int].refs().len()
    &&& nodes[join.from_node as int].refs()[join.from_col as int]
        == nodes[join.to_node as int].refs()[join.to_col as int]
}

proof fn lemma_column_joins(nodes: Seq<NodeView>, i: int, col: int, j: int, n: int, k: int)
    requires
        nodes.len() <= usize::MAX,
        0 <= i < j < nodes.len(),
        0 <= col < nodes[i].refs().len(),
        0 <= n <= nodes[j].refs().len(),
        0 <= k < joins_of_column(i, col, nodes[i].refs()[col], j, nodes[j].refs(), n).len(),
    ensures
        is_match(
            nodes,
            joins_of_column(i, col, nodes[i].refs()[col], j, nodes[j].refs(), n)[k],
        ),
    decreases n,
{
    let before = joins_of_column(i, col, nodes[i].refs()[col], j, nodes[j].refs(), n - 1);
    assert(nodes[i].refs().len() <= 2 && nodes[j].refs().len() <= 2);
    if k < before.len() {
        lemma_column_joins(nodes, i, col, j, n - 1, k);
    }
}

proof fn lemma_pair_joins(nodes: Seq<NodeView>, i: int, j: int, n: int, k: int)
    requires
        nodes.len() <= usize::MAX,
        0 <= i < j < nodes.len(),
        0 <= n <= nodes[i].refs().len(),
        0 <= k < joins_of_pair(i, nodes[i].refs(), j, nodes[j].refs(), n).len(),
    ensures
        is_match(nodes, joins_of_pair(i, nodes[i].refs(), j, nodes[j].refs(), n)[k]),
    decreases n,
{
    let before = joins_of_pair(i, nodes[i].refs(), j, nodes[j].refs(), n - 1);
    if k < before.len() {
        lemma_pair_joins(nodes, i, j, n - 1, k);
    } else {
        lemma_column_joins(
            nodes,
            i,
            n - 1,
            j,
            nodes[j].refs().len() as int,
            k - before.len(),
        );
    }
}

proof fn lemma_node_joins(nodes: Seq<NodeView>, i: int, j: int, k: int)
    requires
        nodes.len() <= usize::MAX,
        0 <= i < j <= nodes.len(),
        0 <= k < joins_of_node(nodes, i, j).len(),
    ensures
        is_match(nodes, joins_of_node(nodes, i, j)[k]),
    decreases j,
{
    let before = joins_of_node(nodes, i, j - 1);
    if j > i + 1 {
        if k < before.len() {
            lemma_node_joins(nodes, i, j - 1, k);
        } else {
            lemma_pair_joins(
                nodes,
                i,
                j - 1,
                nodes[i].refs().len() as int,
                k - before.len(),
            );
        }
    }
}

/// Every join is between two columns of different nodes that hold the same query vertex.
pub proof fn joins_are_matches(nodes: Seq<NodeView>, n: int, k: int)
    requires
        nodes.len() <= usize::MAX,
        0 <= n <= nodes.len(),
        0 <= k < joins_between(nodes, n).len(),
    ensures
        is_match(nodes, joins_between(nodes, n)[k]),
    decreases n,
{
    let before = joins_between(nodes, n - 1);
    if k < before.len() {
        joins_are_matches(nodes, n - 1, k);
    } else {
        lemma_node_joins(nodes, n - 1, nodes.len() as int, k - before.len());
    }
}

proof fn lemma_mutual_together(first: Seq<WanderJoinJoin>, rest: Seq<WanderJoinJoin>)
    requires
        are_mutual(first),
        are_mutual(rest),
    ensures
        are_mutual(first + rest),
{
    let all = first + rest;
    assert forall|k: int| #![trigger all[k]] 0 <= k < all.len() implies all.contains(
        turned(all[k]),
    ) by {
        if k < first.len() {
            assert(first.contains(turned(first[k])));
            let other = choose|other: int|
                0 <= other < first.len() && first[other] == turned(first[k]);
            assert(all[other] == turned(all[k]));
        } else {
            let at = k - first.len();
            assert(rest.contains(turned(rest[at])));
            let other = choose|other: int|
                0 <= other < rest.len() && rest[other] == turned(rest[at]);
            assert(all[first.len() + other] == turned(all[k]));
        }
    }
}

proof fn lemma_column_mutual(
    i: int,
    col: int,
    v: VertexId,
    j: int,
    refs: Seq<VertexId>,
    n: int,
)
    ensures
        are_mutual(joins_of_column(i, col, v, j, refs, n)),
    decreases n,
{
    if n > 0 {
        lemma_column_mutual(i, col, v, j, refs, n - 1);
        let before = joins_of_column(i, col, v, j, refs, n - 1);
        let forth = WanderJoinJoin {
            from_node: i as usize,
            from_col: col as usize,
            to_node: j as usize,
            to_col: (n - 1) as usize,
        };
        let both = seq![forth, turned(forth)];
        assert(both[0] == forth && both[1] == turned(forth) && turned(turned(forth)) == forth);
        assert(both.contains(both[0]) && both.contains(both[1]));
        assert(are_mutual(both));
        lemma_mutual_together(before, both);
        assert(before.push(forth).push(turned(forth)) =~= before + both);
    }
}

proof fn lemma_pair_mutual(
    i: int,
    refs_i: Seq<VertexId>,
    j: int,
    refs_j: Seq<VertexId>,
    n: int,
)
    ensures
        are_mutual(joins_of_pair(i, refs_i, j, refs_j, n)),
    decreases n,
{
    if n > 0 {
        let len = refs_j.len() as int;
        lemma_pair_mutual(i, refs_i, j, refs_j, n - 1);
        lemma_column_mutual(i, n - 1, refs_i[n - 1], j, refs_j, len);
        lemma_mutual_together(
            joins_of_pair(i, refs_i, j, refs_j, n - 1),
            joins_of_column(i, n - 1, refs_i[n - 1], j, refs_j, len),
        );
    }
}

proof fn lemma_node_mutual(nodes: Seq<NodeView>, i: int, j: int)
    ensures
        are_mutual(joins_of_node(nodes, i, j)),
    decreases j - i,
{
    if j > i + 1 {
        let refs_i = nodes[i].refs();
        let refs_j = nodes[j - 1].refs();
        lemma_node_mutual(nodes, i, j - 1);
        lemma_pair_mutual(i, refs_i, j - 1, refs_j, refs_i.len() as int);
        lemma_mutual_together(
            joins_of_node(nodes, i, j - 1),
            joins_of_pair(i, refs_i, j - 1, refs_j, refs_i.len() as int),
        );
    }
}

/// Every join can be taken in the other direction too.
pub proof fn joins_are_mutual(nodes: Seq<NodeView>, n: int)
    ensures
        are_mutual(joins_between(nodes, n)),
    decreases n,
{
    if n > 0 {
        let len = nodes.len() as int;
        joins_are_mutual(nodes, n - 1);
        lemma_node_mutual(nodes, n - 1, len);
        lemma_mutual_together(
            joins_between(nodes, n - 1),
            joins_of_node(nodes, n - 1, len),
        );
    }
}

proof fn lemma_column_finds(
    i: int,
    col: int,
    v: VertexId,
    j: int,
    refs: Seq<VertexId>,
    n: int,
    other: int,
)
    requires
        0 <= other < n,
        refs[other] == v,
    ensures
        ({
            let joins = joins_of_column(i, col, v, j, refs, n);
            &&& joins.contains(
                WanderJoinJoin {
                    from_node: i as usize,
                    from_col: col as usize,
                    to_node: j as usize,
                    to_col: other as usize,
                },
            )
            &&& joins.contains(
                WanderJoinJoin {
                    from_node: j as usize,
                    from_col: other as usize,
                    to_node: i as usize,
                    to_col: col as usize,
                },
            )
        }),
    decreases n,
{
    let joins = joins_of_column(i, col, v, j, refs, n);
    let before = joins_of_column(i, col, v, j, refs, n - 1);
    if other < n - 1 {
        lemma_column_finds(i, col, v, j, refs, n - 1, other);
        assert forall|x: WanderJoinJoin| before.contains(x) implies joins.contains(x) by {
            let k = choose|k: int| 0 <= k < before.len() && before[k] == x;
            assert(joins[k] == x);
        }
    } else {
        let k = before.len() as int;
        assert(joins[k].from_node == i as usize);
        assert(joins[k + 1].from_node == j as usize);
    }
}

proof fn lemma_in_sum<T>(a: Seq<T>, b: Seq<T>)
    ensures
        forall|x: T| a.contains(x) || b.contains(x) ==> #[trigger] (a + b).contains(x),
{
    assert forall|x: T| a.contains(x) || b.contains(x) implies #[trigger] (a + b).contains(x) by {
        if a.contains(x) {
            let k = choose|k: int| 0 <= k < a.len() && a[k] == x;
            assert((a + b)[k] == x);
        } else {
            let k = choose|k: int| 0 <= k < b.len() && b[k] == x;
            assert((a + b)[a.len() + k] == x);
        }
    }
}

proof fn lemma_pair_finds(
    nodes: Seq<NodeView>,
    i: int,
    j: int,
    n: int,
    col: int,
    other: int,
)
    requires
        0 <= col < n <= nodes[i].refs().len(),
        0 <= other < nodes[j].refs().len(),
        nodes[i].refs()[col] == nodes[j].refs()[other],
    ensures
        ({
            let joins = joins_of_pair(i, nodes[i].refs(), j, nodes[j].refs(), n);
            &&& joins.contains(
                WanderJoinJoin {
                    from_node: i as usize,
                    from_col: col as usize,
                    to_node: j as usize,
                    to_col: other as usize,
                },
            )
            &&& joins.contains(
                WanderJoinJoin {
                    from_node: j as usize,
                    from_col: other as usize,
                    to_node: i as usize,
                    to_col: col as usize,
                },
            )
        }),
    decreases n,
{
    let refs = nodes[j].refs();
    let before = joins_of_pair(i, nodes[i].refs(), j, refs, n - 1);
    let last = joins_of_column(i, n - 1, nodes[i].refs()[n - 1], j, refs, refs.len() as int);
    lemma_in_sum(before, last);
    if col < n - 1 {
        lemma_pair_finds(nodes, i, j, n - 1, col, other);
    } else {
        lemma_column_finds(i, col, nodes[i].refs()[col], j, refs, refs.len() as int, other);
    }
}

proof fn lemma_node_finds(nodes: Seq<NodeView>, i: int, j: int, n: int)
    requires
        0 <= i < j < n <= nodes.len(),
    ensures
        forall|x: WanderJoinJoin|
            joins_of_pair(
                i,
                nodes[i].refs(),
                j,
                nodes[j].refs(),
                nodes[i].refs().len() as int,
            ).contains(x) ==> #[trigger] joins_of_node(nodes, i, n).contains(x),
    decreases n,
{
    let before = joins_of_node(nodes, i, n - 1);
    let last = joins_of_pair(
        i,
        nodes[i].refs(),
        n - 1,
        nodes[n - 1].refs(),
        nodes[i].refs().len() as int,
    );
    lemma_in_sum(before, last);
    if j < n - 1 {
        lemma_node_finds(nodes, i, j, n - 1);
    }
}

proof fn lemma_between_finds(nodes: Seq<NodeView>, i: int, n: int)
    requires
        0 <= i < n <= nodes.len(),
    ensures
        forall|x: WanderJoinJoin|
            joins_of_node(nodes, i, nodes.len() as int).contains(x) ==> #[trigger] joins_between(
                nodes,
                n,
            ).contains(x),
    decreases n,
{
    lemma_in_sum(
        joins_between(nodes, n - 1),
        joins_of_node(nodes, n - 1, nodes.len() as int),
    );
    if i < n - 1 {
        lemma_between_finds(nodes, i, n - 1);
    }
}

/// Any two columns of different nodes that hold the same query vertex are joined.
pub proof fn matches_are_joined(nodes: Seq<NodeView>, join: WanderJoinJoin)
    requires
        nodes.len() <= usize::MAX,
        is_match(nodes, join),
    ensures
        joins_between(nodes, nodes.len() as int).contains(join),
{
    let n = nodes.len() as int;
    let (i, col, j, other) = if join.from_node < join.to_node {
        (
            join.from_node as int,
            join.from_col as int,
            join.to_node as int,
            join.to_col as int,
        )
    } else {
        (
            join.to_node as int,
            join.to_col as int,
            join.from_node as int,
            join.from_col as int,
        )
    };
    lemma_pair_finds(nodes, i, j, nodes[i].refs().len() as int, col, other);
    lemma_node_finds(nodes, i, j, n);
    lemma_between_finds(nodes, i, n);
}

/// The nodes for the vertices with the first `n` of some ids, or the first property that the data
/// does not have.
pub open spec fn vertex_nodes(graph: GraphView, data: FlatView, ids: Seq<VertexId>, n: int) -> Result<
    Seq<NodeView>,
    FlatErrorView,
>
    decreases n,
{
    if n <= 0 {
        Ok(Seq::empty())
    } else {
        match vertex_nodes(graph, data, ids, n - 1) {
            Err(error) => Err(error),
            Ok(before) => {
                let v = graph.vertex(ids[n - 1])->0;
                match resolution(data.vertex_schemas, v.label, v.predicates) {
                    Err(property) => Err(
                        FlatErrorView { on_edge: false, label: v.label, property },
                    ),
                    Ok(predicates) => Ok(
                        before.push(
                            NodeView::Vertex { id: ids[n - 1], label: v.label, predicates },
                        ),
                    ),
                }
            },
        }
    }
}

/// Nodes with those for the edges with the first `n` of some ids, or the first property that the
/// data does not have.
pub open spec fn edge_nodes(
    graph: GraphView,
    data: FlatView,
    begun: Seq<NodeView>,
    ids: Seq<EdgeId>,
    n: int,
) -> Result<Seq<NodeView>, FlatErrorView>
    decreases n,
{
    if n <= 0 {
        Ok(begun)
    } else {
        match edge_nodes(graph, data, begun, ids, n - 1) {
            Err(error) => Err(error),
            Ok(before) => {
                let e = graph.edge(ids[n - 1])->0;
                match resolution(data.edge_schemas, e.label, e.predicates) {
                    Err(property) => Err(FlatErrorView { on_edge: true, label: e.label, property }),
                    Ok(predicates) => Ok(
                        before.push(
                            NodeView::Edge {
                                label: e.label,
                                src: e.src,
                                dst: e.dst,
                                src_label: graph.vertex(e.src)->0.label,
                                dst_label: graph.vertex(e.dst)->0.label,
                                predicates,
                            },
                        ),
                    ),
                }
            },
        }
    }
}

/// The nodes of a query: its vertices, then its edges, both by id.
pub open spec fn query_nodes(graph: GraphView, data: FlatView) -> Result<
    Seq<NodeView>,
    FlatErrorView,
> {
    let vertex_ids = sorted(graph.vertices.map_values(|v: VertexView| v.id));
    let edge_ids = sorted(graph.edges.map_values(|e: EdgeView| e.id));
    match vertex_nodes(graph, data, vertex_ids, vertex_ids.len() as int) {
        Err(error) => Err(error),
        Ok(begun) => edge_nodes(graph, data, begun, edge_ids, edge_ids.len() as int),
    }
}

proof fn lemma_vertex_nodes_fail(
    graph: GraphView,
    data: FlatView,
    ids: Seq<VertexId>,
    n: int,
    m: int,
)
    requires
        0 <= n <= m,
        vertex_nodes(graph, data, ids, n) is Err,
    ensures
        vertex_nodes(graph, data, ids, m) == vertex_nodes(graph, data, ids, n),
    decreases m,
{
    if n < m {
        lemma_vertex_nodes_fail(graph, data, ids, n, m - 1);
    }
}

proof fn lemma_edge_nodes_fail(
    graph: GraphView,
    data: FlatView,
    begun: Seq<NodeView>,
    ids: Seq<EdgeId>,
    n: int,
    m: int,
)
    requires
        0 <= n <= m,
        edge_nodes(graph, data, begun, ids, n) is Err,
    ensures
        edge_nodes(graph, data, begun, ids, m) == edge_nodes(graph, data, begun, ids, n),
    decreases m,
{
    if n < m {
        lemma_edge_nodes_fail(graph, data, begun, ids, n, m - 1);
    }
}

/// A query, ready to be matched: its nodes, the joins between them, and orders to visit them in.
#[derive(Debug)]
pub struct WanderJoinQuery {
    pub nodes: Vec<WanderJoinNode>,
    pub joins: Vec<WanderJoinJoin>,
    pub plans: Vec<WanderJoinPlan>,
}

impl WanderJoinQuery {
    /// Whether the joins and the orders are those of the nodes, no more orders than a limit.
    pub open spec fn is_for(self, nodes: Seq<NodeView>, max_plans: nat) -> bool {
        &&& node_views(self.nodes@) == nodes
        &&& self.joins@ == joins_between(nodes, nodes.len() as int)
        &&& wander_views(self.plans@) == limited(
            plans_from_first(self.joins@, nodes.len(), nodes.len()),
            max_plans,
        )
    }

    /// Whether the joins are between the nodes, and the orders visit every node once.
    pub open spec fn wf(self) -> bool {
        &&& joins_wf(self.joins@, self.nodes@.len())
        &&& forall|i: int|
            0 <= i < self.plans@.len() ==> is_wander_plan(
                self.joins@,
                self.nodes@.len(),
                (#[trigger] self.plans@[i])@,
            )
    }
}

fn collect_vertex_nodes(query_graph: &QueryGraph, flat_graph: &FlatGraph) -> (result: Result<
    Vec<WanderJoinNode>,
    FlatError,
>)
    requires
        query_graph@.wf(),
    ensures
        ({
            let ids = sorted(query_graph@.vertices.map_values(|v: VertexView| v.id));
            match vertex_nodes(query_graph@, flat_graph@, ids, ids.len() as int) {
                Err(error) => result matches Err(e) && e@ == error,
                Ok(nodes) => result matches Ok(found) && node_views(found@) == nodes,
            }
        }),
{
    let ghost graph = query_graph@;
    let ghost data = flat_graph@;
    let ghost all = graph.vertices.map_values(|v: VertexView| v.id);
    let mut ids: Vec<VertexId> = Vec::new();
    let mut i: usize = 0;
    while i < query_graph.vertices.len()
        invariant
            graph == query_graph@,
            all == graph.vertices.map_values(|v: VertexView| v.id),
            all.len() == query_graph.vertices@.len(),
            i <= all.len(),
            ids@ == all.take(i as int),
        decreases query_graph.vertices.len() - i,
    {
        assert(graph.vertices[i as int] == query_graph.vertices@[i as int]@);
        ids.push(query_graph.vertices[i].id);
        assert(ids@ =~= all.take(i + 1));
        i = i + 1;
    }
    assert(ids@ =~= all);
    let ids: Vec<VertexId> = sort(ids);
    let mut nodes: Vec<WanderJoinNode> = Vec::new();
    let mut k: usize = 0;
    assert(node_views(nodes@) =~= Seq::empty());
    while k < ids.len()
        invariant
            graph == query_graph@,
            graph.wf(),
            data == flat_graph@,
            all == graph.vertices.map_values(|v: VertexView| v.id),
            ids@ == sorted(all),
            k <= ids@.len(),
            vertex_nodes(graph, data, ids@, k as int) == Ok::<_, FlatErrorView>(
                node_views(nodes@),
            ),
        decreases ids.len() - k,
    {
        let id: VertexId = ids[k];
        proof {
            sorting_orders_the_values(all);
            assert(sorted(all).contains(id));
            let x = choose|x: int| 0 <= x < all.len() && all[x] == id;
            lemma_vertex_at(graph, x);
        }
        if let Some(v) = query_graph.get_vertex(id) {
            match flat_graph.resolve_vertex_predicates(v.label.as_str(), &v.predicates) {
                Err(error) => {
                    proof {
                        lemma_vertex_nodes_fail(graph, data, ids@, k + 1, ids@.len() as int);
                    }
                    return Err(error);
                },
                Ok(predicates) => {
                    let ghost before = nodes@;
                    let node = WanderJoinNode {
                        kind: WanderJoinNodeKind::Vertex {
                            query_vertex_id: id,
                            label: v.label.as_str().to_owned(),
                        },
                        predicates,
                    };
                    nodes.push(node);
                    assert(node_views(nodes@) =~= node_views(before).push(node@));
                },
            }
        }
        k = k + 1;
    }
    Ok(nodes)
}

fn add_edge_nodes(
    query_graph: &QueryGraph,
    flat_graph: &FlatGraph,
    begun: Vec<WanderJoinNode>,
) -> (result: Result<Vec<WanderJoinNode>, FlatError>)
    requires
        query_graph@.wf(),
    ensures
        ({
            let ids = sorted(query_graph@.edges.map_values(|e: EdgeView| e.id));
            match edge_nodes(
                query_graph@,
                flat_graph@,
                node_views(begun@),
                ids,
                ids.len() as int,
            ) {
                Err(error) => result matches Err(e) && e@ == error,
                Ok(nodes) => result matches Ok(found) && node_views(found@) == nodes,
            }
        }),
{
    let ghost graph = query_graph@;
    let ghost data = flat_graph@;
    let ghost start = node_views(begun@);
    let ghost all = graph.edges.map_values(|e: EdgeView| e.id);
    let mut ids: Vec<EdgeId> = Vec::new();
    let mut i: usize = 0;
    while i < query_graph.edges.len()
        invariant
            graph == query_graph@,
            all == graph.edges.map_values(|e: EdgeView| e.id),
            all.len() == query_graph.edges@.len(),
            i <= all.len(),
            ids@ == all.take(i as int),
        decreases query_graph.edges.len() - i,
    {
        assert(graph.edges[i as int] == query_graph.edges@[i as int]@);
        ids.push(query_graph.edges[i].id);
        assert(ids@ =~= all.take(i + 1));
        i = i + 1;
    }
    assert(ids@ =~= all);
    let ids: Vec<EdgeId> = sort(ids);
    let mut nodes: Vec<WanderJoinNode> = begun;
    let mut k: usize = 0;
    while k < ids.len()
        invariant
            graph == query_graph@,
            graph.wf(),
            data == flat_graph@,
            start == node_views(begun@),
            all == graph.edges.map_values(|e: EdgeView| e.id),
            ids@ == sorted(all),
            k <= ids@.len(),
            edge_nodes(graph, data, start, ids@, k as int) == Ok::<_, FlatErrorView>(
                node_views(nodes@),
            ),
        decreases ids.len() - k,
    {
        let id: EdgeId = ids[k];
        proof {
            sorting_orders_the_values(all);
            assert(sorted(all).contains(id));
            let x = choose|x: int| 0 <= x < all.len() && all[x] == id;
            lemma_edge_at(graph, x);
            assert(graph.edges[x].id == id);
        }
        if let Some(e) = query_graph.get_edge(id) {
            if let (Some(src), Some(dst)) = (
                query_graph.get_vertex(e.src_vertex_id),
                query_graph.get_vertex(e.dst_vertex_id),
            ) {
                match flat_graph.resolve_edge_predicates(e.label.as_str(), &e.predicates) {
                    Err(error) => {
                        proof {
                            lemma_edge_nodes_fail(
                                graph,
                                data,
                                start,
                                ids@,
                                k + 1,
                                ids@.len() as int,
                            );
                        }
                        return Err(error);
                    },
                    Ok(predicates) => {
                        let ghost before = nodes@;
                        let node = WanderJoinNode {
                            kind: WanderJoinNodeKind::Edge {
                                label: e.label.as_str().to_owned(),
                                src_query_vertex_id: e.src_vertex_id,
                                dst_query_vertex_id: e.dst_vertex_id,
                                src_label: src.label.as_str().to_owned(),
                                dst_label: dst.label.as_str().to_owned(),
                            },
                            predicates,
                        };
                        nodes.push(node);
                        assert(node_views(nodes@) =~= node_views(before).push(node@));
                    },
                }
            }
        }
        k = k + 1;
    }
    Ok(nodes)
}

/// Gets a query ready to be matched.
pub fn compile_wander_join(query_graph: &QueryGraph, flat_graph: &FlatGraph, plan_budget: usize) -> (result:
    Result<WanderJoinQuery, FlatError>)
    requires
        query_graph@.wf(),
    ensures
        match query_nodes(query_graph@, flat_graph@) {
            Err(error) => result matches Err(e) && e@ == error,
            Ok(nodes) => result matches Ok(query) && query.wf() && query.is_for(
                nodes,
                if plan_budget == 0 {
                    1
                } else {
                    plan_budget as nat
                },
            ),
        },
{
    let begun: Vec<WanderJoinNode> = match collect_vertex_nodes(query_graph, flat_graph) {
        Ok(nodes) => nodes,
        Err(error) => {
            return Err(error);
        },
    };
    let nodes: Vec<WanderJoinNode> = match add_edge_nodes(query_graph, flat_graph, begun) {
        Ok(nodes) => nodes,
        Err(error) => {
            return Err(error);
        },
    };
    let joins: Vec<WanderJoinJoin> = build_wander_join_constraints(&nodes);
    let limit: usize = if plan_budget == 0 {
        1
    } else {
        plan_budget
    };
    let count: usize = nodes.len();
    let plans: Vec<WanderJoinPlan> = build_wander_join_plans(count, &joins, limit);
    proof {
        let all = plans_from_first(joins@, nodes@.len(), nodes@.len());
        assert(node_views(nodes@).len() == nodes@.len());
        assert(wander_views(plans@).len() == plans@.len());
        assert forall|i: int| 0 <= i < plans@.len() implies is_wander_plan(
            joins@,
            nodes@.len(),
            (#[trigger] plans@[i])@,
        ) by {
            assert(wander_views(plans@)[i] == plans@[i]@);
            plans_are_valid(joins@, nodes@.len(), nodes@.len(), i);
        }
    }
    Ok(WanderJoinQuery { nodes, joins, plans })
}

} // verus!
