//! Stars and branches of a query, found and made ready for the data.
use crate::catalog::DegreeSeqGraph;
use crate::decompose::determines;
use crate::flat::{
    resolution, resolved_views, FlatError, FlatErrorView, FlatGraph, FlatView, ResolvedPredicate,
    ResolvedView,
};
use crate::connect::between;
use crate::order::{sort, sorted, sorting_orders_the_values};
use crate::paths::{degree, links, links_lead};
use crate::pattern::{PathPattern, PathView};
use crate::query::{
    lemma_edge_at, predicate_views, EdgeId, EdgeView, GraphView, QueryEdge, QueryGraph, QueryVertex,
    VertexId, VertexView,
};
use crate::stars::{
    arm_views, raw_arm_views, ArmView, BranchView, CompiledN1Branch, CompiledRawStarArm, RawArmView,
    RawStarArm,
};
use crate::text::label_views;
use vstd::prelude::*;
use vstd::string::*;

verus! {

/// Why a star or a branch of a query cannot be made ready for the data.
#[derive(Debug, Clone)]
pub enum StarError {
    VertexNotFound(VertexId),
    EdgeNotFound(EdgeId),
    /// An arm does not start at its center.
    NotIncident { edge: EdgeId, center: VertexId },
    Property(FlatError),
}

/// What such a reason is.
pub enum StarErrorView {
    VertexNotFound(VertexId),
    EdgeNotFound(EdgeId),
    NotIncident { edge: EdgeId, center: VertexId },
    Property(FlatErrorView),
}

impl View for StarError {
    type V = StarErrorView;

    open spec fn view(&self) -> StarErrorView {
        match self {
            StarError::VertexNotFound(id) => StarErrorView::VertexNotFound(*id),
            StarError::EdgeNotFound(id) => StarErrorView::EdgeNotFound(*id),
            StarError::NotIncident { edge, center } => StarErrorView::NotIncident {
                edge: *edge,
                center: *center,
            },
            StarError::Property(error) => StarErrorView::Property(error@),
        }
    }
}

/// The conditions that predicates put on the vertices with a label.
pub open spec fn vertex_conditions(data: FlatView, v: VertexView) -> Result<
    Seq<ResolvedView>,
    StarErrorView,
> {
    match resolution(data.vertex_schemas, v.label, v.predicates) {
        Ok(resolved) => Ok(resolved),
        Err(property) => Err(
            StarErrorView::Property(FlatErrorView { on_edge: false, label: v.label, property }),
        ),
    }
}

/// The conditions that predicates put on the edges with a label.
pub open spec fn edge_conditions(data: FlatView, e: EdgeView) -> Result<
    Seq<ResolvedView>,
    StarErrorView,
> {
    match resolution(data.edge_schemas, e.label, e.predicates) {
        Ok(resolved) => Ok(resolved),
        Err(property) => Err(
            StarErrorView::Property(FlatErrorView { on_edge: true, label: e.label, property }),
        ),
    }
}

/// An arm at a center with the conditions that it puts on the data. Where that is asked for, the
/// edge has to start or end at the center.
pub open spec fn compiled_arm(
    graph: GraphView,
    data: FlatView,
    center: VertexId,
    arm: RawArmView,
    checked: bool,
) -> Result<ArmView, StarErrorView> {
    match graph.edge(arm.edge_id) {
        None => Err(StarErrorView::EdgeNotFound(arm.edge_id)),
        Some(e) => match graph.vertex(arm.leaf) {
            None => Err(StarErrorView::VertexNotFound(arm.leaf)),
            Some(leaf) => if checked && e.src != center && e.dst != center {
                Err(StarErrorView::NotIncident { edge: e.id, center })
            } else {
                match edge_conditions(data, e) {
                    Err(error) => Err(error),
                    Ok(edge_predicates) => match vertex_conditions(data, leaf) {
                        Err(error) => Err(error),
                        Ok(leaf_predicates) => Ok(
                            ArmView {
                                edge_id: e.id,
                                edge_label: e.label,
                                leaf_label: leaf.label,
                                outgoing: e.src == center,
                                edge_predicates,
                                leaf_predicates,
                            },
                        ),
                    },
                }
            },
        },
    }
}

/// The arms at a center with their conditions, or what is wrong with the first of them with
/// which something is.
pub open spec fn compiled_arms(
    graph: GraphView,
    data: FlatView,
    center: VertexId,
    arms: Seq<RawArmView>,
    checked: bool,
) -> Result<Seq<ArmView>, StarErrorView>
    decreases arms.len(),
{
    if arms.len() == 0 {
        Ok(Seq::empty())
    } else {
        match compiled_arms(graph, data, center, arms.drop_last(), checked) {
            Err(error) => Err(error),
            Ok(before) => match compiled_arm(graph, data, center, arms.last(), checked) {
                Err(error) => Err(error),
                Ok(arm) => Ok(before.push(arm)),
            },
        }
    }
}

proof fn lemma_compiling_fails(
    graph: GraphView,
    data: FlatView,
    center: VertexId,
    arms: Seq<RawArmView>,
    checked: bool,
    n: int,
)
    requires
        0 <= n <= arms.len(),
        compiled_arms(graph, data, center, arms.take(n), checked) is Err,
    ensures
        compiled_arms(graph, data, center, arms, checked) == compiled_arms(
            graph,
            data,
            center,
            arms.take(n),
            checked,
        ),
    decreases arms.len(),
{
    if n == arms.len() {
        assert(arms.take(n) =~= arms);
    } else {
        assert(arms.drop_last().take(n) =~= arms.take(n));
        lemma_compiling_fails(graph, data, center, arms.drop_last(), checked, n);
    }
}

fn conditions_on_vertex(flat_graph: &FlatGraph, v: &QueryVertex) -> (result: Result<
    Vec<ResolvedPredicate>,
    StarError,
>)
    ensures
        match vertex_conditions(flat_graph@, v@) {
            Ok(views) => result matches Ok(resolved) && resolved_views(resolved@) == views,
            Err(error) => result matches Err(e) && e@ == error,
        },
{
    match flat_graph.resolve_vertex_predicates(v.label.as_str(), &v.predicates) {
        Ok(resolved) => Ok(resolved),
        Err(error) => Err(StarError::Property(error)),
    }
}

fn conditions_on_edge(flat_graph: &FlatGraph, e: &QueryEdge) -> (result: Result<
    Vec<ResolvedPredicate>,
    StarError,
>)
    ensures
        match edge_conditions(flat_graph@, e@) {
            Ok(views) => result matches Ok(resolved) && resolved_views(resolved@) == views,
            Err(error) => result matches Err(err) && err@ == error,
        },
{
    match flat_graph.resolve_edge_predicates(e.label.as_str(), &e.predicates) {
        Ok(resolved) => Ok(resolved),
        Err(error) => Err(StarError::Property(error)),
    }
}

impl QueryGraph {
    fn compile_arm(
        &self,
        flat_graph: &FlatGraph,
        center: VertexId,
        arm: &RawStarArm,
        checked: bool,
    ) -> (result: Result<CompiledRawStarArm, StarError>)
        requires
            self@.wf(),
        ensures
            match compiled_arm(self@, flat_graph@, center, arm@, checked) {
                Ok(view) => result matches Ok(compiled) && compiled@ == view,
                Err(error) => result matches Err(e) && e@ == error,
            },
    {
        match self.get_edge(arm.edge_id) {
            None => Err(StarError::EdgeNotFound(arm.edge_id)),
            Some(edge) => match self.get_vertex(arm.leaf_vertex_id) {
                None => Err(StarError::VertexNotFound(arm.leaf_vertex_id)),
                Some(leaf) => {
                    if checked && edge.src_vertex_id != center && edge.dst_vertex_id != center {
                        return Err(StarError::NotIncident { edge: edge.id, center });
                    }
                    match conditions_on_edge(flat_graph, edge) {
                        Err(error) => Err(error),
                        Ok(edge_predicates) => match conditions_on_vertex(flat_graph, leaf) {
                            Err(error) => Err(error),
                            Ok(leaf_predicates) => Ok(
                                CompiledRawStarArm {
                                    edge_id: edge.id,
                                    edge_label: edge.label.clone(),
                                    leaf_label: leaf.label.clone(),
                                    outgoing: edge.src_vertex_id == center,
                                    edge_predicates,
                                    leaf_predicates,
                                },
                            ),
                        },
                    }
                },
            },
        }
    }

    /// The arms at a center with the conditions that they put on the data.
    pub fn compile_arms(
        &self,
        flat_graph: &FlatGraph,
        center: VertexId,
        arms: &Vec<RawStarArm>,
        checked: bool,
    ) -> (result: Result<Vec<CompiledRawStarArm>, StarError>)
        requires
            self@.wf(),
        ensures
            match compiled_arms(self@, flat_graph@, center, raw_arm_views(arms@), checked) {
                Ok(views) => result matches Ok(compiled) && arm_views(compiled@) == views,
                Err(error) => result matches Err(e) && e@ == error,
            },
    {
        let ghost graph = self@;
        let ghost data = flat_graph@;
        let ghost all = raw_arm_views(arms@);
        let mut result: Vec<CompiledRawStarArm> = Vec::new();
        let mut i: usize = 0;
        assert(arm_views(result@) =~= Seq::empty());
        assert(all.take(0) =~= Seq::empty());
        while i < arms.len()
            invariant
                self@.wf(),
                graph == self@,
                data == flat_graph@,
                all == raw_arm_views(arms@),
                i <= arms@.len(),
                compiled_arms(graph, data, center, all.take(i as int), checked) == Ok::<
                    _,
                    StarErrorView,
                >(arm_views(result@)),
            decreases arms.len() - i,
        {
            assert(all.take(i + 1).drop_last() =~= all.take(i as int));
            assert(all.take(i + 1).last() == arms@[i as int]@);
            match self.compile_arm(flat_graph, center, &arms[i], checked) {
                Err(error) => {
                    proof {
                        lemma_compiling_fails(graph, data, center, all, checked, i + 1);
                    }
                    return Err(error);
                },
                Ok(arm) => {
                    let ghost before = result@;
                    result.push(arm);
                    assert(arm_views(result@) =~= arm_views(before).push(arm@));
                },
            }
            i = i + 1;
        }
        assert(all.take(i as int) =~= all);
        Ok(result)
    }
}

/// A branch of a query: a center, an edge from it to an intermediate vertex with leaves, and the
/// leaves of the center.
#[derive(Debug, Clone)]
pub struct RawN1Branch {
    pub center: VertexId,
    pub root_edge_id: EdgeId,
    pub intermediate: VertexId,
    pub leaf_arms: Vec<RawStarArm>,
    pub center_leaf_arms: Vec<RawStarArm>,
}

/// What a branch says.
#[verifier::ext_equal]
pub struct RawBranchView {
    pub center: VertexId,
    pub root_edge_id: EdgeId,
    pub intermediate: VertexId,
    pub leaf_arms: Seq<RawArmView>,
    pub center_leaf_arms: Seq<RawArmView>,
}

impl View for RawN1Branch {
    type V = RawBranchView;

    open spec fn view(&self) -> RawBranchView {
        RawBranchView {
            center: self.center,
            root_edge_id: self.root_edge_id,
            intermediate: self.intermediate,
            leaf_arms: raw_arm_views(self.leaf_arms@),
            center_leaf_arms: raw_arm_views(self.center_leaf_arms@),
        }
    }
}

/// A branch with the conditions that it puts on the data, or what is wrong with it first.
pub open spec fn compiled_branch(graph: GraphView, data: FlatView, branch: RawBranchView) -> Result<
    BranchView,
    StarErrorView,
> {
    match (
        graph.vertex(branch.center),
        graph.vertex(branch.intermediate),
        graph.edge(branch.root_edge_id),
    ) {
        (None, _, _) => Err(StarErrorView::VertexNotFound(branch.center)),
        (_, None, _) => Err(StarErrorView::VertexNotFound(branch.intermediate)),
        (_, _, None) => Err(StarErrorView::EdgeNotFound(branch.root_edge_id)),
        (Some(center), Some(intermediate), Some(root)) => match (
            vertex_conditions(data, center),
            edge_conditions(data, root),
            vertex_conditions(data, intermediate),
            compiled_arms(graph, data, branch.intermediate, branch.leaf_arms, false),
            compiled_arms(graph, data, branch.center, branch.center_leaf_arms, false),
        ) {
            (Err(error), _, _, _, _) => Err(error),
            (_, Err(error), _, _, _) => Err(error),
            (_, _, Err(error), _, _) => Err(error),
            (_, _, _, Err(error), _) => Err(error),
            (_, _, _, _, Err(error)) => Err(error),
            (
                Ok(center_predicates),
                Ok(root_edge_predicates),
                Ok(intermediate_predicates),
                Ok(leaf_arms),
                Ok(center_leaf_arms),
            ) => Ok(
                BranchView {
                    center_label: center.label,
                    intermediate_label: intermediate.label,
                    root_edge_label: root.label,
                    root_outgoing: root.src == branch.center,
                    root_edge_predicates,
                    intermediate_predicates,
                    center_predicates,
                    leaf_arms,
                    center_leaf_arms,
                },
            ),
        },
    }
}

impl QueryGraph {
    /// A branch with the conditions that it puts on the data.
    pub fn compile_branch(&self, flat_graph: &FlatGraph, branch: &RawN1Branch) -> (result: Result<
        CompiledN1Branch,
        StarError,
    >)
        requires
            self@.wf(),
        ensures
            match compiled_branch(self@, flat_graph@, branch@) {
                Ok(view) => result matches Ok(compiled) && compiled@ == view,
                Err(error) => result matches Err(e) && e@ == error,
            },
    {
        let center: &QueryVertex = match self.get_vertex(branch.center) {
            Some(v) => v,
            None => {
                return Err(StarError::VertexNotFound(branch.center));
            },
        };
        let intermediate: &QueryVertex = match self.get_vertex(branch.intermediate) {
            Some(v) => v,
            None => {
                return Err(StarError::VertexNotFound(branch.intermediate));
            },
        };
        let root: &QueryEdge = match self.get_edge(branch.root_edge_id) {
            Some(e) => e,
            None => {
                return Err(StarError::EdgeNotFound(branch.root_edge_id));
            },
        };
        let center_predicates = match conditions_on_vertex(flat_graph, center) {
            Ok(resolved) => resolved,
            Err(error) => {
                return Err(error);
            },
        };
        let root_edge_predicates = match conditions_on_edge(flat_graph, root) {
            Ok(resolved) => resolved,
            Err(error) => {
                return Err(error);
            },
        };
        let intermediate_predicates = match conditions_on_vertex(flat_graph, intermediate) {
            Ok(resolved) => resolved,
            Err(error) => {
                return Err(error);
            },
        };
        let leaf_arms = match self.compile_arms(
            flat_graph,
            branch.intermediate,
            &branch.leaf_arms,
            false,
        ) {
            Ok(arms) => arms,
            Err(error) => {
                return Err(error);
            },
        };
        let center_leaf_arms = match self.compile_arms(
            flat_graph,
            branch.center,
            &branch.center_leaf_arms,
            false,
        ) {
            Ok(arms) => arms,
            Err(error) => {
                return Err(error);
            },
        };
        Ok(
            CompiledN1Branch {
                center_label: center.label.clone(),
                intermediate_label: intermediate.label.clone(),
                root_edge_label: root.label.clone(),
                root_outgoing: root.src_vertex_id == branch.center,
                root_edge_predicates,
                intermediate_predicates,
                center_predicates,
                leaf_arms,
                center_leaf_arms,
            },
        )
    }
}

/// The other end of an edge.
pub open spec fn other_end(e: EdgeView, v: VertexId) -> VertexId {
    if e.src == v {
        e.dst
    } else {
        e.src
    }
}

/// The edges among links that lead to a leaf, without one.
pub open spec fn leaf_links(
    edges: Seq<EdgeView>,
    by: Seq<(VertexId, EdgeId)>,
    without: EdgeId,
) -> Seq<EdgeId>
    decreases by.len(),
{
    if by.len() == 0 {
        Seq::empty()
    } else {
        let before = leaf_links(edges, by.drop_last(), without);
        if by.last().1 != without && degree(edges, by.last().0) == 1 {
            before.push(by.last().1)
        } else {
            before
        }
    }
}

/// The edges from a vertex to leaves, without one, in ascending order.
pub open spec fn leaf_edges(edges: Seq<EdgeView>, v: VertexId, without: EdgeId) -> Seq<EdgeId> {
    sorted(leaf_links(edges, links(edges, v), without))
}

/// The arm at a center along an edge.
pub open spec fn arm_along(graph: GraphView, center: VertexId, id: EdgeId) -> RawArmView {
    let e = graph.edge(id)->0;
    let leaf = other_end(e, center);
    RawArmView {
        edge_id: id,
        leaf,
        pattern: PathView {
            vs: seq![graph.vertex(center)->0.label, graph.vertex(leaf)->0.label],
            es: seq![e.label],
        },
    }
}

/// The arms at a center along edges.
pub open spec fn arms_along(graph: GraphView, center: VertexId, ids: Seq<EdgeId>) -> Seq<RawArmView> {
    ids.map_values(|id: EdgeId| arm_along(graph, center, id))
}

/// Whether a predicate is on an edge or on its leaf.
pub open spec fn has_condition(graph: GraphView, center: VertexId, id: EdgeId) -> bool {
    let e = graph.edge(id)->0;
    e.predicates.len() > 0 || graph.vertex(other_end(e, center))->0.predicates.len() > 0
}

/// Whether the edge at a position, seen from one of its ends, is the root of a branch: the other
/// end has nothing but at least two leaves besides, each of which it determines; there is a
/// predicate; and neither end has too many arms.
pub open spec fn is_branch(
    graph: GraphView,
    catalog: DegreeSeqGraph,
    max: nat,
    center: VertexId,
    root: EdgeView,
) -> bool {
    let intermediate = other_end(root, center);
    let leaves = leaf_edges(graph.edges, intermediate, root.id);
    let center_leaves = leaf_edges(graph.edges, center, root.id);
    &&& 2 <= leaves.len() <= max
    &&& leaves.len() + 1 == degree(graph.edges, intermediate)
    &&& forall|i: int|
        #![trigger leaves[i]]
        0 <= i < leaves.len() ==> determines(
            catalog,
            graph.edge(leaves[i])->0,
            intermediate,
            other_end(graph.edge(leaves[i])->0, intermediate),
        )
    &&& graph.vertex(center)->0.predicates.len() > 0 || graph.vertex(
        intermediate,
    )->0.predicates.len() > 0 || root.predicates.len() > 0 || exists|i: int|
        0 <= i < leaves.len() && has_condition(graph, intermediate, #[trigger] leaves[i])
    &&& center_leaves.len() + 1 <= max
}

/// The branch with a root, seen from one of its ends.
pub open spec fn branch_at(graph: GraphView, center: VertexId, root: EdgeView) -> RawBranchView {
    let intermediate = other_end(root, center);
    RawBranchView {
        center,
        root_edge_id: root.id,
        intermediate,
        leaf_arms: arms_along(
            graph,
            intermediate,
            leaf_edges(graph.edges, intermediate, root.id),
        ),
        center_leaf_arms: arms_along(graph, center, leaf_edges(graph.edges, center, root.id)),
    }
}

/// Whether one branch comes before another or stands at its place: by center, then by
/// intermediate vertex, then by root.
pub open spec fn branch_no_later(a: RawBranchView, b: RawBranchView) -> bool {
    a.center < b.center || (a.center == b.center && (a.intermediate < b.intermediate || (
    a.intermediate == b.intermediate && a.root_edge_id <= b.root_edge_id)))
}

/// Whether a branch is one of the query.
pub open spec fn is_branch_of(
    graph: GraphView,
    catalog: DegreeSeqGraph,
    max: nat,
    i: int,
    center: VertexId,
) -> bool {
    &&& 0 <= i < graph.edges.len()
    &&& center == graph.edges[i].src || center == graph.edges[i].dst
    &&& is_branch(graph, catalog, max, center, graph.edges[i])
}

proof fn lemma_leaf_links(
    edges: Seq<EdgeView>,
    by: Seq<(VertexId, EdgeId)>,
    without: EdgeId,
    i: int,
)
    requires
        0 <= i < leaf_links(edges, by, without).len(),
    ensures
        exists|j: int|
            0 <= j < by.len() && (#[trigger] by[j]).1 == leaf_links(edges, by, without)[i]
                && by[j].1 != without && degree(edges, by[j].0) == 1,
    decreases by.len(),
{
    let before = leaf_links(edges, by.drop_last(), without);
    if i < before.len() {
        lemma_leaf_links(edges, by.drop_last(), without, i);
        let j = choose|j: int|
            0 <= j < by.drop_last().len() && (#[trigger] by.drop_last()[j]).1 == before[i]
                && by.drop_last()[j].1 != without && degree(edges, by.drop_last()[j].0) == 1;
        assert(by[j] == by.drop_last()[j]);
    } else {
        assert(by[by.len() - 1] == by.last());
    }
}

/// Every edge to a leaf is an edge of the graph, at the vertex, and both of its ends are in the
/// graph.
proof fn lemma_leaf_edge(graph: GraphView, v: VertexId, without: EdgeId, i: int)
    requires
        graph.wf(),
        0 <= i < leaf_edges(graph.edges, v, without).len(),
    ensures
        graph.edge(leaf_edges(graph.edges, v, without)[i]) is Some,
        graph.vertex(v) is Some,
        graph.vertex(
            other_end(graph.edge(leaf_edges(graph.edges, v, without)[i])->0, v),
        ) is Some,
{
    let by = links(graph.edges, v);
    let ids = leaf_links(graph.edges, by, without);
    let id = leaf_edges(graph.edges, v, without)[i];
    sorting_orders_the_values(ids);
    assert(sorted(ids).contains(id));
    let m = choose|m: int| 0 <= m < ids.len() && ids[m] == id;
    lemma_leaf_links(graph.edges, by, without, m);
    let j = choose|j: int|
        0 <= j < by.len() && (#[trigger] by[j]).1 == ids[m] && by[j].1 != without && degree(
            graph.edges,
            by[j].0,
        ) == 1;
    assert(by.contains((by[j].0, id)));
    links_lead(graph.edges, v, by[j].0, id);
    let k = choose|k: int|
        0 <= k < graph.edges.len() && graph.edges[k].id == id && between(
            #[trigger] graph.edges[k],
            v,
            by[j].0,
        );
    lemma_edge_at(graph, k);
    assert(graph.vertex_at(graph.edges[k].src) is Some);
}

impl QueryGraph {
    fn find_leaf_edges(&self, v: VertexId, without: EdgeId) -> (result: Vec<EdgeId>)
        ensures
            result@ == leaf_edges(self@.edges, v, without),
    {
        let by: Vec<(VertexId, EdgeId)> = self.get_neighbor_edge_pairs(v);
        let mut ids: Vec<EdgeId> = Vec::new();
        let mut i: usize = 0;
        while i < by.len()
            invariant
                i <= by@.len(),
                ids@ == leaf_links(self@.edges, by@.take(i as int), without),
            decreases by.len() - i,
        {
            assert(by@.take(i + 1).drop_last() =~= by@.take(i as int));
            if by[i].1 != without && self.get_degree(by[i].0) == 1 {
                ids.push(by[i].1);
            }
            i = i + 1;
        }
        assert(by@.take(i as int) =~= by@);
        sort(ids)
    }

    fn arm_along(&self, center: VertexId, id: EdgeId) -> (result: RawStarArm)
        requires
            self@.wf(),
            self@.edge(id) is Some,
            self@.vertex(center) is Some,
            self@.vertex(other_end(self@.edge(id)->0, center)) is Some,
        ensures
            result@ == arm_along(self@, center, id),
    {
        let edge: &QueryEdge = self.get_edge(id).unwrap();
        let leaf_vertex_id: VertexId = if edge.src_vertex_id == center {
            edge.dst_vertex_id
        } else {
            edge.src_vertex_id
        };
        let center_vertex: &QueryVertex = self.get_vertex(center).unwrap();
        let leaf: &QueryVertex = self.get_vertex(leaf_vertex_id).unwrap();
        let pattern = one_hop(&center_vertex.label, &leaf.label, &edge.label);
        RawStarArm { edge_id: id, leaf_vertex_id, pattern }
    }

    /// The arms at a center along edges.
    pub fn arms_along(&self, center: VertexId, ids: &Vec<EdgeId>) -> (result: Vec<RawStarArm>)
        requires
            self@.wf(),
            forall|i: int|
                #![trigger ids@[i]]
                0 <= i < ids@.len() ==> self@.edge(ids@[i]) is Some && self@.vertex(center) is Some
                    && self@.vertex(other_end(self@.edge(ids@[i])->0, center)) is Some,
        ensures
            raw_arm_views(result@) == arms_along(self@, center, ids@),
    {
        let mut result: Vec<RawStarArm> = Vec::new();
        let mut i: usize = 0;
        while i < ids.len()
            invariant
                self@.wf(),
                forall|j: int|
                    #![trigger ids@[j]]
                    0 <= j < ids@.len() ==> self@.edge(ids@[j]) is Some && self@.vertex(
                        center,
                    ) is Some && self@.vertex(other_end(self@.edge(ids@[j])->0, center)) is Some,
                i <= ids@.len(),
                result@.len() == i,
                forall|j: int|
                    #![trigger result@[j]]
                    0 <= j < i ==> result@[j]@ == arm_along(self@, center, ids@[j]),
            decreases ids.len() - i,
        {
            result.push(self.arm_along(center, ids[i]));
            i = i + 1;
        }
        assert(raw_arm_views(result@) =~= arms_along(self@, center, ids@));
        result
    }

    /// The branch with a root, seen from one of its ends, where there is one.
    fn branch_with_root(
        &self,
        catalog: &DegreeSeqGraph,
        max_star_degree: usize,
        center: VertexId,
        root: &QueryEdge,
    ) -> (result: Option<RawN1Branch>)
        requires
            self@.wf(),
            self@.vertex(root@.src) is Some,
            self@.vertex(root@.dst) is Some,
            center == root@.src || center == root@.dst,
        ensures
            match result {
                Some(branch) => is_branch(self@, *catalog, max_star_degree as nat, center, root@)
                    && branch@ == branch_at(self@, center, root@),
                None => !is_branch(self@, *catalog, max_star_degree as nat, center, root@),
            },
    {
        let ghost graph = self@;
        let intermediate: VertexId = if root.src_vertex_id == center {
            root.dst_vertex_id
        } else {
            root.src_vertex_id
        };
        let leaves: Vec<EdgeId> = self.find_leaf_edges(intermediate, root.id);
        if leaves.len() < 2 || leaves.len() > max_star_degree {
            return None;
        }
        let joined: usize = self.get_degree(intermediate);
        if joined == 0 || leaves.len() != joined - 1 {
            return None;
        }
        let center_vertex: &QueryVertex = self.get_vertex(center).unwrap();
        let intermediate_vertex: &QueryVertex = self.get_vertex(intermediate).unwrap();
        assert(predicate_views(center_vertex.predicates@).len() == center_vertex.predicates@.len());
        assert(predicate_views(intermediate_vertex.predicates@).len()
            == intermediate_vertex.predicates@.len());
        assert(predicate_views(root.predicates@).len() == root.predicates@.len());
        let mut conditioned: bool = center_vertex.predicates.len() > 0
            || intermediate_vertex.predicates.len() > 0 || root.predicates.len() > 0;
        let ghost begun = conditioned;
        let mut i: usize = 0;
        while i < leaves.len()
            invariant
                self@.wf(),
                graph == self@,
                leaves@ == leaf_edges(graph.edges, intermediate, root.id),
                intermediate == other_end(root@, center),
                i <= leaves@.len(),
                forall|j: int|
                    #![trigger leaves@[j]]
                    0 <= j < i ==> determines(
                        *catalog,
                        graph.edge(leaves@[j])->0,
                        intermediate,
                        other_end(graph.edge(leaves@[j])->0, intermediate),
                    ),
                conditioned == (begun || exists|j: int|
                    0 <= j < i && has_condition(graph, intermediate, #[trigger] leaves@[j])),
            decreases leaves.len() - i,
        {
            let id: EdgeId = leaves[i];
            proof {
                lemma_leaf_edge(graph, intermediate, root.id, i as int);
            }
            let edge: &QueryEdge = self.get_edge(id).unwrap();
            let leaf_id: VertexId = if edge.src_vertex_id == intermediate {
                edge.dst_vertex_id
            } else {
                edge.src_vertex_id
            };
            if !self.edge_is_functional_between(id, intermediate, leaf_id, catalog) {
                assert(!determines(
                    *catalog,
                    graph.edge(leaves@[i as int])->0,
                    intermediate,
                    other_end(graph.edge(leaves@[i as int])->0, intermediate),
                ));
                return None;
            }
            let leaf: &QueryVertex = self.get_vertex(leaf_id).unwrap();
            assert(predicate_views(edge.predicates@).len() == edge.predicates@.len());
            assert(predicate_views(leaf.predicates@).len() == leaf.predicates@.len());
            let more: bool = edge.predicates.len() > 0 || leaf.predicates.len() > 0;
            assert(more == has_condition(graph, intermediate, leaves@[i as int]));
            conditioned = conditioned || more;
            i = i + 1;
        }
        if !conditioned {
            return None;
        }
        let center_leaves: Vec<EdgeId> = self.find_leaf_edges(center, root.id);
        if center_leaves.len() >= max_star_degree {
            return None;
        }
        proof {
            assert forall|j: int| #![trigger leaves@[j]] 0 <= j < leaves@.len() implies graph.edge(
                leaves@[j],
            ) is Some && graph.vertex(intermediate) is Some && graph.vertex(
                other_end(graph.edge(leaves@[j])->0, intermediate),
            ) is Some by {
                lemma_leaf_edge(graph, intermediate, root.id, j);
            }
            assert forall|j: int|
                #![trigger center_leaves@[j]]
                0 <= j < center_leaves@.len() implies graph.edge(center_leaves@[j]) is Some
                && graph.vertex(center) is Some && graph.vertex(
                other_end(graph.edge(center_leaves@[j])->0, center),
            ) is Some by {
                lemma_leaf_edge(graph, center, root.id, j);
            }
        }
        Some(
            RawN1Branch {
                center,
                root_edge_id: root.id,
                intermediate,
                leaf_arms: self.arms_along(intermediate, &leaves),
                center_leaf_arms: self.arms_along(center, &center_leaves),
            },
        )
    }

    /// The first of the branches of the query on which there is a predicate.
    pub fn find_predicate_n1_branch(&self, catalog: &DegreeSeqGraph, max_star_degree: usize) -> (result:
        Option<RawN1Branch>)
        requires
            self@.wf(),
        ensures
            match result {
                Some(branch) => {
                    &&& exists|i: int, center: VertexId|
                        #![trigger is_branch_of(
                            self@,
                            *catalog,
                            max_star_degree as nat,
                            i,
                            center,
                        )]
                        is_branch_of(self@, *catalog, max_star_degree as nat, i, center)
                            && branch@ == branch_at(self@, center, self@.edges[i])
                    &&& forall|i: int, center: VertexId|
                        #![trigger is_branch_of(
                            self@,
                            *catalog,
                            max_star_degree as nat,
                            i,
                            center,
                        )]
                        is_branch_of(self@, *catalog, max_star_degree as nat, i, center)
                            ==> branch_no_later(
                            branch@,
                            branch_at(self@, center, self@.edges[i]),
                        )
                },
                None => forall|i: int, center: VertexId|
                    !#[trigger] is_branch_of(
                        self@,
                        *catalog,
                        max_star_degree as nat,
                        i,
                        center,
                    ),
            },
    {
        let ghost graph = self@;
        let ghost max = max_star_degree as nat;
        let mut found: Option<RawN1Branch> = None;
        let mut i: usize = 0;
        while i < self.edges.len()
            invariant
                self@.wf(),
                graph == self@,
                max == max_star_degree,
                i <= self.edges@.len(),
                is_first_branch(graph, *catalog, max, i as int, false, found),
            decreases self.edges.len() - i,
        {
            let root: &QueryEdge = &self.edges[i];
            assert(graph.edges[i as int] == root@);
            let first: Option<RawN1Branch> = self.branch_with_root(
                catalog,
                max_star_degree,
                root.src_vertex_id,
                root,
            );
            let ghost before = found;
            found = earlier(found, first);
            proof {
                lemma_next_branch(graph, *catalog, max, i as int, false, before, first, found);
            }
            let second: Option<RawN1Branch> = self.branch_with_root(
                catalog,
                max_star_degree,
                root.dst_vertex_id,
                root,
            );
            let ghost before = found;
            found = earlier(found, second);
            proof {
                lemma_next_branch(graph, *catalog, max, i as int, true, before, second, found);
            }
            i = i + 1;
        }
        found
    }
}

/// Whether a branch is the first among those with a root before a position, and, where the
/// source of the root there has been looked at, among that one too.
spec fn is_first_branch(
    graph: GraphView,
    catalog: DegreeSeqGraph,
    max: nat,
    n: int,
    half: bool,
    found: Option<RawN1Branch>,
) -> bool {
    match found {
        Some(branch) => {
            &&& exists|i: int, center: VertexId|
                #![trigger is_branch_of(graph, catalog, max, i, center)]
                is_branch_of(graph, catalog, max, i, center) && branch@ == branch_at(
                    graph,
                    center,
                    graph.edges[i],
                )
            &&& forall|i: int, center: VertexId|
                #![trigger is_branch_of(graph, catalog, max, i, center)]
                is_branch_of(graph, catalog, max, i, center) && (i < n || (half && i == n && center
                    == graph.edges[i].src)) ==> branch_no_later(
                    branch@,
                    branch_at(graph, center, graph.edges[i]),
                )
        },
        None => forall|i: int, center: VertexId|
            #![trigger is_branch_of(graph, catalog, max, i, center)]
            is_branch_of(graph, catalog, max, i, center) ==> !(i < n || (half && i == n && center
                == graph.edges[i].src)),
    }
}

fn earlier(a: Option<RawN1Branch>, b: Option<RawN1Branch>) -> (result: Option<RawN1Branch>)
    ensures
        result == a || result == b,
        (a is Some || b is Some) ==> result is Some,
        a is Some ==> branch_no_later(result->0@, a->0@),
        b is Some ==> branch_no_later(result->0@, b->0@),
{
    match (a, b) {
        (Some(x), Some(y)) => {
            if y.center < x.center || (y.center == x.center && (y.intermediate < x.intermediate || (
            y.intermediate == x.intermediate && y.root_edge_id < x.root_edge_id))) {
                Some(y)
            } else {
                Some(x)
            }
        },
        (Some(x), None) => Some(x),
        (None, y) => y,
    }
}

proof fn lemma_next_branch(
    graph: GraphView,
    catalog: DegreeSeqGraph,
    max: nat,
    n: int,
    half: bool,
    before: Option<RawN1Branch>,
    next: Option<RawN1Branch>,
    found: Option<RawN1Branch>,
)
    requires
        0 <= n < graph.edges.len(),
        is_first_branch(graph, catalog, max, n, half, before),
        ({
            let center = if half {
                graph.edges[n].dst
            } else {
                graph.edges[n].src
            };
            match next {
                Some(branch) => is_branch(graph, catalog, max, center, graph.edges[n])
                    && branch@ == branch_at(graph, center, graph.edges[n]),
                None => !is_branch(graph, catalog, max, center, graph.edges[n]),
            }
        }),
        found == before || found == next,
        (before is Some || next is Some) ==> found is Some,
        before is Some ==> branch_no_later(found->0@, before->0@),
        next is Some ==> branch_no_later(found->0@, next->0@),
    ensures
        half ==> is_first_branch(graph, catalog, max, n + 1, false, found),
        !half ==> is_first_branch(graph, catalog, max, n, true, found),
{
    let center = if half {
        graph.edges[n].dst
    } else {
        graph.edges[n].src
    };
    if next is Some {
        assert(is_branch_of(graph, catalog, max, n, center));
    }
}

/// The pattern of one edge between two vertices.
pub fn one_hop(from: &String, to: &String, edge: &String) -> (result: PathPattern)
    ensures
        result@ == (PathView { vs: seq![from@, to@], es: seq![edge@] }),
{
    let mut vs: Vec<String> = Vec::new();
    vs.push(from.clone());
    vs.push(to.clone());
    let mut es: Vec<String> = Vec::new();
    es.push(edge.clone());
    assert(label_views(vs@) =~= seq![from@, to@]);
    assert(label_views(es@) =~= seq![edge@]);
    PathPattern::new_without_reverse(vs, es)
}

} // verus!
