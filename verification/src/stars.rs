//! Stars in a query and their degrees in the data: a center, and the arms that lead from it.
use crate::flat::{
    passes, properties_pass_predicates, resolved_views, FlatGraph, FlatView, ResolvedPredicate,
    ResolvedView,
};
use crate::pattern::{PathPattern, PathView};
use crate::query::{EdgeId, VertexId};
use vstd::prelude::*;
use vstd::string::*;

verus! {

/// One arm of a star in a query: an edge to a leaf.
#[derive(Debug, Clone)]
pub struct RawStarArm {
    pub edge_id: EdgeId,
    pub leaf_vertex_id: VertexId,
    pub pattern: PathPattern,
}

/// What an arm says.
#[verifier::ext_equal]
pub struct RawArmView {
    pub edge_id: EdgeId,
    pub leaf: VertexId,
    pub pattern: PathView,
}

impl View for RawStarArm {
    type V = RawArmView;

    open spec fn view(&self) -> RawArmView {
        RawArmView { edge_id: self.edge_id, leaf: self.leaf_vertex_id, pattern: self.pattern@ }
    }
}

/// What arms say.
pub open spec fn raw_arm_views(arms: Seq<RawStarArm>) -> Seq<RawArmView> {
    arms.map_values(|a: RawStarArm| a@)
}

/// An arm with the conditions that it puts on the data.
#[derive(Debug, Clone)]
pub struct CompiledRawStarArm {
    pub edge_id: EdgeId,
    pub edge_label: String,
    pub leaf_label: String,
    pub outgoing: bool,
    pub edge_predicates: Vec<ResolvedPredicate>,
    pub leaf_predicates: Vec<ResolvedPredicate>,
}

/// What such an arm says.
#[verifier::ext_equal]
pub struct ArmView {
    pub edge_id: EdgeId,
    pub edge_label: Seq<char>,
    pub leaf_label: Seq<char>,
    pub outgoing: bool,
    pub edge_predicates: Seq<ResolvedView>,
    pub leaf_predicates: Seq<ResolvedView>,
}

impl View for CompiledRawStarArm {
    type V = ArmView;

    open spec fn view(&self) -> ArmView {
        ArmView {
            edge_id: self.edge_id,
            edge_label: self.edge_label@,
            leaf_label: self.leaf_label@,
            outgoing: self.outgoing,
            edge_predicates: resolved_views(self.edge_predicates@),
            leaf_predicates: resolved_views(self.leaf_predicates@),
        }
    }
}

/// What such arms say.
pub open spec fn arm_views(arms: Seq<CompiledRawStarArm>) -> Seq<ArmView> {
    arms.map_values(|a: CompiledRawStarArm| a@)
}

/// Whether a neighbor meets the conditions of an arm, and the edge to it does.
pub open spec fn arm_accepts(data: FlatView, arm: ArmView, hop: (VertexId, EdgeId)) -> bool {
    passes(data.edge_props(hop.1), arm.edge_predicates) && passes(
        data.vertex_props(arm.leaf_label, hop.0),
        arm.leaf_predicates,
    )
}

/// How many of the neighbors meet the conditions of an arm.
pub open spec fn accepted(data: FlatView, arm: ArmView, hops: Seq<(VertexId, EdgeId)>) -> nat
    decreases hops.len(),
{
    if hops.len() == 0 {
        0
    } else {
        accepted(data, arm, hops.drop_last()) + (if arm_accepts(data, arm, hops.last()) {
            1nat
        } else {
            0
        })
    }
}

/// The neighbors of a vertex along an arm.
pub open spec fn arm_hops(data: FlatView, label: Seq<char>, arm: ArmView, v: VertexId) -> Seq<
    (VertexId, EdgeId),
> {
    data.hops(label, arm.edge_label, arm.outgoing, v)
}

/// How many neighbors of a vertex along an arm meet its conditions.
pub open spec fn arm_degree(data: FlatView, label: Seq<char>, arm: ArmView, v: VertexId) -> nat {
    accepted(data, arm, arm_hops(data, label, arm, v))
}

/// A number, or the greatest that fits where that is less.
pub open spec fn saturated(n: int) -> u64 {
    if n <= u64::MAX {
        n as u64
    } else {
        u64::MAX
    }
}

/// The product of the degrees of arms, as far as it fits.
pub open spec fn joint_degree(data: FlatView, label: Seq<char>, arms: Seq<ArmView>, v: VertexId) -> u64
    decreases arms.len(),
{
    if arms.len() == 0 {
        1
    } else {
        saturated(
            joint_degree(data, label, arms.drop_last(), v) * arm_degree(data, label, arms.last(), v),
        )
    }
}

/// The product of two numbers, as far as it fits.
pub fn saturating_product(a: u64, b: u64) -> (result: u64)
    ensures
        result == saturated(a * b),
{
    assert(0 <= a * b <= u64::MAX * u64::MAX) by (nonlinear_arith)
        requires
            0 <= a <= u64::MAX,
            0 <= b <= u64::MAX,
    ;
    let product: u128 = (a as u128) * (b as u128);
    if product <= u64::MAX as u128 {
        product as u64
    } else {
        u64::MAX
    }
}

proof fn lemma_accepted_bound(data: FlatView, arm: ArmView, hops: Seq<(VertexId, EdgeId)>)
    ensures
        accepted(data, arm, hops) <= hops.len(),
    decreases hops.len(),
{
    if hops.len() > 0 {
        lemma_accepted_bound(data, arm, hops.drop_last());
    }
}

impl CompiledRawStarArm {
    /// Whether a neighbor meets the conditions of the arm, and the edge to it does.
    fn accepts(&self, flat_graph: &FlatGraph, hop: (VertexId, EdgeId)) -> (result: bool)
        ensures
            result == arm_accepts(flat_graph@, self@, hop),
    {
        properties_pass_predicates(flat_graph.edge_props(hop.1), &self.edge_predicates)
            && properties_pass_predicates(
            flat_graph.vertex_props(self.leaf_label.as_str(), hop.0),
            &self.leaf_predicates,
        )
    }

    /// How many neighbors a vertex has along the arm, and how many of them meet its conditions.
    pub fn degrees(&self, flat_graph: &FlatGraph, label: &str, v: VertexId) -> (result: (u64, u64))
        ensures
            result.0 == arm_hops(flat_graph@, label@, self@, v).len(),
            result.1 == arm_degree(flat_graph@, label@, self@, v),
    {
        let hops: Vec<(VertexId, EdgeId)> = flat_graph.neighbors(
            label,
            self.edge_label.as_str(),
            self.outgoing,
            v,
        );
        let mut count: u64 = 0;
        let mut i: usize = 0;
        while i < hops.len()
            invariant
                i <= hops@.len(),
                count <= i,
                count == accepted(flat_graph@, self@, hops@.take(i as int)),
            decreases hops.len() - i,
        {
            assert(hops@.take(i + 1).drop_last() =~= hops@.take(i as int));
            if self.accepts(flat_graph, hops[i]) {
                count = count + 1;
            }
            i = i + 1;
        }
        assert(hops@.take(i as int) =~= hops@);
        (hops.len() as u64, count)
    }
}

/// The product of the degrees of arms, as far as it fits.
pub fn joint_degree_of(
    flat_graph: &FlatGraph,
    label: &str,
    arms: &Vec<CompiledRawStarArm>,
    v: VertexId,
) -> (result: u64)
    ensures
        result == joint_degree(flat_graph@, label@, arm_views(arms@), v),
{
    let ghost all = arm_views(arms@);
    let mut result: u64 = 1;
    let mut i: usize = 0;
    assert(all.take(0) =~= Seq::empty());
    while i < arms.len()
        invariant
            all == arm_views(arms@),
            i <= arms@.len(),
            result == joint_degree(flat_graph@, label@, all.take(i as int), v),
        decreases arms.len() - i,
    {
        assert(all.take(i + 1).drop_last() =~= all.take(i as int));
        assert(all.take(i + 1).last() == arms@[i as int]@);
        let degrees: (u64, u64) = arms[i].degrees(flat_graph, label, v);
        result = saturating_product(result, degrees.1);
        i = i + 1;
    }
    assert(all.take(i as int) =~= all);
    result
}

/// A branch of a query: a center, an edge from it to an intermediate vertex, and the arms of
/// both.
#[derive(Debug, Clone)]
pub struct CompiledN1Branch {
    pub center_label: String,
    pub intermediate_label: String,
    pub root_edge_label: String,
    pub root_outgoing: bool,
    pub root_edge_predicates: Vec<ResolvedPredicate>,
    pub intermediate_predicates: Vec<ResolvedPredicate>,
    pub center_predicates: Vec<ResolvedPredicate>,
    pub leaf_arms: Vec<CompiledRawStarArm>,
    pub center_leaf_arms: Vec<CompiledRawStarArm>,
}

/// What a branch says.
#[verifier::ext_equal]
pub struct BranchView {
    pub center_label: Seq<char>,
    pub intermediate_label: Seq<char>,
    pub root_edge_label: Seq<char>,
    pub root_outgoing: bool,
    pub root_edge_predicates: Seq<ResolvedView>,
    pub intermediate_predicates: Seq<ResolvedView>,
    pub center_predicates: Seq<ResolvedView>,
    pub leaf_arms: Seq<ArmView>,
    pub center_leaf_arms: Seq<ArmView>,
}

impl View for CompiledN1Branch {
    type V = BranchView;

    open spec fn view(&self) -> BranchView {
        BranchView {
            center_label: self.center_label@,
            intermediate_label: self.intermediate_label@,
            root_edge_label: self.root_edge_label@,
            root_outgoing: self.root_outgoing,
            root_edge_predicates: resolved_views(self.root_edge_predicates@),
            intermediate_predicates: resolved_views(self.intermediate_predicates@),
            center_predicates: resolved_views(self.center_predicates@),
            leaf_arms: arm_views(self.leaf_arms@),
            center_leaf_arms: arm_views(self.center_leaf_arms@),
        }
    }
}

/// The intermediate vertices that a center reaches.
pub open spec fn root_hops(data: FlatView, branch: BranchView, center: VertexId) -> Seq<
    (VertexId, EdgeId),
> {
    data.hops(branch.center_label, branch.root_edge_label, branch.root_outgoing, center)
}

/// What an intermediate vertex adds to the degree of a branch: the product of the degrees of its
/// arms, where it and the edge to it meet their conditions.
pub open spec fn through(data: FlatView, branch: BranchView, hop: (VertexId, EdgeId)) -> u64 {
    if passes(data.edge_props(hop.1), branch.root_edge_predicates) && passes(
        data.vertex_props(branch.intermediate_label, hop.0),
        branch.intermediate_predicates,
    ) {
        joint_degree(data, branch.intermediate_label, branch.leaf_arms, hop.0)
    } else {
        0
    }
}

/// The sum over intermediate vertices, as far as it fits.
pub open spec fn through_all(data: FlatView, branch: BranchView, hops: Seq<(VertexId, EdgeId)>) -> u64
    decreases hops.len(),
{
    if hops.len() == 0 {
        0
    } else {
        saturated(through_all(data, branch, hops.drop_last()) + through(data, branch, hops.last()))
    }
}

/// A number times the degrees of arms, as far as it fits.
pub open spec fn times_arms(
    data: FlatView,
    label: Seq<char>,
    begun: u64,
    arms: Seq<ArmView>,
    v: VertexId,
) -> u64
    decreases arms.len(),
{
    if arms.len() == 0 {
        begun
    } else {
        saturated(
            times_arms(data, label, begun, arms.drop_last(), v) * arm_degree(
                data,
                label,
                arms.last(),
                v,
            ),
        )
    }
}

/// The degree of a center in a branch.
pub open spec fn branch_degree(data: FlatView, branch: BranchView, center: VertexId) -> u64 {
    times_arms(
        data,
        branch.center_label,
        through_all(data, branch, root_hops(data, branch, center)),
        branch.center_leaf_arms,
        center,
    )
}

fn saturating_sum(a: u64, b: u64) -> (result: u64)
    ensures
        result == saturated(a + b),
{
    if b <= u64::MAX - a {
        a + b
    } else {
        u64::MAX
    }
}

impl CompiledN1Branch {
    fn degree_through(&self, flat_graph: &FlatGraph, hop: (VertexId, EdgeId)) -> (result: u64)
        ensures
            result == through(flat_graph@, self@, hop),
    {
        if !properties_pass_predicates(flat_graph.edge_props(hop.1), &self.root_edge_predicates) {
            return 0;
        }
        if !properties_pass_predicates(
            flat_graph.vertex_props(self.intermediate_label.as_str(), hop.0),
            &self.intermediate_predicates,
        ) {
            return 0;
        }
        joint_degree_of(flat_graph, self.intermediate_label.as_str(), &self.leaf_arms, hop.0)
    }

    /// How many intermediate vertices a center reaches, and its degree in the branch.
    pub fn degrees(&self, flat_graph: &FlatGraph, center: VertexId) -> (result: (u64, u64))
        ensures
            result.0 == root_hops(flat_graph@, self@, center).len(),
            result.1 == branch_degree(flat_graph@, self@, center),
    {
        let ghost data = flat_graph@;
        let ghost branch = self@;
        let hops: Vec<(VertexId, EdgeId)> = flat_graph.neighbors(
            self.center_label.as_str(),
            self.root_edge_label.as_str(),
            self.root_outgoing,
            center,
        );
        let mut total: u64 = 0;
        let mut i: usize = 0;
        while i < hops.len()
            invariant
                data == flat_graph@,
                branch == self@,
                i <= hops@.len(),
                total == through_all(data, branch, hops@.take(i as int)),
            decreases hops.len() - i,
        {
            assert(hops@.take(i + 1).drop_last() =~= hops@.take(i as int));
            total = saturating_sum(total, self.degree_through(flat_graph, hops[i]));
            i = i + 1;
        }
        assert(hops@.take(i as int) =~= hops@);
        let ghost begun = total;
        let ghost all = branch.center_leaf_arms;
        let mut j: usize = 0;
        assert(all.take(0) =~= Seq::empty());
        while j < self.center_leaf_arms.len()
            invariant
                data == flat_graph@,
                branch == self@,
                all == branch.center_leaf_arms,
                j <= self.center_leaf_arms@.len(),
                total == times_arms(data, branch.center_label, begun, all.take(j as int), center),
            decreases self.center_leaf_arms.len() - j,
        {
            assert(all.take(j + 1).drop_last() =~= all.take(j as int));
            assert(all.take(j + 1).last() == self.center_leaf_arms@[j as int]@);
            let degrees: (u64, u64) = self.center_leaf_arms[j].degrees(
                flat_graph,
                self.center_label.as_str(),
                center,
            );
            total = saturating_product(total, degrees.1);
            j = j + 1;
        }
        assert(all.take(j as int) =~= all);
        (hops.len() as u64, total)
    }
}

} // verus!
