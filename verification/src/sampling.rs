//! Samples of the degrees of centers: of stars, and of branches.
use crate::branches::{
    compiled_arms, compiled_branch, vertex_conditions, RawBranchView, RawN1Branch, StarError, StarErrorView,
};
use crate::chance::{cached, contents, hash_of, remember, sample_seed, seeded};
use crate::flat::{
    is_pick, passes, properties_pass_predicates, resolved_views, FlatEdge, FlatEdgeView,
    FlatGraph, FlatView, ResolvedPredicate, ResolvedView,
};
use crate::query::{EdgeId, GraphView, QueryGraph, QueryVertex, VertexId};
use crate::spanning::copy_ids;
use crate::stars::{
    arm_hops, arm_views, branch_degree, joint_degree, joint_degree_of, raw_arm_views, root_hops,
    ArmView, BranchView, CompiledN1Branch, CompiledRawStarArm, RawArmView, RawStarArm,
};
use crate::text::{append_decimal, decimal, is_text};
use dashmap::DashMap;
use rand::rngs::StdRng;
use vstd::prelude::*;
use vstd::string::*;
use vstd::utf8::encode_utf8;

verus! {

/// How many centers with a degree are evidence enough.
pub const MIN_POSITIVE_SAMPLES: usize = 5;

/// How many of the degrees are not zero.
pub open spec fn positives(degrees: Seq<u64>) -> nat
    decreases degrees.len(),
{
    if degrees.len() == 0 {
        0
    } else {
        positives(degrees.drop_last()) + (if degrees.last() > 0 {
            1nat
        } else {
            0
        })
    }
}

/// How often a degree occurs.
pub open spec fn occurrences(degrees: Seq<u64>, degree: u64) -> nat
    decreases degrees.len(),
{
    if degrees.len() == 0 {
        0
    } else {
        occurrences(degrees.drop_last(), degree) + (if degrees.last() == degree {
            1nat
        } else {
            0
        })
    }
}

/// Whether steps list the degrees that are not zero, the greatest first, each with how often it
/// occurs.
pub open spec fn are_steps(degrees: Seq<u64>, steps: Seq<(u64, u64)>) -> bool {
    &&& forall|i: int, j: int|
        #![trigger steps[i], steps[j]]
        0 <= i < j < steps.len() ==> steps[i].0 > steps[j].0
    &&& forall|i: int|
        #![trigger steps[i]]
        0 <= i < steps.len() ==> steps[i].0 > 0 && steps[i].1 > 0 && steps[i].1 == occurrences(
            degrees,
            steps[i].0,
        )
    &&& forall|i: int|
        #![trigger degrees[i]]
        0 <= i < degrees.len() && degrees[i] > 0 ==> exists|j: int|
            0 <= j < steps.len() && (#[trigger] steps[j]).0 == degrees[i]
}

proof fn lemma_occurs(degrees: Seq<u64>, degree: u64)
    ensures
        occurrences(degrees, degree) > 0 <==> degrees.contains(degree),
        occurrences(degrees, degree) <= degrees.len(),
    decreases degrees.len(),
{
    if degrees.len() > 0 {
        lemma_occurs(degrees.drop_last(), degree);
        if degrees.contains(degree) {
            let i = choose|i: int| 0 <= i < degrees.len() && degrees[i] == degree;
            if i < degrees.len() - 1 {
                assert(degrees.drop_last()[i] == degree);
            }
        }
        if degrees.drop_last().contains(degree) {
            let i = choose|i: int|
                0 <= i < degrees.drop_last().len() && degrees.drop_last()[i] == degree;
            assert(degrees[i] == degree);
        }
        if degrees.last() == degree {
            assert(degrees[degrees.len() - 1] == degree);
        }
    }
}

fn add_step(steps: &mut Vec<(u64, u64)>, degree: u64, Ghost(degrees): Ghost<Seq<u64>>)
    requires
        are_steps(degrees, old(steps)@),
        degree > 0,
        degrees.len() < u64::MAX,
    ensures
        are_steps(degrees.push(degree), final(steps)@),
{
    let ghost more = degrees.push(degree);
    let ghost begun = steps@;
    proof {
        assert(more.drop_last() =~= degrees);
        assert forall|d: u64| occurrences(more, d) == occurrences(degrees, d) + (if d == degree {
            1nat
        } else {
            0
        }) by {}
        lemma_occurs(degrees, degree);
    }
    let mut i: usize = 0;
    while i < steps.len() && steps[i].0 > degree
        invariant
            steps@ == begun,
            i <= steps@.len(),
            forall|j: int| #![trigger steps@[j]] 0 <= j < i ==> steps@[j].0 > degree,
        decreases steps.len() - i,
    {
        i = i + 1;
    }
    if i < steps.len() && steps[i].0 == degree {
        let count: u64 = steps[i].1;
        steps.set(i, (degree, count + 1));
        assert forall|k: int| #![trigger more[k]] 0 <= k < more.len() && more[k]
            > 0 implies exists|j: int| 0 <= j < steps@.len() && (#[trigger] steps@[j]).0 == more[k] by {
            if k < degrees.len() {
                assert(degrees[k] == more[k]);
                let j = choose|j: int|
                    0 <= j < begun.len() && (#[trigger] begun[j]).0 == degrees[k];
                assert(steps@[j].0 == begun[j].0);
            } else {
                assert(steps@[i as int].0 == degree);
            }
        }
    } else {
        proof {
            if degrees.contains(degree) {
                let k = choose|k: int| 0 <= k < degrees.len() && degrees[k] == degree;
                let j = choose|j: int|
                    0 <= j < begun.len() && (#[trigger] begun[j]).0 == degrees[k];
                if j > i {
                    assert(begun[i as int].0 > begun[j].0);
                }
            }
        }
        steps.insert(i, (degree, 1));
        proof {
            assert forall|a: int| 0 <= a < steps@.len() implies #[trigger] steps@[a] == (if a < i {
                begun[a]
            } else if a == i {
                (degree, 1u64)
            } else {
                begun[a - 1]
            }) by {}
            assert forall|a: int, b: int|
                #![trigger steps@[a], steps@[b]]
                0 <= a < b < steps@.len() implies steps@[a].0 > steps@[b].0 by {
                if a < i && b > i {
                    assert(begun[a].0 > begun[b - 1].0);
                } else if a == i {
                    if b - 1 > i {
                        assert(begun[i as int].0 > begun[b - 1].0);
                    }
                } else if b < i {
                    assert(begun[a].0 > begun[b].0);
                } else if a > i {
                    assert(begun[a - 1].0 > begun[b - 1].0);
                }
            }
            assert forall|k: int| #![trigger more[k]] 0 <= k < more.len() && more[k]
                > 0 implies exists|j: int|
                0 <= j < steps@.len() && (#[trigger] steps@[j]).0 == more[k] by {
                if k < degrees.len() {
                    assert(degrees[k] == more[k]);
                    let j = choose|j: int|
                        0 <= j < begun.len() && (#[trigger] begun[j]).0 == degrees[k];
                    if j < i {
                        assert(steps@[j].0 == begun[j].0);
                    } else {
                        assert(steps@[j + 1].0 == begun[j].0);
                    }
                } else {
                    assert(steps@[i as int].0 == degree);
                }
            }
        }
    }
}

/// The degrees that are not zero, the greatest first, each with how often it occurs.
pub fn degree_steps(degrees: &Vec<u64>) -> (result: Vec<(u64, u64)>)
    ensures
        are_steps(degrees@, result@),
        result@.len() > 0 <==> positives(degrees@) > 0,
{
    let mut steps: Vec<(u64, u64)> = Vec::new();
    let mut i: usize = 0;
    assert(degrees@.take(0) =~= Seq::empty());
    while i < degrees.len()
        invariant
            i <= degrees@.len(),
            are_steps(degrees@.take(i as int), steps@),
            steps@.len() > 0 <==> positives(degrees@.take(i as int)) > 0,
        decreases degrees.len() - i,
    {
        let ghost head = degrees@.take(i as int);
        let ghost more = degrees@.take(i + 1);
        assert(more =~= head.push(degrees@[i as int]));
        assert(more.drop_last() =~= head);
        if degrees[i] > 0 {
            add_step(&mut steps, degrees[i], Ghost(head));
            assert(more[i as int] > 0);
            assert(steps@.len() > 0);
        } else {
            proof {
                assert forall|j: int| #![trigger steps@[j]] 0 <= j < steps@.len() implies steps@[j].0 > 0
                    && steps@[j].1 > 0 && steps@[j].1 == occurrences(more, steps@[j].0) by {}
                assert forall|k: int| #![trigger more[k]] 0 <= k < more.len() && more[k]
                    > 0 implies exists|j: int|
                    0 <= j < steps@.len() && (#[trigger] steps@[j]).0 == more[k] by {
                    assert(head[k] == more[k]);
                }
            }
        }
        i = i + 1;
    }
    assert(degrees@.take(i as int) =~= degrees@);
    steps
}

/// Whether a sample of centers is evidence: all of them were seen, or enough of those that were
/// have a degree; and at least one has.
pub open spec fn is_evidence(degrees: Seq<u64>, population: nat) -> bool {
    &&& positives(degrees) > 0
    &&& degrees.len() == population || positives(degrees) >= MIN_POSITIVE_SAMPLES
}

fn count_positives(degrees: &Vec<u64>) -> (result: usize)
    ensures
        result == positives(degrees@),
{
    let mut count: usize = 0;
    let mut i: usize = 0;
    while i < degrees.len()
        invariant
            i <= degrees@.len(),
            count <= i,
            count == positives(degrees@.take(i as int)),
        decreases degrees.len() - i,
    {
        assert(degrees@.take(i + 1).drop_last() =~= degrees@.take(i as int));
        if degrees[i] > 0 {
            count = count + 1;
        }
        i = i + 1;
    }
    assert(degrees@.take(i as int) =~= degrees@);
    count
}

/// What a uniform sample of centers shows, where it is evidence: the degrees that are not zero,
/// each with how often it occurs.
pub fn uniform_steps(degrees: &Vec<u64>, population: usize) -> (result: Option<Vec<(u64, u64)>>)
    ensures
        match result {
            Some(steps) => is_evidence(degrees@, population as nat) && are_steps(
                degrees@,
                steps@,
            ),
            None => !is_evidence(degrees@, population as nat),
        },
{
    let positive: usize = count_positives(degrees);
    if positive > 0 && (degrees.len() == population || positive >= MIN_POSITIVE_SAMPLES) {
        Some(degree_steps(degrees))
    } else {
        None
    }
}

/// The anchor degrees of the observations with a degree, in order.
pub open spec fn anchors_of(observations: Seq<(u64, u64)>, degree: u64) -> Seq<u64>
    decreases observations.len(),
{
    if observations.len() == 0 {
        Seq::empty()
    } else {
        let before = anchors_of(observations.drop_last(), degree);
        if observations.last().0 == degree {
            before.push(observations.last().1)
        } else {
            before
        }
    }
}

/// Whether groups list the degrees of observations, the greatest first, each with the anchor
/// degrees with which it was observed.
pub open spec fn are_groups(observations: Seq<(u64, u64)>, groups: Seq<(u64, Vec<u64>)>) -> bool {
    &&& forall|i: int, j: int|
        #![trigger groups[i], groups[j]]
        0 <= i < j < groups.len() ==> groups[i].0 > groups[j].0
    &&& forall|i: int|
        #![trigger groups[i]]
        0 <= i < groups.len() ==> groups[i].1@.len() > 0 && groups[i].1@ == anchors_of(
            observations,
            groups[i].0,
        )
    &&& forall|i: int|
        #![trigger observations[i]]
        0 <= i < observations.len() ==> exists|j: int|
            0 <= j < groups.len() && (#[trigger] groups[j]).0 == observations[i].0
}

proof fn lemma_no_anchors(observations: Seq<(u64, u64)>, degree: u64)
    requires
        forall|i: int| 0 <= i < observations.len() ==> (#[trigger] observations[i]).0 != degree,
    ensures
        anchors_of(observations, degree).len() == 0,
    decreases observations.len(),
{
    if observations.len() > 0 {
        assert(observations[observations.len() - 1].0 != degree);
        assert forall|i: int| 0 <= i < observations.drop_last().len() implies (
        #[trigger] observations.drop_last()[i]).0 != degree by {
            assert(observations[i].0 != degree);
        }
        lemma_no_anchors(observations.drop_last(), degree);
    }
}

fn add_group(
    groups: &mut Vec<(u64, Vec<u64>)>,
    degree: u64,
    anchor: u64,
    Ghost(observations): Ghost<Seq<(u64, u64)>>,
)
    requires
        are_groups(observations, old(groups)@),
    ensures
        are_groups(observations.push((degree, anchor)), final(groups)@),
{
    let ghost more = observations.push((degree, anchor));
    let ghost begun = groups@;
    proof {
        assert(more.drop_last() =~= observations);
    }
    let mut i: usize = 0;
    while i < groups.len() && groups[i].0 > degree
        invariant
            groups@ == begun,
            i <= groups@.len(),
            forall|j: int| #![trigger groups@[j]] 0 <= j < i ==> groups@[j].0 > degree,
        decreases groups.len() - i,
    {
        i = i + 1;
    }
    if i < groups.len() && groups[i].0 == degree {
        let mut anchors: Vec<u64> = copy_ids(&groups[i].1);
        anchors.push(anchor);
        groups.set(i, (degree, anchors));
        assert forall|k: int| #![trigger more[k]] 0 <= k < more.len() implies exists|j: int|
            0 <= j < groups@.len() && (#[trigger] groups@[j]).0 == more[k].0 by {
            if k < observations.len() {
                assert(observations[k] == more[k]);
                let j = choose|j: int|
                    0 <= j < begun.len() && (#[trigger] begun[j]).0 == observations[k].0;
                assert(groups@[j].0 == begun[j].0);
            } else {
                assert(groups@[i as int].0 == degree);
            }
        }
    } else {
        proof {
            assert forall|k: int| 0 <= k < observations.len() implies (#[trigger] observations[k]).0
                != degree by {
                let j = choose|j: int|
                    0 <= j < begun.len() && (#[trigger] begun[j]).0 == observations[k].0;
                if j > i {
                    assert(begun[i as int].0 > begun[j].0);
                }
            }
            lemma_no_anchors(observations, degree);
        }
        let mut anchors: Vec<u64> = Vec::new();
        anchors.push(anchor);
        groups.insert(i, (degree, anchors));
        proof {
            assert(anchors_of(more, degree) =~= seq![anchor]);
            assert forall|a: int| 0 <= a < groups@.len() implies #[trigger] groups@[a] == (if a
                < i {
                begun[a]
            } else if a == i {
                (degree, anchors)
            } else {
                begun[a - 1]
            }) by {}
            assert forall|a: int, b: int|
                #![trigger groups@[a], groups@[b]]
                0 <= a < b < groups@.len() implies groups@[a].0 > groups@[b].0 by {
                if a < i && b > i {
                    assert(begun[a].0 > begun[b - 1].0);
                } else if a == i {
                    if b - 1 > i {
                        assert(begun[i as int].0 > begun[b - 1].0);
                    }
                } else if b < i {
                    assert(begun[a].0 > begun[b].0);
                } else if a > i {
                    assert(begun[a - 1].0 > begun[b - 1].0);
                }
            }
            assert forall|k: int| #![trigger more[k]] 0 <= k < more.len() implies exists|j: int|
                0 <= j < groups@.len() && (#[trigger] groups@[j]).0 == more[k].0 by {
                if k < observations.len() {
                    assert(observations[k] == more[k]);
                    let j = choose|j: int|
                        0 <= j < begun.len() && (#[trigger] begun[j]).0 == observations[k].0;
                    if j < i {
                        assert(groups@[j].0 == begun[j].0);
                    } else {
                        assert(groups@[j + 1].0 == begun[j].0);
                    }
                } else {
                    assert(groups@[i as int].0 == degree);
                }
            }
        }
    }
}

/// The degrees of observations, the greatest first, each with the anchor degrees with which it
/// was observed.
pub fn degree_groups(observations: &Vec<(u64, u64)>) -> (result: Vec<(u64, Vec<u64>)>)
    ensures
        are_groups(observations@, result@),
{
    let mut groups: Vec<(u64, Vec<u64>)> = Vec::new();
    let mut i: usize = 0;
    assert(observations@.take(0) =~= Seq::empty());
    while i < observations.len()
        invariant
            i <= observations@.len(),
            are_groups(observations@.take(i as int), groups@),
        decreases observations.len() - i,
    {
        let (degree, anchor) = observations[i];
        add_group(&mut groups, degree, anchor, Ghost(observations@.take(i as int)));
        assert(observations@.take(i + 1) =~= observations@.take(i as int).push((degree, anchor)));
        i = i + 1;
    }
    assert(observations@.take(i as int) =~= observations@);
    groups
}

/// A star with the conditions that it puts on the data.
#[derive(Debug, Clone)]
pub struct CompiledStar {
    pub center_label: String,
    pub center_predicates: Vec<ResolvedPredicate>,
    pub arms: Vec<CompiledRawStarArm>,
}

/// What such a star says.
#[verifier::ext_equal]
pub struct CompiledStarView {
    pub center_label: Seq<char>,
    pub center_predicates: Seq<ResolvedView>,
    pub arms: Seq<ArmView>,
}

impl View for CompiledStar {
    type V = CompiledStarView;

    open spec fn view(&self) -> CompiledStarView {
        CompiledStarView {
            center_label: self.center_label@,
            center_predicates: resolved_views(self.center_predicates@),
            arms: arm_views(self.arms@),
        }
    }
}

/// A star with the conditions that it puts on the data, or what is wrong with it first.
pub open spec fn compiled_star(
    graph: GraphView,
    data: FlatView,
    center: VertexId,
    arms: Seq<RawArmView>,
) -> Result<CompiledStarView, StarErrorView> {
    match graph.vertex(center) {
        None => Err(StarErrorView::VertexNotFound(center)),
        Some(v) => match vertex_conditions(data, v) {
            Err(error) => Err(error),
            Ok(center_predicates) => match compiled_arms(graph, data, center, arms, true) {
                Err(error) => Err(error),
                Ok(arms) => Ok(
                    CompiledStarView { center_label: v.label, center_predicates, arms },
                ),
            },
        },
    }
}

impl QueryGraph {
    /// A star with the conditions that it puts on the data.
    pub fn compile_star(&self, flat_graph: &FlatGraph, center: VertexId, arms: &Vec<RawStarArm>) -> (result:
        Result<CompiledStar, StarError>)
        requires
            self@.wf(),
        ensures
            match compiled_star(self@, flat_graph@, center, raw_arm_views(arms@)) {
                Ok(view) => result matches Ok(star) && star@ == view,
                Err(error) => result matches Err(e) && e@ == error,
            },
    {
        let center_vertex: &QueryVertex = match self.get_vertex(center) {
            Some(v) => v,
            None => {
                return Err(StarError::VertexNotFound(center));
            },
        };
        let center_predicates = match flat_graph.resolve_vertex_predicates(
            center_vertex.label.as_str(),
            &center_vertex.predicates,
        ) {
            Ok(resolved) => resolved,
            Err(error) => {
                return Err(StarError::Property(error));
            },
        };
        match self.compile_arms(flat_graph, center, arms, true) {
            Ok(arms) => Ok(
                CompiledStar {
                    center_label: center_vertex.label.clone(),
                    center_predicates,
                    arms,
                },
            ),
            Err(error) => Err(error),
        }
    }
}

/// The degree of a center in a star; zero where it does not meet the conditions.
pub open spec fn star_degree(data: FlatView, star: CompiledStarView, v: VertexId) -> u64 {
    if passes(data.vertex_props(star.center_label, v), star.center_predicates) {
        joint_degree(data, star.center_label, star.arms, v)
    } else {
        0
    }
}

/// The degree of a center in a branch; zero where it does not meet the conditions.
pub open spec fn filtered_branch_degree(data: FlatView, branch: BranchView, v: VertexId) -> u64 {
    if passes(data.vertex_props(branch.center_label, v), branch.center_predicates) {
        branch_degree(data, branch, v)
    } else {
        0
    }
}

impl CompiledStar {
    /// The degree of a center in the star.
    pub fn degree(&self, flat_graph: &FlatGraph, v: VertexId) -> (result: u64)
        ensures
            result == star_degree(flat_graph@, self@, v),
    {
        if !properties_pass_predicates(
            flat_graph.vertex_props(self.center_label.as_str(), v),
            &self.center_predicates,
        ) {
            return 0;
        }
        joint_degree_of(flat_graph, self.center_label.as_str(), &self.arms, v)
    }

    /// The degrees of centers in the star.
    pub fn degrees(&self, flat_graph: &FlatGraph, centers: &Vec<VertexId>) -> (result: Vec<u64>)
        ensures
            result@ == centers@.map_values(|v: VertexId| star_degree(flat_graph@, self@, v)),
    {
        let mut result: Vec<u64> = Vec::new();
        let mut i: usize = 0;
        while i < centers.len()
            invariant
                i <= centers@.len(),
                result@.len() == i,
                forall|j: int|
                    #![trigger result@[j]]
                    0 <= j < i ==> result@[j] == star_degree(flat_graph@, self@, centers@[j]),
            decreases centers.len() - i,
        {
            result.push(self.degree(flat_graph, centers[i]));
            i = i + 1;
        }
        assert(result@ =~= centers@.map_values(
            |v: VertexId| star_degree(flat_graph@, self@, v),
        ));
        result
    }
}

impl CompiledN1Branch {
    /// The degree of a center in the branch.
    pub fn filtered_degree(&self, flat_graph: &FlatGraph, v: VertexId) -> (result: u64)
        ensures
            result == filtered_branch_degree(flat_graph@, self@, v),
    {
        if !properties_pass_predicates(
            flat_graph.vertex_props(self.center_label.as_str(), v),
            &self.center_predicates,
        ) {
            return 0;
        }
        let degrees: (u64, u64) = self.degrees(flat_graph, v);
        degrees.1
    }

    /// The degrees of centers in the branch.
    pub fn filtered_degrees(&self, flat_graph: &FlatGraph, centers: &Vec<VertexId>) -> (result: Vec<
        u64,
    >)
        ensures
            result@ == centers@.map_values(
                |v: VertexId| filtered_branch_degree(flat_graph@, self@, v),
            ),
    {
        let mut result: Vec<u64> = Vec::new();
        let mut i: usize = 0;
        while i < centers.len()
            invariant
                i <= centers@.len(),
                result@.len() == i,
                forall|j: int|
                    #![trigger result@[j]]
                    0 <= j < i ==> result@[j] == filtered_branch_degree(
                        flat_graph@,
                        self@,
                        centers@[j],
                    ),
            decreases centers.len() - i,
        {
            result.push(self.filtered_degree(flat_graph, centers[i]));
            i = i + 1;
        }
        assert(result@ =~= centers@.map_values(
            |v: VertexId| filtered_branch_degree(flat_graph@, self@, v),
        ));
        result
    }
}

/// How many edges of the data have the label of an arm.
pub open spec fn arm_population(data: FlatView, arm: ArmView) -> nat {
    data.edges_labelled(arm.edge_label).len()
}

/// Whether an arm puts no condition on the data.
pub open spec fn is_free(arm: ArmView) -> bool {
    arm.edge_predicates.len() == 0 && arm.leaf_predicates.len() == 0
}

/// Whether an arm is the better anchor of two: one with conditions, or else the one with fewer
/// edges.
pub open spec fn anchors_better(data: FlatView, a: ArmView, b: ArmView) -> bool {
    if is_free(a) != is_free(b) {
        is_free(b)
    } else {
        arm_population(data, a) < arm_population(data, b)
    }
}

/// Whether an arm is the anchor of a star: the first of those with edges that none with edges is
/// better than.
pub open spec fn is_star_anchor(data: FlatView, arms: Seq<ArmView>, anchor: Option<int>) -> bool {
    match anchor {
        Some(i) => {
            &&& 0 <= i < arms.len()
            &&& arm_population(data, arms[i]) > 0
            &&& forall|j: int|
                #![trigger arms[j]]
                0 <= j < arms.len() && arm_population(data, arms[j]) > 0 ==> !anchors_better(
                    data,
                    arms[j],
                    arms[i],
                ) && (j < i ==> anchors_better(data, arms[i], arms[j]))
        },
        None => forall|j: int|
            #![trigger arms[j]]
            0 <= j < arms.len() ==> arm_population(data, arms[j]) == 0,
    }
}

/// Whether an arm is the anchor of a branch: the first of the arms of the center with edges that
/// none has fewer edges than, unless the root has still fewer.
pub open spec fn is_branch_anchor(data: FlatView, branch: BranchView, anchor: Option<int>) -> bool {
    let arms = branch.center_leaf_arms;
    let root = data.edges_labelled(branch.root_edge_label).len();
    match anchor {
        Some(i) => {
            &&& 0 <= i < arms.len()
            &&& 0 < arm_population(data, arms[i]) <= root
            &&& forall|j: int|
                #![trigger arms[j]]
                0 <= j < arms.len() && arm_population(data, arms[j]) > 0 ==> arm_population(
                    data,
                    arms[i],
                ) <= arm_population(data, arms[j]) && (j < i ==> arm_population(data, arms[i])
                    < arm_population(data, arms[j]))
        },
        None => forall|j: int|
            #![trigger arms[j]]
            0 <= j < arms.len() && arm_population(data, arms[j]) > 0 ==> root < arm_population(
                data,
                arms[j],
            ),
    }
}

impl CompiledStar {
    /// The anchor of the star.
    pub fn find_anchor(&self, flat_graph: &FlatGraph) -> (result: Option<usize>)
        ensures
            is_star_anchor(
                flat_graph@,
                self@.arms,
                match result {
                    Some(i) => Some(i as int),
                    None => None,
                },
            ),
    {
        let ghost data = flat_graph@;
        let ghost arms = self@.arms;
        let mut best: Option<usize> = None;
        let mut best_free: bool = false;
        let mut best_count: usize = 0;
        let mut i: usize = 0;
        while i < self.arms.len()
            invariant
                data == flat_graph@,
                arms == self@.arms,
                i <= self.arms@.len(),
                match best {
                    Some(b) => {
                        &&& b < i
                        &&& arm_population(data, arms[b as int]) == best_count
                        &&& best_count > 0
                        &&& best_free == is_free(arms[b as int])
                        &&& forall|j: int|
                            #![trigger arms[j]]
                            0 <= j < i && arm_population(data, arms[j]) > 0 ==> !anchors_better(
                                data,
                                arms[j],
                                arms[b as int],
                            ) && (j < b ==> anchors_better(data, arms[b as int], arms[j]))
                    },
                    None => forall|j: int|
                        #![trigger arms[j]]
                        0 <= j < i ==> arm_population(data, arms[j]) == 0,
                },
            decreases self.arms.len() - i,
        {
            let arm: &CompiledRawStarArm = &self.arms[i];
            assert(arms[i as int] == arm@);
            let count: usize = flat_graph.edge_count_by_label(arm.edge_label.as_str());
            if count > 0 {
                assert(resolved_views(arm.edge_predicates@).len() == arm.edge_predicates@.len());
                assert(resolved_views(arm.leaf_predicates@).len() == arm.leaf_predicates@.len());
                let free: bool = arm.edge_predicates.len() == 0 && arm.leaf_predicates.len() == 0;
                let better: bool = match best {
                    None => true,
                    Some(_) => if free != best_free {
                        best_free
                    } else {
                        count < best_count
                    },
                };
                if better {
                    best = Some(i);
                    best_free = free;
                    best_count = count;
                }
            }
            i = i + 1;
        }
        best
    }
}

impl CompiledN1Branch {
    /// The anchor of the branch, and how many edges it has.
    pub fn find_anchor(&self, flat_graph: &FlatGraph) -> (result: (Option<usize>, usize))
        ensures
            is_branch_anchor(
                flat_graph@,
                self@,
                match result.0 {
                    Some(i) => Some(i as int),
                    None => None,
                },
            ),
            result.1 == flat_graph@.edges_labelled(anchor_label(self@, result.0)).len(),
    {
        let ghost data = flat_graph@;
        let ghost arms = self@.center_leaf_arms;
        let root: usize = flat_graph.edge_count_by_label(self.root_edge_label.as_str());
        let mut best: Option<usize> = None;
        let mut best_count: usize = 0;
        let mut i: usize = 0;
        while i < self.center_leaf_arms.len()
            invariant
                data == flat_graph@,
                arms == self@.center_leaf_arms,
                i <= self.center_leaf_arms@.len(),
                match best {
                    Some(b) => {
                        &&& b < i
                        &&& arm_population(data, arms[b as int]) == best_count
                        &&& best_count > 0
                        &&& forall|j: int|
                            #![trigger arms[j]]
                            0 <= j < i && arm_population(data, arms[j]) > 0 ==> best_count
                                <= arm_population(data, arms[j]) && (j < b ==> best_count
                                < arm_population(data, arms[j]))
                    },
                    None => forall|j: int|
                        #![trigger arms[j]]
                        0 <= j < i ==> arm_population(data, arms[j]) == 0,
                },
            decreases self.center_leaf_arms.len() - i,
        {
            let arm: &CompiledRawStarArm = &self.center_leaf_arms[i];
            assert(arms[i as int] == arm@);
            let count: usize = flat_graph.edge_count_by_label(arm.edge_label.as_str());
            if count > 0 {
                let better: bool = match best {
                    None => true,
                    Some(_) => count < best_count,
                };
                if better {
                    best = Some(i);
                    best_count = count;
                }
            }
            i = i + 1;
        }
        match best {
            Some(b) => if best_count <= root {
                (Some(b), best_count)
            } else {
                (None, root)
            },
            None => (None, root),
        }
    }
}

/// The label of the edges that anchor a branch.
pub open spec fn anchor_label(branch: BranchView, anchor: Option<usize>) -> Seq<char> {
    match anchor {
        Some(i) => branch.center_leaf_arms[i as int].edge_label,
        None => branch.root_edge_label,
    }
}

/// The end of an edge that is a center, where the edge is between labels as it should be.
pub open spec fn center_of(
    e: FlatEdgeView,
    edge_label: Seq<char>,
    outgoing: bool,
    center_label: Seq<char>,
    other_label: Seq<char>,
) -> Option<VertexId> {
    if e.label != edge_label {
        None
    } else if outgoing && e.src_label == center_label && e.dst_label == other_label {
        Some(e.src)
    } else if !outgoing && e.dst_label == center_label && e.src_label == other_label {
        Some(e.dst)
    } else {
        None
    }
}

fn find_center(
    e: &FlatEdge,
    edge_label: &String,
    outgoing: bool,
    center_label: &String,
    other_label: &String,
) -> (result: Option<VertexId>)
    ensures
        result == center_of(e@, edge_label@, outgoing, center_label@, other_label@),
{
    if !is_text(e.label.as_str(), edge_label.as_str()) {
        return None;
    }
    if outgoing {
        if is_text(e.src_label.as_str(), center_label.as_str()) && is_text(
            e.dst_label.as_str(),
            other_label.as_str(),
        ) {
            Some(e.src)
        } else {
            None
        }
    } else if is_text(e.dst_label.as_str(), center_label.as_str()) && is_text(
        e.src_label.as_str(),
        other_label.as_str(),
    ) {
        Some(e.dst)
    } else {
        None
    }
}

/// What a drawn edge shows of a star: the degree of its center, and the degree of that center
/// along the anchor; nothing where either is zero.
pub open spec fn star_observation(
    data: FlatView,
    star: CompiledStarView,
    anchor: int,
    draw: EdgeId,
) -> Option<(u64, u64)> {
    let arm = star.arms[anchor];
    match data.edge(draw) {
        None => None,
        Some(e) => match center_of(
            e,
            arm.edge_label,
            arm.outgoing,
            star.center_label,
            arm.leaf_label,
        ) {
            None => None,
            Some(v) => if star_degree(data, star, v) > 0 && arm_hops(
                data,
                star.center_label,
                arm,
                v,
            ).len() > 0 {
                Some(
                    (
                        star_degree(data, star, v),
                        arm_hops(data, star.center_label, arm, v).len() as u64,
                    ),
                )
            } else {
                None
            },
        },
    }
}

/// What drawn edges show of a star.
pub open spec fn star_observations(
    data: FlatView,
    star: CompiledStarView,
    anchor: int,
    draws: Seq<EdgeId>,
) -> Seq<(u64, u64)>
    decreases draws.len(),
{
    if draws.len() == 0 {
        Seq::empty()
    } else {
        let before = star_observations(data, star, anchor, draws.drop_last());
        match star_observation(data, star, anchor, draws.last()) {
            Some(o) => before.push(o),
            None => before,
        }
    }
}

/// How many edges anchor a center of a branch.
pub open spec fn branch_anchor_degree(
    data: FlatView,
    branch: BranchView,
    anchor: Option<usize>,
    v: VertexId,
) -> nat {
    match anchor {
        Some(i) => arm_hops(
            data,
            branch.center_label,
            branch.center_leaf_arms[i as int],
            v,
        ).len(),
        None => root_hops(data, branch, v).len(),
    }
}

/// What a drawn edge shows of a branch.
pub open spec fn branch_observation(
    data: FlatView,
    branch: BranchView,
    anchor: Option<usize>,
    draw: EdgeId,
) -> Option<(u64, u64)> {
    match data.edge(draw) {
        None => None,
        Some(e) => {
            let center = match anchor {
                Some(i) => {
                    let arm = branch.center_leaf_arms[i as int];
                    center_of(
                        e,
                        arm.edge_label,
                        arm.outgoing,
                        branch.center_label,
                        arm.leaf_label,
                    )
                },
                None => center_of(
                    e,
                    branch.root_edge_label,
                    branch.root_outgoing,
                    branch.center_label,
                    branch.intermediate_label,
                ),
            };
            match center {
                None => None,
                Some(v) => if filtered_branch_degree(data, branch, v) > 0 && branch_anchor_degree(
                    data,
                    branch,
                    anchor,
                    v,
                ) > 0 {
                    Some(
                        (
                            filtered_branch_degree(data, branch, v),
                            branch_anchor_degree(data, branch, anchor, v) as u64,
                        ),
                    )
                } else {
                    None
                },
            }
        },
    }
}

/// What drawn edges show of a branch.
pub open spec fn branch_observations(
    data: FlatView,
    branch: BranchView,
    anchor: Option<usize>,
    draws: Seq<EdgeId>,
) -> Seq<(u64, u64)>
    decreases draws.len(),
{
    if draws.len() == 0 {
        Seq::empty()
    } else {
        let before = branch_observations(data, branch, anchor, draws.drop_last());
        match branch_observation(data, branch, anchor, draws.last()) {
            Some(o) => before.push(o),
            None => before,
        }
    }
}

impl CompiledStar {
    /// What a drawn edge shows of the star.
    pub fn observe(&self, flat_graph: &FlatGraph, anchor: usize, draw: EdgeId) -> (result: Option<
        (u64, u64),
    >)
        requires
            anchor < self@.arms.len(),
        ensures
            result == star_observation(flat_graph@, self@, anchor as int, draw),
    {
        let arm: &CompiledRawStarArm = &self.arms[anchor];
        assert(self@.arms[anchor as int] == arm@);
        let edge: &FlatEdge = match flat_graph.edge_endpoints(draw) {
            Some(e) => e,
            None => {
                return None;
            },
        };
        match find_center(
            edge,
            &arm.edge_label,
            arm.outgoing,
            &self.center_label,
            &arm.leaf_label,
        ) {
            None => None,
            Some(v) => {
                let degree: u64 = self.degree(flat_graph, v);
                let along: (u64, u64) = arm.degrees(flat_graph, self.center_label.as_str(), v);
                if degree > 0 && along.0 > 0 {
                    Some((degree, along.0))
                } else {
                    None
                }
            },
        }
    }

    /// What drawn edges show of the star.
    pub fn observe_all(&self, flat_graph: &FlatGraph, anchor: usize, draws: &Vec<EdgeId>) -> (result:
        Vec<(u64, u64)>)
        requires
            anchor < self@.arms.len(),
        ensures
            result@ == star_observations(flat_graph@, self@, anchor as int, draws@),
    {
        let mut result: Vec<(u64, u64)> = Vec::new();
        let mut i: usize = 0;
        while i < draws.len()
            invariant
                anchor < self@.arms.len(),
                i <= draws@.len(),
                result@ == star_observations(
                    flat_graph@,
                    self@,
                    anchor as int,
                    draws@.take(i as int),
                ),
            decreases draws.len() - i,
        {
            assert(draws@.take(i + 1).drop_last() =~= draws@.take(i as int));
            if let Some(o) = self.observe(flat_graph, anchor, draws[i]) {
                result.push(o);
            }
            i = i + 1;
        }
        assert(draws@.take(i as int) =~= draws@);
        result
    }
}

impl CompiledN1Branch {
    /// What a drawn edge shows of the branch.
    pub fn observe(&self, flat_graph: &FlatGraph, anchor: Option<usize>, draw: EdgeId) -> (result:
        Option<(u64, u64)>)
        requires
            anchor matches Some(i) ==> i < self@.center_leaf_arms.len(),
        ensures
            result == branch_observation(flat_graph@, self@, anchor, draw),
    {
        let edge: &FlatEdge = match flat_graph.edge_endpoints(draw) {
            Some(e) => e,
            None => {
                return None;
            },
        };
        let center: Option<VertexId> = match anchor {
            Some(i) => {
                let arm: &CompiledRawStarArm = &self.center_leaf_arms[i];
                assert(self@.center_leaf_arms[i as int] == arm@);
                find_center(
                    edge,
                    &arm.edge_label,
                    arm.outgoing,
                    &self.center_label,
                    &arm.leaf_label,
                )
            },
            None => find_center(
                edge,
                &self.root_edge_label,
                self.root_outgoing,
                &self.center_label,
                &self.intermediate_label,
            ),
        };
        match center {
            None => None,
            Some(v) => {
                let degree: u64 = self.filtered_degree(flat_graph, v);
                if degree == 0 {
                    return None;
                }
                let along: u64 = match anchor {
                    Some(i) => {
                        let arm: &CompiledRawStarArm = &self.center_leaf_arms[i];
                        assert(self@.center_leaf_arms[i as int] == arm@);
                        let degrees: (u64, u64) = arm.degrees(
                            flat_graph,
                            self.center_label.as_str(),
                            v,
                        );
                        degrees.0
                    },
                    None => {
                        let degrees: (u64, u64) = self.degrees(flat_graph, v);
                        degrees.0
                    },
                };
                if along > 0 {
                    Some((degree, along))
                } else {
                    None
                }
            },
        }
    }

    /// What drawn edges show of the branch.
    pub fn observe_all(
        &self,
        flat_graph: &FlatGraph,
        anchor: Option<usize>,
        draws: &Vec<EdgeId>,
    ) -> (result: Vec<(u64, u64)>)
        requires
            anchor matches Some(i) ==> i < self@.center_leaf_arms.len(),
        ensures
            result@ == branch_observations(flat_graph@, self@, anchor, draws@),
    {
        let mut result: Vec<(u64, u64)> = Vec::new();
        let mut i: usize = 0;
        while i < draws.len()
            invariant
                anchor matches Some(i) ==> i < self@.center_leaf_arms.len(),
                i <= draws@.len(),
                result@ == branch_observations(flat_graph@, self@, anchor, draws@.take(i as int)),
            decreases draws.len() - i,
        {
            assert(draws@.take(i + 1).drop_last() =~= draws@.take(i as int));
            if let Some(o) = self.observe(flat_graph, anchor, draws[i]) {
                result.push(o);
            }
            i = i + 1;
        }
        assert(draws@.take(i as int) =~= draws@);
        result
    }
}

/// Ids as text, with commas between them.
pub open spec fn joined_ids(ids: Seq<u64>) -> Seq<char>
    decreases ids.len(),
{
    if ids.len() == 0 {
        ""@
    } else if ids.len() == 1 {
        decimal(ids[0] as nat)
    } else {
        joined_ids(ids.drop_last()) + ", "@ + decimal(ids.last() as nat)
    }
}

/// The text that describes the sample of a star.
pub open spec fn star_signature(label: Seq<char>, ids: Seq<EdgeId>) -> Seq<char> {
    "predicate-star:"@ + label + ":["@ + joined_ids(ids) + "]"@
}

/// The text that describes the sample of a branch.
pub open spec fn branch_signature(label: Seq<char>, root: EdgeId, ids: Seq<EdgeId>) -> Seq<char> {
    "predicate-n1-branch:"@ + label + ":"@ + decimal(root as nat) + ":["@ + joined_ids(ids) + "]"@
}

fn append_joined(out: &mut String, ids: &Vec<u64>)
    ensures
        final(out)@ == old(out)@ + joined_ids(ids@),
{
    let ghost begun = out@;
    let mut i: usize = 0;
    proof {
        reveal_strlit("");
        assert(begun + joined_ids(ids@.take(0)) =~= begun);
    }
    while i < ids.len()
        invariant
            i <= ids@.len(),
            out@ == begun + joined_ids(ids@.take(i as int)),
        decreases ids.len() - i,
    {
        proof {
            reveal_strlit("");
            assert(ids@.take(i + 1).drop_last() =~= ids@.take(i as int));
            assert(ids@.take(i + 1).last() == ids@[i as int]);
        }
        if i > 0 {
            out.append(", ");
        }
        append_decimal(out, ids[i]);
        assert(out@ =~= begun + joined_ids(ids@.take(i + 1)));
        i = i + 1;
    }
    assert(ids@.take(i as int) =~= ids@);
}

fn arm_ids(arms: &Vec<RawStarArm>) -> (result: Vec<EdgeId>)
    ensures
        result@ == raw_arm_views(arms@).map_values(|a: RawArmView| a.edge_id),
{
    let mut result: Vec<EdgeId> = Vec::new();
    let mut i: usize = 0;
    while i < arms.len()
        invariant
            i <= arms@.len(),
            result@.len() == i,
            forall|j: int| #![trigger result@[j]] 0 <= j < i ==> result@[j] == arms@[j].edge_id,
        decreases arms.len() - i,
    {
        result.push(arms[i].edge_id);
        i = i + 1;
    }
    assert(result@ =~= raw_arm_views(arms@).map_values(|a: RawArmView| a.edge_id));
    result
}

/// The text that describes the sample of a star.
pub fn describe_star(label: &str, arms: &Vec<RawStarArm>) -> (result: String)
    ensures
        result@ == star_signature(
            label@,
            raw_arm_views(arms@).map_values(|a: RawArmView| a.edge_id),
        ),
{
    let ids: Vec<EdgeId> = arm_ids(arms);
    let mut out: String = "predicate-star:".to_owned();
    out.append(label);
    out.append(":[");
    append_joined(&mut out, &ids);
    out.append("]");
    out
}

/// The text that describes the sample of a branch.
pub fn describe_branch(label: &str, branch: &RawN1Branch) -> (result: String)
    ensures
        result@ == branch_signature(
            label@,
            branch.root_edge_id,
            (branch@.leaf_arms + branch@.center_leaf_arms).map_values(
                |a: RawArmView| a.edge_id,
            ),
        ),
{
    let mut ids: Vec<EdgeId> = arm_ids(&branch.leaf_arms);
    let mut more: Vec<EdgeId> = arm_ids(&branch.center_leaf_arms);
    ids.append(&mut more);
    assert(ids@ =~= (branch@.leaf_arms + branch@.center_leaf_arms).map_values(
        |a: RawArmView| a.edge_id,
    ));
    let mut out: String = "predicate-n1-branch:".to_owned();
    out.append(label);
    out.append(":");
    append_decimal(&mut out, branch.root_edge_id);
    out.append(":[");
    append_joined(&mut out, &ids);
    out.append("]");
    out
}

/// The seed for a sample that a text describes.
pub fn seed_of(signature: &String) -> (result: u64)
    ensures
        result == hash_of(encode_utf8(signature@ + ":[]"@)),
{
    let mut text: String = signature.clone();
    text.append(":[]");
    sample_seed(text.as_str())
}

/// What was seen of centers.
#[derive(Debug, Clone)]
pub enum CenterSample {
    /// Centers were picked, and the degree of each is known. They may have been picked for an
    /// earlier sample with the same description.
    Uniform { centers: Vec<VertexId>, remembered: bool, degrees: Vec<u64> },
    /// Edges were drawn, and their centers observed. The anchor is an arm; for a branch it may
    /// also be the root.
    Anchored {
        anchor: Option<usize>,
        anchor_population: usize,
        draws: Vec<EdgeId>,
        observations: Vec<(u64, u64)>,
    },
}

impl CenterSample {
    /// Whether the sample is evidence for what it shows.
    pub open spec fn is_enough(self, population: nat) -> bool {
        match self {
            CenterSample::Uniform { centers, remembered, degrees } => is_evidence(
                degrees@,
                population,
            ),
            CenterSample::Anchored { anchor, anchor_population, draws, observations } => {
                observations@.len() >= MIN_POSITIVE_SAMPLES
            },
        }
    }

    /// Whether the sample is evidence for what it shows.
    pub fn enough(&self, population: usize) -> (result: bool)
        ensures
            result == self.is_enough(population as nat),
    {
        match self {
            CenterSample::Uniform { centers, remembered, degrees } => {
                let positive: usize = count_positives(degrees);
                positive > 0 && (degrees.len() == population || positive >= MIN_POSITIVE_SAMPLES)
            },
            CenterSample::Anchored { anchor, anchor_population, draws, observations } => {
                observations.len() >= MIN_POSITIVE_SAMPLES
            },
        }
    }
}

/// Whether every draw is an edge with a label.
pub open spec fn drawn_from(data: FlatView, label: Seq<char>, draws: Seq<EdgeId>) -> bool {
    forall|i: int|
        0 <= i < draws.len() ==> data.edges_labelled(label).contains(#[trigger] draws[i])
}

/// Whether a sample is one of a star: where there are few centers, or no edges to draw from, of
/// the centers for a description; and otherwise of so many edges of the anchor.
pub open spec fn is_star_sample(
    data: FlatView,
    star: CompiledStarView,
    size: nat,
    key: Seq<char>,
    before: Map<Seq<char>, Seq<VertexId>>,
    after: Map<Seq<char>, Seq<VertexId>>,
    sample: CenterSample,
) -> bool {
    let population = data.labelled(star.center_label).len();
    match sample {
        CenterSample::Uniform { centers, remembered, degrees } => {
            &&& population <= size || is_star_anchor(data, star.arms, None)
            &&& is_pick(
                data.labelled(star.center_label),
                size,
                before,
                after,
                key,
                remembered,
                centers@,
            )
            &&& degrees@ == centers@.map_values(|v: VertexId| star_degree(data, star, v))
        },
        CenterSample::Anchored { anchor, anchor_population, draws, observations } => {
            &&& after == before
            &&& population > size
            &&& anchor matches Some(i)
            &&& is_star_anchor(data, star.arms, Some(i as int))
            &&& anchor_population == arm_population(data, star.arms[i as int])
            &&& draws@.len() == size
            &&& drawn_from(data, star.arms[i as int].edge_label, draws@)
            &&& observations@ == star_observations(data, star, i as int, draws@)
        },
    }
}

/// How many edges are drawn for a branch: so many, and as many again where the first ones show
/// something but not enough.
pub open spec fn branch_draws(first: nat, size: nat) -> nat {
    if 2 <= first < MIN_POSITIVE_SAMPLES && 2 * size <= usize::MAX {
        2 * size
    } else if 2 <= first < MIN_POSITIVE_SAMPLES {
        usize::MAX as nat
    } else {
        size
    }
}

/// Whether a sample is one of a branch: where there are few centers, or no roots to draw from,
/// of the centers for a description; and otherwise of edges of the anchor.
pub open spec fn is_branch_sample(
    data: FlatView,
    branch: BranchView,
    size: nat,
    key: Seq<char>,
    before: Map<Seq<char>, Seq<VertexId>>,
    after: Map<Seq<char>, Seq<VertexId>>,
    sample: CenterSample,
) -> bool {
    let population = data.labelled(branch.center_label).len();
    let roots = data.edges_labelled(branch.root_edge_label).len();
    match sample {
        CenterSample::Uniform { centers, remembered, degrees } => {
            &&& population <= size || roots == 0
            &&& is_pick(
                data.labelled(branch.center_label),
                size,
                before,
                after,
                key,
                remembered,
                centers@,
            )
            &&& degrees@ == centers@.map_values(
                |v: VertexId| filtered_branch_degree(data, branch, v),
            )
        },
        CenterSample::Anchored { anchor, anchor_population, draws, observations } => {
            &&& after == before
            &&& population > size
            &&& roots > 0
            &&& is_branch_anchor(
                data,
                branch,
                match anchor {
                    Some(i) => Some(i as int),
                    None => None,
                },
            )
            &&& anchor_population == data.edges_labelled(anchor_label(branch, anchor)).len()
            &&& size <= draws@.len()
            &&& draws@.len() == branch_draws(
                branch_observations(data, branch, anchor, draws@.take(size as int)).len(),
                size,
            )
            &&& drawn_from(data, anchor_label(branch, anchor), draws@)
            &&& observations@ == branch_observations(data, branch, anchor, draws@)
        },
    }
}

/// Some of the vertices with a label: those that are remembered for a description, or newly
/// picked ones, which are then remembered.
fn pick_centers(
    flat_graph: &FlatGraph,
    label: &str,
    amount: usize,
    signature: String,
    cache: &mut DashMap<String, Vec<VertexId>>,
) -> (result: (Vec<VertexId>, bool))
    ensures
        is_pick(
            flat_graph@.labelled(label@),
            amount as nat,
            contents(*old(cache)),
            contents(*final(cache)),
            signature@,
            result.1,
            result.0@,
        ),
{
    if let Some(ids) = cached(cache, &signature) {
        return (ids, true);
    }
    let mut rng: StdRng = seeded(seed_of(&signature));
    let ids: Vec<VertexId> = flat_graph.sample_vertices_by_label(label, amount, &mut rng);
    remember(cache, signature, copy_ids(&ids));
    (ids, false)
}

/// Draws edges with a label.
fn draw_edges(flat_graph: &FlatGraph, label: &str, amount: usize, rng: &mut StdRng) -> (result: Vec<
    EdgeId,
>)
    requires
        flat_graph@.edges_labelled(label@).len() > 0,
    ensures
        result@.len() == amount,
        drawn_from(flat_graph@, label@, result@),
{
    let mut result: Vec<EdgeId> = Vec::new();
    while result.len() < amount
        invariant
            flat_graph@.edges_labelled(label@).len() > 0,
            result@.len() <= amount,
            drawn_from(flat_graph@, label@, result@),
        decreases amount - result@.len(),
    {
        match flat_graph.sample_edge_id_by_label(label, rng) {
            Some(id) => {
                let ghost before = result@;
                result.push(id);
                assert forall|i: int| 0 <= i < result@.len() implies flat_graph@.edges_labelled(
                    label@,
                ).contains(#[trigger] result@[i]) by {
                    if i < before.len() {
                        assert(before[i] == result@[i]);
                    }
                }
            },
            None => {},
        }
    }
    result
}

impl CompiledStar {
    /// A sample of the star; none where there is nothing to sample.
    pub fn sample(
        &self,
        flat_graph: &FlatGraph,
        sample_size: usize,
        signature: String,
        cache: &mut DashMap<String, Vec<VertexId>>,
    ) -> (result: Option<CenterSample>)
        ensures
            match result {
                Some(sample) => {
                    &&& flat_graph@.labelled(self@.center_label).len() > 0
                    &&& sample_size > 0
                    &&& is_star_sample(
                        flat_graph@,
                        self@,
                        sample_size as nat,
                        signature@,
                        contents(*old(cache)),
                        contents(*final(cache)),
                        sample,
                    )
                },
                None => (flat_graph@.labelled(self@.center_label).len() == 0 || sample_size == 0)
                    && contents(*final(cache)) == contents(*old(cache)),
            },
    {
        let population: usize = flat_graph.vertex_count_by_label(self.center_label.as_str());
        if population == 0 || sample_size == 0 {
            return None;
        }
        let anchor: Option<usize> = self.find_anchor(flat_graph);
        match anchor {
            Some(i) => if population > sample_size {
                let arm: &CompiledRawStarArm = &self.arms[i];
                assert(self@.arms[i as int] == arm@);
                let anchor_population: usize = flat_graph.edge_count_by_label(
                    arm.edge_label.as_str(),
                );
                let mut rng: StdRng = seeded(seed_of(&signature));
                let draws: Vec<EdgeId> = draw_edges(
                    flat_graph,
                    arm.edge_label.as_str(),
                    sample_size,
                    &mut rng,
                );
                let observations: Vec<(u64, u64)> = self.observe_all(flat_graph, i, &draws);
                return Some(
                    CenterSample::Anchored { anchor, anchor_population, draws, observations },
                );
            },
            None => {},
        }
        let (centers, remembered) = pick_centers(
            flat_graph,
            self.center_label.as_str(),
            sample_size,
            signature,
            cache,
        );
        let degrees: Vec<u64> = self.degrees(flat_graph, &centers);
        Some(CenterSample::Uniform { centers, remembered, degrees })
    }
}

impl CompiledN1Branch {
    /// A sample of the branch; none where there is nothing to sample.
    pub fn sample(
        &self,
        flat_graph: &FlatGraph,
        sample_size: usize,
        signature: String,
        cache: &mut DashMap<String, Vec<VertexId>>,
    ) -> (result: Option<CenterSample>)
        ensures
            match result {
                Some(sample) => {
                    &&& flat_graph@.labelled(self@.center_label).len() > 0
                    &&& sample_size > 0
                    &&& is_branch_sample(
                        flat_graph@,
                        self@,
                        sample_size as nat,
                        signature@,
                        contents(*old(cache)),
                        contents(*final(cache)),
                        sample,
                    )
                },
                None => (flat_graph@.labelled(self@.center_label).len() == 0 || sample_size == 0)
                    && contents(*final(cache)) == contents(*old(cache)),
            },
    {
        let population: usize = flat_graph.vertex_count_by_label(self.center_label.as_str());
        if population == 0 || sample_size == 0 {
            return None;
        }
        let roots: usize = flat_graph.edge_count_by_label(self.root_edge_label.as_str());
        if population <= sample_size || roots == 0 {
            let (centers, remembered) = pick_centers(
                flat_graph,
                self.center_label.as_str(),
                sample_size,
                signature,
                cache,
            );
            let degrees: Vec<u64> = self.filtered_degrees(flat_graph, &centers);
            return Some(CenterSample::Uniform { centers, remembered, degrees });
        }
        let mut rng: StdRng = seeded(seed_of(&signature));
        let (anchor, anchor_population) = self.find_anchor(flat_graph);
        let label: &str = match anchor {
            Some(i) => {
                assert(self@.center_leaf_arms[i as int] == self.center_leaf_arms@[i as int]@);
                self.center_leaf_arms[i].edge_label.as_str()
            },
            None => self.root_edge_label.as_str(),
        };
        let mut draws: Vec<EdgeId> = draw_edges(flat_graph, label, sample_size, &mut rng);
        let mut observations: Vec<(u64, u64)> = self.observe_all(flat_graph, anchor, &draws);
        let ghost first = draws@;
        assert(first.take(sample_size as int) =~= first);
        if observations.len() >= 2 && observations.len() < MIN_POSITIVE_SAMPLES {
            let again: usize = if sample_size <= usize::MAX - sample_size {
                sample_size
            } else {
                usize::MAX - sample_size
            };
            let mut more: Vec<EdgeId> = draw_edges(flat_graph, label, again, &mut rng);
            let ghost second = more@;
            draws.append(&mut more);
            observations = self.observe_all(flat_graph, anchor, &draws);
            proof {
                assert(draws@ =~= first + second);
                assert(draws@.take(sample_size as int) =~= first);
                assert forall|i: int| 0 <= i < draws@.len() implies flat_graph@.edges_labelled(
                    label@,
                ).contains(#[trigger] draws@[i]) by {
                    if i < first.len() {
                        assert(first[i] == draws@[i]);
                    } else {
                        assert(second[i - first.len()] == draws@[i]);
                    }
                }
            }
        }
        Some(CenterSample::Anchored { anchor, anchor_population, draws, observations })
    }
}

/// The description of a star, for which its centers are kept.
pub open spec fn star_key(star: CompiledStarView, arms: Seq<RawArmView>) -> Seq<char> {
    star_signature(star.center_label, arms.map_values(|a: RawArmView| a.edge_id))
}

/// The description of a branch, for which its centers are kept.
pub open spec fn branch_key(compiled: BranchView, branch: RawBranchView) -> Seq<char> {
    branch_signature(
        compiled.center_label,
        branch.root_edge_id,
        (branch.leaf_arms + branch.center_leaf_arms).map_values(|a: RawArmView| a.edge_id),
    )
}

/// Whether a star was sampled, or there is nothing to sample.
pub open spec fn is_sampling_of_star(
    data: FlatView,
    star: CompiledStarView,
    size: nat,
    key: Seq<char>,
    before: Map<Seq<char>, Seq<VertexId>>,
    after: Map<Seq<char>, Seq<VertexId>>,
    seen: Option<CenterSample>,
) -> bool {
    let nothing = data.labelled(star.center_label).len() == 0 || size == 0;
    match seen {
        None => nothing && after == before,
        Some(sample) => !nothing && is_star_sample(data, star, size, key, before, after, sample),
    }
}

/// Whether a branch was sampled, or there is nothing to sample.
pub open spec fn is_sampling_of_branch(
    data: FlatView,
    branch: BranchView,
    size: nat,
    key: Seq<char>,
    before: Map<Seq<char>, Seq<VertexId>>,
    after: Map<Seq<char>, Seq<VertexId>>,
    seen: Option<CenterSample>,
) -> bool {
    let nothing = data.labelled(branch.center_label).len() == 0 || size == 0;
    match seen {
        None => nothing && after == before,
        Some(sample) => !nothing && is_branch_sample(
            data,
            branch,
            size,
            key,
            before,
            after,
            sample,
        ),
    }
}

impl QueryGraph {
    /// A sample of a star of the query; none where there is nothing to sample.
    pub fn sample_filtered_raw_star(
        &self,
        center: VertexId,
        arms: &Vec<RawStarArm>,
        flat_graph: &FlatGraph,
        sample_size: usize,
        cache: &mut DashMap<String, Vec<VertexId>>,
    ) -> (result: Result<Option<CenterSample>, StarError>)
        requires
            self@.wf(),
        ensures
            match compiled_star(self@, flat_graph@, center, raw_arm_views(arms@)) {
                Err(error) => (result matches Err(e) && e@ == error) && contents(*final(cache))
                    == contents(*old(cache)),
                Ok(star) => result is Ok && is_sampling_of_star(
                    flat_graph@,
                    star,
                    sample_size as nat,
                    star_key(star, raw_arm_views(arms@)),
                    contents(*old(cache)),
                    contents(*final(cache)),
                    result->Ok_0,
                ),
            },
    {
        match self.compile_star(flat_graph, center, arms) {
            Err(error) => Err(error),
            Ok(star) => {
                let signature: String = describe_star(star.center_label.as_str(), arms);
                Ok(star.sample(flat_graph, sample_size, signature, cache))
            },
        }
    }

    /// A sample of a branch of the query; none where there is nothing to sample.
    pub fn sample_filtered_n1_branch(
        &self,
        branch: &RawN1Branch,
        flat_graph: &FlatGraph,
        sample_size: usize,
        cache: &mut DashMap<String, Vec<VertexId>>,
    ) -> (result: Result<Option<CenterSample>, StarError>)
        requires
            self@.wf(),
        ensures
            match compiled_branch(self@, flat_graph@, branch@) {
                Err(error) => (result matches Err(e) && e@ == error) && contents(*final(cache))
                    == contents(*old(cache)),
                Ok(compiled) => result is Ok && is_sampling_of_branch(
                    flat_graph@,
                    compiled,
                    sample_size as nat,
                    branch_key(compiled, branch@),
                    contents(*old(cache)),
                    contents(*final(cache)),
                    result->Ok_0,
                ),
            },
    {
        match self.compile_branch(flat_graph, branch) {
            Err(error) => Err(error),
            Ok(compiled) => {
                let signature: String = describe_branch(compiled.center_label.as_str(), branch);
                Ok(compiled.sample(flat_graph, sample_size, signature, cache))
            },
        }
    }
}

} // verus!
