//! Random walks along the steps of a plan.
use crate::chance::{distinct_indices, index_below};
use crate::embeddings::{far_end_of, is_at};
use crate::flat::{
    passes, properties_pass_predicates, resolved_views, FlatGraph, FlatView, ResolvedView,
};
use crate::lookups::{conditions_are_met_one_by_one, lists_places, neighbors_are_other_ends};
use crate::path_query::{step_views, FlatCompiledStep, StepView};
use crate::query::{EdgeId, VertexId};
use crate::value::{meets, ScalarValue};
use rand::rngs::StdRng;
use vstd::prelude::*;
use vstd::string::*;

verus! {

/// How many vertices a frontier may have before counting is given up.
pub const MAX_FRONTIER: usize = 200_000;

/// One branch is followed for so many neighbors.
pub const NEIGHBORS_PER_BRANCH: usize = 32;

/// Whether no step puts a condition on the data.
pub open spec fn is_predicate_free(steps: Seq<StepView>) -> bool {
    forall|i: int|
        #![trigger steps[i]]
        0 <= i < steps.len() ==> match steps[i] {
            StepView::Vertex { label, predicates } => predicates.len() == 0,
            StepView::Edge { label, edge_label, outgoing, predicates } => predicates.len() == 0,
        }
}

/// Whether no step puts a condition on the data.
pub fn segment_is_predicate_free(segment: &Vec<FlatCompiledStep>) -> (result: bool)
    ensures
        result == is_predicate_free(step_views(segment@)),
{
    let ghost steps = step_views(segment@);
    let mut i: usize = 0;
    while i < segment.len()
        invariant
            steps == step_views(segment@),
            i <= segment@.len(),
            forall|j: int|
                #![trigger steps[j]]
                0 <= j < i ==> match steps[j] {
                    StepView::Vertex { label, predicates } => predicates.len() == 0,
                    StepView::Edge { label, edge_label, outgoing, predicates } => predicates.len()
                        == 0,
                },
        decreases segment.len() - i,
    {
        assert(steps[i as int] == segment@[i as int]@);
        let free: bool = match &segment[i] {
            FlatCompiledStep::Vertex { label, predicates } => {
                assert(resolved_views(predicates@).len() == predicates@.len());
                predicates.len() == 0
            },
            FlatCompiledStep::Edge { label, edge_label, outgoing, predicates } => {
                assert(resolved_views(predicates@).len() == predicates@.len());
                predicates.len() == 0
            },
        };
        if !free {
            return false;
        }
        i = i + 1;
    }
    true
}

/// The neighbors of vertices, one vertex after the other.
pub open spec fn neighbors_of(
    data: FlatView,
    label: Seq<char>,
    edge_label: Seq<char>,
    outgoing: bool,
    frontier: Seq<VertexId>,
) -> Seq<VertexId>
    decreases frontier.len(),
{
    if frontier.len() == 0 {
        Seq::empty()
    } else {
        neighbors_of(data, label, edge_label, outgoing, frontier.drop_last()) + data.hops(
            label,
            edge_label,
            outgoing,
            frontier.last(),
        ).map_values(|hop: (VertexId, EdgeId)| hop.0)
    }
}

/// Where the walks along the first `n` steps end, each walk for itself.
pub open spec fn frontier_after(
    data: FlatView,
    steps: Seq<StepView>,
    start: VertexId,
    n: int,
) -> Seq<VertexId>
    decreases n,
{
    if n <= 0 {
        seq![start]
    } else {
        let before = frontier_after(data, steps, start, n - 1);
        match steps[n - 1] {
            StepView::Vertex { label, predicates } => before,
            StepView::Edge { label, edge_label, outgoing, predicates } => neighbors_of(
                data,
                label,
                edge_label,
                outgoing,
                before,
            ),
        }
    }
}

/// How many of the first `n` steps go along an edge.
pub open spec fn edge_steps(steps: Seq<StepView>, n: int) -> nat
    decreases n,
{
    if n <= 0 {
        0
    } else {
        edge_steps(steps, n - 1) + (if steps[n - 1] is Edge {
            1nat
        } else {
            0
        })
    }
}

/// Whether counting is given up: after a step that is not the last one along an edge there are
/// too many walks.
pub open spec fn overflows(data: FlatView, steps: Seq<StepView>, start: VertexId) -> bool {
    exists|n: int|
        0 < n <= steps.len() && edge_steps(steps, n) < edge_steps(steps, steps.len() as int)
            && #[trigger] frontier_after(data, steps, start, n).len() > MAX_FRONTIER
}

fn append_neighbors(
    out: &mut Vec<VertexId>,
    hops: &Vec<(VertexId, EdgeId)>,
    limit: usize,
) -> (result: bool)
    requires
        old(out)@.len() <= limit,
    ensures
        result ==> final(out)@ == old(out)@ + hops@.map_values(|hop: (VertexId, EdgeId)| hop.0)
            && final(out)@.len() <= limit,
        !result ==> old(out)@.len() + hops@.len() > limit,
{
    let ghost begun = out@;
    if hops.len() > limit - out.len() {
        return false;
    }
    let ghost ends = hops@.map_values(|hop: (VertexId, EdgeId)| hop.0);
    let mut i: usize = 0;
    assert(begun + ends.take(0) =~= begun);
    while i < hops.len()
        invariant
            ends == hops@.map_values(|hop: (VertexId, EdgeId)| hop.0),
            i <= hops@.len(),
            out@ == begun + ends.take(i as int),
        decreases hops.len() - i,
    {
        out.push(hops[i].0);
        assert(out@ =~= begun + ends.take(i + 1));
        i = i + 1;
    }
    assert(ends.take(i as int) =~= ends);
    true
}

proof fn lemma_neighbors_grow(
    data: FlatView,
    label: Seq<char>,
    edge_label: Seq<char>,
    outgoing: bool,
    frontier: Seq<VertexId>,
    n: int,
)
    requires
        0 <= n <= frontier.len(),
    ensures
        neighbors_of(data, label, edge_label, outgoing, frontier.take(n)).len() <= neighbors_of(
            data,
            label,
            edge_label,
            outgoing,
            frontier,
        ).len(),
    decreases frontier.len(),
{
    if n < frontier.len() {
        assert(frontier.drop_last().take(n) =~= frontier.take(n));
        lemma_neighbors_grow(data, label, edge_label, outgoing, frontier.drop_last(), n);
    } else {
        assert(frontier.take(n) =~= frontier);
    }
}

/// The neighbors of vertices, where they are not too many.
fn expand(
    flat_graph: &FlatGraph,
    label: &str,
    edge_label: &str,
    outgoing: bool,
    frontier: &Vec<VertexId>,
) -> (result: Option<Vec<VertexId>>)
    ensures
        ({
            let next = neighbors_of(flat_graph@, label@, edge_label@, outgoing, frontier@);
            match result {
                Some(found) => found@ == next && next.len() <= MAX_FRONTIER,
                None => next.len() > MAX_FRONTIER,
            }
        }),
{
    let ghost data = flat_graph@;
    let mut next: Vec<VertexId> = Vec::new();
    let mut i: usize = 0;
    while i < frontier.len()
        invariant
            data == flat_graph@,
            i <= frontier@.len(),
            next@ == neighbors_of(data, label@, edge_label@, outgoing, frontier@.take(i as int)),
            next@.len() <= MAX_FRONTIER,
        decreases frontier.len() - i,
    {
        assert(frontier@.take(i + 1).drop_last() =~= frontier@.take(i as int));
        let hops: Vec<(VertexId, EdgeId)> = flat_graph.neighbors(
            label,
            edge_label,
            outgoing,
            frontier[i],
        );
        if !append_neighbors(&mut next, &hops, MAX_FRONTIER) {
            proof {
                lemma_neighbors_grow(data, label@, edge_label@, outgoing, frontier@, i + 1);
            }
            return None;
        }
        i = i + 1;
    }
    assert(frontier@.take(i as int) =~= frontier@);
    Some(next)
}

/// How many neighbors vertices have, together.
fn count_neighbors(
    flat_graph: &FlatGraph,
    label: &str,
    edge_label: &str,
    outgoing: bool,
    frontier: &Vec<VertexId>,
) -> (result: u128)
    requires
        frontier@.len() <= MAX_FRONTIER,
    ensures
        result == neighbors_of(flat_graph@, label@, edge_label@, outgoing, frontier@).len(),
{
    let ghost data = flat_graph@;
    let mut total: u128 = 0;
    let mut i: usize = 0;
    while i < frontier.len()
        invariant
            data == flat_graph@,
            frontier@.len() <= MAX_FRONTIER,
            i <= frontier@.len(),
            total <= i * 0x1_0000_0000_0000_0000,
            total == neighbors_of(
                data,
                label@,
                edge_label@,
                outgoing,
                frontier@.take(i as int),
            ).len(),
        decreases frontier.len() - i,
    {
        assert(frontier@.take(i + 1).drop_last() =~= frontier@.take(i as int));
        let hops: Vec<(VertexId, EdgeId)> = flat_graph.neighbors(
            label,
            edge_label,
            outgoing,
            frontier[i],
        );
        total = total + hops.len() as u128;
        i = i + 1;
    }
    assert(frontier@.take(i as int) =~= frontier@);
    total
}

fn count_edge_steps(segment: &Vec<FlatCompiledStep>) -> (result: usize)
    ensures
        result == edge_steps(step_views(segment@), segment@.len() as int),
{
    let ghost steps = step_views(segment@);
    let mut count: usize = 0;
    let mut i: usize = 0;
    while i < segment.len()
        invariant
            steps == step_views(segment@),
            i <= segment@.len(),
            count <= i,
            count == edge_steps(steps, i as int),
        decreases segment.len() - i,
    {
        assert(steps[i as int] == segment@[i as int]@);
        match &segment[i] {
            FlatCompiledStep::Vertex { .. } => {},
            FlatCompiledStep::Edge { .. } => {
                count = count + 1;
            },
        }
        i = i + 1;
    }
    count
}

proof fn lemma_no_more_edges(data: FlatView, steps: Seq<StepView>, start: VertexId, n: int, m: int)
    requires
        0 <= n <= m <= steps.len(),
        edge_steps(steps, n) == edge_steps(steps, steps.len() as int),
    ensures
        frontier_after(data, steps, start, m) == frontier_after(data, steps, start, n),
        edge_steps(steps, m) == edge_steps(steps, n),
    decreases m - n,
{
    if n < m {
        lemma_no_more_edges(data, steps, start, n, m - 1);
        lemma_edge_steps_grow(steps, m, steps.len() as int);
    }
}

proof fn lemma_edge_steps_grow(steps: Seq<StepView>, n: int, m: int)
    requires
        0 <= n <= m,
    ensures
        edge_steps(steps, n) <= edge_steps(steps, m),
    decreases m,
{
    if n < m {
        lemma_edge_steps_grow(steps, n, m - 1);
    }
}

/// How many walks there are along steps; nothing where there are too many on the way.
pub fn compute_segment_reachable_count(
    flat_graph: &FlatGraph,
    start_vertex: VertexId,
    segment: &Vec<FlatCompiledStep>,
) -> (result: Option<u128>)
    ensures
        match result {
            Some(count) => {
                &&& !overflows(flat_graph@, step_views(segment@), start_vertex)
                &&& count == frontier_after(
                    flat_graph@,
                    step_views(segment@),
                    start_vertex,
                    segment@.len() as int,
                ).len()
            },
            None => overflows(flat_graph@, step_views(segment@), start_vertex),
        },
{
    let ghost data = flat_graph@;
    let ghost steps = step_views(segment@);
    let ghost len = segment@.len() as int;
    let total: usize = count_edge_steps(segment);
    let mut frontier: Vec<VertexId> = Vec::new();
    frontier.push(start_vertex);
    assert(frontier@ =~= seq![start_vertex]);
    let mut seen: usize = 0;
    let mut i: usize = 0;
    while i < segment.len()
        invariant
            data == flat_graph@,
            steps == step_views(segment@),
            len == segment@.len(),
            total == edge_steps(steps, len),
            i <= len,
            seen == edge_steps(steps, i as int),
            seen < total || total == 0,
            frontier@ == frontier_after(data, steps, start_vertex, i as int),
            frontier@.len() <= MAX_FRONTIER,
            forall|n: int|
                0 < n <= i ==> #[trigger] frontier_after(data, steps, start_vertex, n).len()
                    <= MAX_FRONTIER,
        decreases segment.len() - i,
    {
        assert(steps[i as int] == segment@[i as int]@);
        match &segment[i] {
            FlatCompiledStep::Vertex { label, predicates } => {},
            FlatCompiledStep::Edge { label, edge_label, outgoing, predicates } => {
                proof {
                    lemma_edge_steps_grow(steps, i + 1, len);
                }
                if seen == total - 1 {
                    let count: u128 = count_neighbors(
                        flat_graph,
                        label.as_str(),
                        edge_label.as_str(),
                        *outgoing,
                        &frontier,
                    );
                    proof {
                        lemma_no_more_edges(data, steps, start_vertex, i + 1, len);
                        assert forall|n: int|
                            0 < n <= len && edge_steps(steps, n) < total implies frontier_after(
                            data,
                            steps,
                            start_vertex,
                            n,
                        ).len() <= MAX_FRONTIER by {
                            if n > i {
                                lemma_edge_steps_grow(steps, i + 1, n);
                            }
                        }
                    }
                    return Some(count);
                }
                match expand(
                    flat_graph,
                    label.as_str(),
                    edge_label.as_str(),
                    *outgoing,
                    &frontier,
                ) {
                    Some(next) => {
                        frontier = next;
                    },
                    None => {
                        assert(frontier_after(data, steps, start_vertex, i + 1).len()
                            > MAX_FRONTIER);
                        assert(edge_steps(steps, i + 1) < total);
                        return None;
                    },
                }
                seen = seen + 1;
            },
        }
        i = i + 1;
    }
    Some(frontier.len() as u128)
}

/// How many branches are followed where a vertex has so many neighbors.
pub open spec fn branch_count(degree: nat) -> nat {
    ((degree + NEIGHBORS_PER_BRANCH - 1) / (NEIGHBORS_PER_BRANCH as int)) as nat
}

/// What a walk met from some step on.
#[derive(Debug)]
pub enum Walk {
    /// There was no further step.
    End,
    /// There was no neighbor to go to.
    Dead,
    /// A vertex, whether it met its conditions, and the rest.
    Vertex { passes: bool, rest: Box<Walk> },
    /// How many neighbors there were, and the branches that were followed.
    Edges { degree: usize, branches: Vec<Branch> },
}

/// A branch of a walk: where it went, whether the edge met its conditions, and the rest.
#[derive(Debug)]
pub struct Branch {
    pub hop: usize,
    pub passes: bool,
    pub rest: Walk,
}

/// Whether a walk is one along the steps from a position on, starting at a vertex. At every edge
/// it follows as many branches as there should be, to different neighbors.
pub open spec fn is_walk_from(
    data: FlatView,
    steps: Seq<StepView>,
    depth: int,
    v: VertexId,
    walk: Walk,
) -> bool
    decreases steps.len() - depth,
{
    if depth < 0 || depth >= steps.len() {
        walk is End
    } else {
        match steps[depth] {
            StepView::Vertex { label, predicates } => {
                &&& walk matches Walk::Vertex { passes: ok, rest }
                &&& ok == passes(data.vertex_props(label, v), predicates)
                &&& is_walk_from(data, steps, depth + 1, v, *rest)
            },
            StepView::Edge { label, edge_label, outgoing, predicates } => {
                let hops = data.hops(label, edge_label, outgoing, v);
                if hops.len() == 0 {
                    walk is Dead
                } else {
                    &&& walk matches Walk::Edges { degree, branches }
                    &&& degree == hops.len()
                    &&& branches@.len() == branch_count(degree as nat)
                    &&& forall|i: int, j: int|
                        #![trigger branches@[i], branches@[j]]
                        0 <= i < j < branches@.len() ==> branches@[i].hop != branches@[j].hop
                    &&& forall|i: int|
                        #![trigger branches@[i]]
                        0 <= i < branches@.len() ==> {
                            &&& branches@[i].hop < hops.len()
                            &&& branches@[i].passes == passes(
                                data.edge_props(hops[branches@[i].hop as int].1),
                                predicates,
                            )
                            &&& is_walk_from(
                                data,
                                steps,
                                depth + 1,
                                hops[branches@[i].hop as int].0,
                                branches@[i].rest,
                            )
                        }
                }
            },
        }
    }
}

/// How many branches a walk follows where there are so many neighbors.
fn count_branches(degree: usize) -> (result: usize)
    requires
        degree > 0,
    ensures
        result == branch_count(degree as nat),
        1 <= result <= degree,
{
    let whole: usize = degree / NEIGHBORS_PER_BRANCH;
    if degree % NEIGHBORS_PER_BRANCH == 0 {
        whole
    } else {
        whole + 1
    }
}

fn pick_branches(rng: &mut StdRng, degree: usize) -> (result: Vec<usize>)
    requires
        degree > 0,
    ensures
        result@.len() == branch_count(degree as nat),
        result@.no_duplicates(),
        forall|i: int| 0 <= i < result@.len() ==> #[trigger] result@[i] < degree,
{
    let count: usize = count_branches(degree);
    if count == 1 {
        let mut result: Vec<usize> = Vec::new();
        result.push(index_below(rng, degree));
        result
    } else {
        distinct_indices(rng, degree, count)
    }
}

/// A walk along the steps from a position on, starting at a vertex.
pub fn walk_segment_branched(
    flat_graph: &FlatGraph,
    segment: &Vec<FlatCompiledStep>,
    depth: usize,
    current_vid: VertexId,
    rng: &mut StdRng,
) -> (result: Walk)
    ensures
        is_walk_from(
            flat_graph@,
            step_views(segment@),
            depth as int,
            current_vid,
            result,
        ),
    decreases segment@.len() - depth,
{
    let ghost data = flat_graph@;
    let ghost steps = step_views(segment@);
    if depth >= segment.len() {
        return Walk::End;
    }
    assert(steps[depth as int] == segment@[depth as int]@);
    match &segment[depth] {
        FlatCompiledStep::Vertex { label, predicates } => {
            let passes: bool = properties_pass_predicates(
                flat_graph.vertex_props(label.as_str(), current_vid),
                predicates,
            );
            let rest: Walk = walk_segment_branched(
                flat_graph,
                segment,
                depth + 1,
                current_vid,
                rng,
            );
            Walk::Vertex { passes, rest: Box::new(rest) }
        },
        FlatCompiledStep::Edge { label, edge_label, outgoing, predicates } => {
            let hops: Vec<(VertexId, EdgeId)> = flat_graph.neighbors(
                label.as_str(),
                edge_label.as_str(),
                *outgoing,
                current_vid,
            );
            let degree: usize = hops.len();
            if degree == 0 {
                return Walk::Dead;
            }
            let picked: Vec<usize> = pick_branches(rng, degree);
            let mut branches: Vec<Branch> = Vec::new();
            let mut i: usize = 0;
            while i < picked.len()
                invariant
                    data == flat_graph@,
                    steps == step_views(segment@),
                    depth < segment.len(),
                    degree == hops@.len(),
                    forall|j: int| 0 <= j < picked@.len() ==> #[trigger] picked@[j] < degree,
                    i <= picked@.len(),
                    branches@.len() == i,
                    forall|j: int|
                        #![trigger branches@[j]]
                        0 <= j < i ==> {
                            &&& branches@[j].hop == picked@[j]
                            &&& branches@[j].passes == passes(
                                data.edge_props(hops@[picked@[j] as int].1),
                                resolved_views(predicates@),
                            )
                            &&& is_walk_from(
                                data,
                                steps,
                                depth + 1,
                                hops@[picked@[j] as int].0,
                                branches@[j].rest,
                            )
                        },
                decreases picked.len() - i,
            {
                let hop: usize = picked[i];
                let (next, edge) = hops[hop];
                let passes: bool = properties_pass_predicates(
                    flat_graph.edge_props(edge),
                    predicates,
                );
                let rest: Walk = walk_segment_branched(flat_graph, segment, depth + 1, next, rng);
                branches.push(Branch { hop, passes, rest });
                i = i + 1;
            }
            proof {
                assert forall|a: int, b: int|
                    #![trigger branches@[a], branches@[b]]
                    0 <= a < b < branches@.len() implies branches@[a].hop != branches@[b].hop by {
                    assert(picked@[a] != picked@[b]);
                }
            }
            Walk::Edges { degree, branches }
        },
    }
}

/// Whether every one of some conditions is met by the property that it is on.
pub open spec fn every_condition_is_met(
    props: Option<Seq<ScalarValue>>,
    conditions: Seq<ResolvedView>,
) -> bool {
    forall|i: int|
        #![trigger conditions[i]]
        0 <= i < conditions.len() ==> {
            let c = conditions[i];
            &&& props is Some
            &&& 0 <= c.prop_index < props->0.len()
            &&& meets(props->0[c.prop_index], c.op, c.value, c.values)
        }
}

/// A walk over a vertex is recorded as passing exactly where the vertex meets every condition of
/// the step, and goes on from that vertex.
pub proof fn walks_record_vertices(
    data: FlatView,
    steps: Seq<StepView>,
    depth: int,
    v: VertexId,
    walk: Walk,
)
    requires
        0 <= depth < steps.len(),
        is_walk_from(data, steps, depth, v, walk),
        steps[depth] is Vertex,
    ensures
        walk matches Walk::Vertex { passes: ok, rest } && (ok <==> every_condition_is_met(
            data.vertex_props(steps[depth]->Vertex_label, v),
            steps[depth]->Vertex_predicates,
        )) && is_walk_from(data, steps, depth + 1, v, *rest),
{
    conditions_are_met_one_by_one(
        data.vertex_props(steps[depth]->Vertex_label, v),
        steps[depth]->Vertex_predicates,
    );
}

/// Whether a branch is one over a data edge: it passes exactly where the edge meets every
/// condition of the step, and goes on from the other end.
pub open spec fn is_branch_over(
    data: FlatView,
    steps: Seq<StepView>,
    depth: int,
    place: int,
    branch: Branch,
) -> bool {
    let e = data.edges[place];
    &&& branch.passes <==> every_condition_is_met(
        data.edge_props(e.id),
        steps[depth]->Edge_predicates,
    )
    &&& is_walk_from(
        data,
        steps,
        depth + 1,
        far_end_of(e, steps[depth]->Edge_outgoing),
        branch.rest,
    )
}

/// Whether the data edge at a place can be taken from a vertex by a step along an edge.
pub open spec fn can_be_taken(data: FlatView, step: StepView, v: VertexId, place: int) -> bool {
    &&& 0 <= place < data.edges.len()
    &&& is_at(
        data.edges[place],
        step->Edge_label,
        step->Edge_edge_label,
        step->Edge_outgoing,
        v,
    )
}

/// A walk along edges follows branches over different data edges that can be taken, one for every
/// thirty-two of them or part of it, and is dead exactly where there are none. A branch is
/// recorded as passing exactly where its edge meets every condition of the step.
pub proof fn walks_record_edges(
    data: FlatView,
    steps: Seq<StepView>,
    depth: int,
    v: VertexId,
    walk: Walk,
) -> (at: Seq<int>)
    requires
        0 <= depth < steps.len(),
        is_walk_from(data, steps, depth, v, walk),
        steps[depth] is Edge,
    ensures
        lists_places(
            at,
            data.edges.len() as int,
            |p: int| can_be_taken(data, steps[depth], v, p),
        ),
        walk is Dead <==> at.len() == 0,
        at.len() > 0 ==> {
            &&& walk matches Walk::Edges { degree, branches }
            &&& degree == at.len()
            &&& 32 * (branches@.len() - 1) < at.len() <= 32 * branches@.len()
            &&& forall|i: int|
                #![trigger branches@[i]]
                0 <= i < branches@.len() ==> branches@[i].hop < at.len() && is_branch_over(
                    data,
                    steps,
                    depth,
                    at[branches@[i].hop as int],
                    branches@[i],
                )
            &&& forall|i: int, j: int|
                #![trigger branches@[i], branches@[j]]
                0 <= i < j < branches@.len() ==> at[branches@[i].hop as int]
                    != at[branches@[j].hop as int]
        },
{
    let label = steps[depth]->Edge_label;
    let edge_label = steps[depth]->Edge_edge_label;
    let outgoing = steps[depth]->Edge_outgoing;
    let predicates = steps[depth]->Edge_predicates;
    let at = neighbors_are_other_ends(data.edges, label, edge_label, outgoing, v);
    let hops = data.hops(label, edge_label, outgoing, v);
    assert(hops.len() == at.len());
    let asked = |p: int| can_be_taken(data, steps[depth], v, p);
    assert forall|p: int| 0 <= p < data.edges.len() && #[trigger] asked(p) implies at.contains(
        p,
    ) by {
        assert((|q: int| is_at(data.edges[q], label, edge_label, outgoing, v))(p));
    }
    if at.len() > 0 {
        let branches = walk->branches;
        assert forall|i: int|
            #![trigger branches@[i]]
            0 <= i < branches@.len() implies branches@[i].hop < at.len() && is_branch_over(
            data,
            steps,
            depth,
            at[branches@[i].hop as int],
            branches@[i],
        ) by {
            let hop = hops[branches@[i].hop as int];
            let e = data.edges[at[branches@[i].hop as int]];
            assert(hop == (far_end_of(e, outgoing), e.id));
            conditions_are_met_one_by_one(data.edge_props(e.id), predicates);
        }
        assert forall|i: int, j: int|
            #![trigger branches@[i], branches@[j]]
            0 <= i < j < branches@.len() implies at[branches@[i].hop as int]
            != at[branches@[j].hop as int] by {
            assert(branches@[i].hop != branches@[j].hop);
            let (a, b) = (branches@[i].hop as int, branches@[j].hop as int);
            if a < b {
                assert(at[a] < at[b]);
            } else {
                assert(at[b] < at[a]);
            }
        }
    }
    at
}

/// Where data edges lead from a vertex along the first `n` steps, one for each step along an edge;
/// nowhere where they cannot be taken one after the other.
pub open spec fn way_end(
    data: FlatView,
    steps: Seq<StepView>,
    start: VertexId,
    n: int,
    way: Seq<int>,
) -> Option<VertexId>
    decreases n,
{
    if n <= 0 {
        if way.len() == 0 {
            Some(start)
        } else {
            None
        }
    } else if steps[n - 1] is Vertex {
        way_end(data, steps, start, n - 1, way)
    } else if way.len() == 0 {
        None
    } else {
        match way_end(data, steps, start, n - 1, way.drop_last()) {
            Some(from) => if can_be_taken(data, steps[n - 1], from, way.last()) {
                Some(far_end_of(data.edges[way.last()], steps[n - 1]->Edge_outgoing))
            } else {
                None
            },
            None => None,
        }
    }
}

/// Whether ways are all those along the first `n` steps, each once, with the ends that they have.
pub open spec fn are_all_ways(
    data: FlatView,
    steps: Seq<StepView>,
    start: VertexId,
    n: int,
    ways: Seq<Seq<int>>,
    ends: Seq<VertexId>,
) -> bool {
    &&& ways.len() == ends.len()
    &&& ways.no_duplicates()
    &&& forall|i: int|
        #![trigger ways[i]]
        0 <= i < ways.len() ==> way_end(data, steps, start, n, ways[i]) == Some(ends[i])
    &&& forall|way: Seq<int>| #[trigger]
        way_end(data, steps, start, n, way) is Some ==> ways.contains(way)
}

spec fn longer_ways(way: Seq<int>, at: Seq<int>) -> Seq<Seq<int>> {
    at.map_values(|p: int| way.push(p))
}

proof fn lemma_ways_from(
    data: FlatView,
    steps: Seq<StepView>,
    start: VertexId,
    n: int,
    ways: Seq<Seq<int>>,
    ends: Seq<VertexId>,
    m: int,
) -> (further: Seq<Seq<int>>)
    requires
        n > 0,
        steps[n - 1] is Edge,
        0 <= m <= ways.len(),
        are_all_ways(data, steps, start, n - 1, ways, ends),
    ensures
        ({
            let next = neighbors_of(
                data,
                steps[n - 1]->Edge_label,
                steps[n - 1]->Edge_edge_label,
                steps[n - 1]->Edge_outgoing,
                ends.take(m),
            );
            &&& further.len() == next.len()
            &&& further.no_duplicates()
            &&& forall|i: int|
                #![trigger further[i]]
                0 <= i < further.len() ==> further[i].len() > 0 && way_end(
                    data,
                    steps,
                    start,
                    n,
                    further[i],
                ) == Some(next[i]) && ways.take(m).contains(further[i].drop_last())
            &&& forall|j: int, p: int|
                #![trigger ways[j].push(p)]
                0 <= j < m && can_be_taken(data, steps[n - 1], ends[j], p) ==> further.contains(
                    ways[j].push(p),
                )
        }),
    decreases m,
{
    let step = steps[n - 1];
    let (label, edge_label, outgoing) = (
        step->Edge_label,
        step->Edge_edge_label,
        step->Edge_outgoing,
    );
    let next = neighbors_of(data, label, edge_label, outgoing, ends.take(m));
    if m == 0 {
        Seq::empty()
    } else {
        let before = lemma_ways_from(data, steps, start, n, ways, ends, m - 1);
        assert(ends.take(m).drop_last() =~= ends.take(m - 1));
        let v = ends[m - 1];
        assert(ends.take(m).last() == v);
        let at = neighbors_are_other_ends(data.edges, label, edge_label, outgoing, v);
        let way = ways[m - 1];
        let here = longer_ways(way, at);
        let further = before + here;
        let first = neighbors_of(data, label, edge_label, outgoing, ends.take(m - 1));
        let hops = data.hops(label, edge_label, outgoing, v);
        assert(next =~= first + hops.map_values(|hop: (VertexId, EdgeId)| hop.0));
        assert forall|i: int|
            #![trigger further[i]]
            0 <= i < further.len() implies further[i].len() > 0 && way_end(
            data,
            steps,
            start,
            n,
            further[i],
        ) == Some(next[i]) && ways.take(m).contains(further[i].drop_last()) by {
            if i < before.len() {
                assert(further[i] == before[i] && next[i] == first[i]);
                let known = ways.take(m - 1);
                let k = choose|k: int| 0 <= k < known.len() && known[k] == before[i].drop_last();
                assert(ways.take(m)[k] == before[i].drop_last());
            } else {
                let k = i - before.len();
                assert(further[i] == way.push(at[k]));
                assert(further[i].drop_last() =~= way);
                assert(ways.take(m)[m - 1] == way);
                assert(way_end(data, steps, start, n - 1, way) == Some(v));
                assert(can_be_taken(data, step, v, at[k]));
                assert(next[i] == hops[k].0);
            }
        }
        assert forall|a: int, b: int| 0 <= a < further.len() && 0 <= b < further.len() && a
            != b implies further[a] != further[b] by {
            if a < before.len() && b < before.len() {
                assert(before[a] != before[b]);
            } else if a >= before.len() && b >= before.len() {
                let (x, y) = (a - before.len(), b - before.len());
                assert(further[a].last() == at[x] && further[b].last() == at[y]);
                if x < y {
                    assert(at[x] < at[y]);
                } else {
                    assert(at[y] < at[x]);
                }
            } else {
                let (x, y) = if a < before.len() {
                    (a, b)
                } else {
                    (b, a)
                };
                assert(further[y].drop_last() =~= way);
                assert(ways.take(m - 1).contains(before[x].drop_last()));
                let known = ways.take(m - 1);
                let k = choose|k: int| 0 <= k < known.len() && known[k] == before[x].drop_last();
                assert(ways[k] != ways[m - 1]);
            }
        }
        assert forall|j: int, p: int|
            #![trigger ways[j].push(p)]
            0 <= j < m && can_be_taken(data, step, ends[j], p) implies further.contains(
            ways[j].push(p),
        ) by {
            if j < m - 1 {
                assert(before.contains(ways[j].push(p)));
                let k = choose|k: int| 0 <= k < before.len() && before[k] == ways[j].push(p);
                assert(further[k] == ways[j].push(p));
            } else {
                assert((|q: int| is_at(data.edges[q], label, edge_label, outgoing, v))(p));
                assert(at.contains(p));
                let k = choose|k: int| 0 <= k < at.len() && at[k] == p;
                assert(further[before.len() + k] == way.push(p));
            }
        }
        further
    }
}

/// The frontier after some steps has one place for every way along them, and there stands the end
/// of that way.
pub proof fn frontiers_are_ends_of_ways(
    data: FlatView,
    steps: Seq<StepView>,
    start: VertexId,
    n: int,
) -> (ways: Seq<Seq<int>>)
    requires
        0 <= n <= steps.len(),
    ensures
        are_all_ways(data, steps, start, n, ways, frontier_after(data, steps, start, n)),
    decreases n,
{
    let ends = frontier_after(data, steps, start, n);
    if n == 0 {
        let ways = seq![Seq::<int>::empty()];
        assert forall|way: Seq<int>| #[trigger]
            way_end(data, steps, start, n, way) is Some implies ways.contains(way) by {
            assert(way =~= Seq::<int>::empty());
            assert(ways[0] == way);
        }
        ways
    } else {
        let before = frontiers_are_ends_of_ways(data, steps, start, n - 1);
        let starts = frontier_after(data, steps, start, n - 1);
        if steps[n - 1] is Vertex {
            assert forall|way: Seq<int>| #[trigger]
                way_end(data, steps, start, n, way) is Some implies before.contains(way) by {
                assert(way_end(data, steps, start, n - 1, way) is Some);
            }
            before
        } else {
            let m = before.len() as int;
            let ways = lemma_ways_from(data, steps, start, n, before, starts, m);
            assert(starts.take(m) =~= starts);
            assert forall|way: Seq<int>| #[trigger]
                way_end(data, steps, start, n, way) is Some implies ways.contains(way) by {
                let shorter = way.drop_last();
                assert(way_end(data, steps, start, n - 1, shorter) is Some);
                assert(before.contains(shorter));
                let j = choose|j: int| 0 <= j < before.len() && before[j] == shorter;
                assert(way_end(data, steps, start, n - 1, before[j]) == Some(starts[j]));
                assert(ways.contains(before[j].push(way.last())));
                assert(before[j].push(way.last()) =~= way);
            }
            ways
        }
    }
}

} // verus!
