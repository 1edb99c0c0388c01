//! Evidence for how selective the conditions of a path or a vertex are.
use crate::chance::{cached, contents, remember, sample_seed, seeded};
use crate::flat::{
    is_pick, is_sample, passes, properties_pass_predicates, resolution, resolved_views, FlatError,
    FlatGraph, FlatView, ResolvedPredicate, ResolvedView,
};
use crate::path_query::{
    element_views, plan_from, plan_views, step_views, track_of, vertex_count, ElementView,
    FlatCompiledPathQuery, FlatCompiledStep, PathElement, PathQuery, PlanView, StepView,
};
use crate::query::{predicate_views, PredicateDef, PredicateView, VertexId};
use crate::spanning::copy_ids;
use crate::text::label_views;
use crate::walks::{
    compute_segment_reachable_count, frontier_after, is_predicate_free, is_walk_from, overflows,
    segment_is_predicate_free, walk_segment_branched, Walk,
};
use dashmap::DashMap;
use rand::rngs::StdRng;
use vstd::prelude::*;
use vstd::string::*;

verus! {

/// How many walks are made from every start.
pub const PILOT_WALKS: usize = 5;

/// How many walks are made from a start whose walks differ.
pub const MAX_WALKS: usize = 50;

/// How many starts are taken at once.
pub const BATCH_SIZE: usize = 128;

/// From so many starts on it is asked whether they are enough.
pub const STRUCT_COUNT_MIN: usize = 300;

/// So many starts are enough.
pub const STRUCT_COUNT_MAX: usize = 4000;

/// With so many hits no larger sample is looked at.
pub const MIN_HITS: usize = 3;

/// The largest sample, in terms of the first one.
pub const MAX_SAMPLE_MULTIPLIER: usize = 8;

impl Walk {
    /// Whether the walk, or one of its branches, got to the end.
    pub open spec fn arrives(self) -> bool
        decreases self,
    {
        match self {
            Walk::End => true,
            Walk::Dead => false,
            Walk::Vertex { passes, rest } => rest.arrives(),
            Walk::Edges { degree, branches } => exists|i: int|
                0 <= i < branches@.len() && (#[trigger] branches@[i]).rest.arrives(),
        }
    }

    /// Decides whether the walk, or one of its branches, got to the end.
    pub fn is_alive(&self) -> (result: bool)
        ensures
            result == self.arrives(),
        decreases self,
    {
        match self {
            Walk::End => true,
            Walk::Dead => false,
            Walk::Vertex { passes, rest } => rest.is_alive(),
            Walk::Edges { degree, branches } => {
                let mut i: usize = 0;
                while i < branches.len()
                    invariant
                        *self matches Walk::Edges { degree: d, branches: b } && b == *branches,
                        i <= branches@.len(),
                        forall|j: int|
                            #![trigger branches@[j]]
                            0 <= j < i ==> !branches@[j].rest.arrives(),
                    decreases branches.len() - i,
                {
                    assert(decreases_to!(*self => branches@[i as int].rest));
                    if branches[i].rest.is_alive() {
                        return true;
                    }
                    i = i + 1;
                }
                false
            },
        }
    }
}

/// What is known of the walks along one side of a plan.
#[derive(Debug)]
pub enum SegmentMeasure {
    /// How many there are.
    Counted(u128),
    /// One of them.
    Sampled(Walk),
}

impl SegmentMeasure {
    /// Whether there is a walk to the end.
    pub open spec fn arrives(self) -> bool {
        match self {
            SegmentMeasure::Counted(count) => count > 0,
            SegmentMeasure::Sampled(walk) => walk.arrives(),
        }
    }

    fn is_alive(&self) -> (result: bool)
        ensures
            result == self.arrives(),
    {
        match self {
            SegmentMeasure::Counted(count) => *count > 0,
            SegmentMeasure::Sampled(walk) => walk.is_alive(),
        }
    }
}

/// Whether something is known of the walks along steps: their number, where it was told or where
/// there are no conditions and not too many of them, and one of them else.
pub open spec fn is_measure(
    data: FlatView,
    steps: Seq<StepView>,
    start: VertexId,
    hint: Option<u128>,
    measure: SegmentMeasure,
) -> bool {
    match hint {
        Some(count) => measure == SegmentMeasure::Counted(count),
        None => if is_predicate_free(steps) && !overflows(data, steps, start) {
            measure matches SegmentMeasure::Counted(count) && count == frontier_after(
                data,
                steps,
                start,
                steps.len() as int,
            ).len()
        } else {
            measure matches SegmentMeasure::Sampled(walk) && is_walk_from(
                data,
                steps,
                0,
                start,
                walk,
            )
        },
    }
}

fn measure_segment(
    flat_graph: &FlatGraph,
    segment: &Vec<FlatCompiledStep>,
    start: VertexId,
    hint: Option<u128>,
    rng: &mut StdRng,
) -> (result: SegmentMeasure)
    ensures
        is_measure(flat_graph@, step_views(segment@), start, hint, result),
{
    match hint {
        Some(count) => SegmentMeasure::Counted(count),
        None => {
            if segment_is_predicate_free(segment) {
                if let Some(count) = compute_segment_reachable_count(flat_graph, start, segment) {
                    return SegmentMeasure::Counted(count);
                }
            }
            SegmentMeasure::Sampled(walk_segment_branched(flat_graph, segment, 0, start, rng))
        },
    }
}

/// What walks to both sides of a start met.
#[derive(Debug)]
pub enum FlatWalk {
    /// One side could not be walked to its end.
    Dead,
    /// Whether the start met its conditions, and what is known of each side with steps.
    Complete { start_passes: bool, left: Option<SegmentMeasure>, right: Option<SegmentMeasure> },
}

/// Whether something is known of a side of a plan, if it has steps, and it can be walked.
pub open spec fn is_side(
    data: FlatView,
    steps: Seq<StepView>,
    start: VertexId,
    hint: Option<u128>,
    side: Option<SegmentMeasure>,
) -> bool {
    match side {
        Some(measure) => steps.len() > 0 && is_measure(data, steps, start, hint, measure)
            && measure.arrives(),
        None => steps.len() == 0,
    }
}

/// Whether a side of a plan was tried, and could not be walked.
pub open spec fn is_dead_end(
    data: FlatView,
    steps: Seq<StepView>,
    start: VertexId,
    hint: Option<u128>,
) -> bool {
    steps.len() > 0 && exists|measure: SegmentMeasure|
        #[trigger] is_measure(data, steps, start, hint, measure) && !measure.arrives()
}

/// Whether a walk is one along a plan.
pub open spec fn is_flat_walk(
    data: FlatView,
    plan: PlanView,
    start: VertexId,
    start_passes: bool,
    left_hint: Option<u128>,
    right_hint: Option<u128>,
    walk: FlatWalk,
) -> bool {
    match walk {
        FlatWalk::Dead => is_dead_end(data, plan.left, start, left_hint) || is_dead_end(
            data,
            plan.right,
            start,
            right_hint,
        ),
        FlatWalk::Complete { start_passes: ok, left, right } => {
            &&& ok == start_passes
            &&& is_side(data, plan.left, start, left_hint, left)
            &&& is_side(data, plan.right, start, right_hint, right)
        },
    }
}

fn measure_side(
    flat_graph: &FlatGraph,
    segment: &Vec<FlatCompiledStep>,
    start: VertexId,
    hint: Option<u128>,
    rng: &mut StdRng,
) -> (result: Option<Option<SegmentMeasure>>)
    ensures
        match result {
            Some(side) => is_side(flat_graph@, step_views(segment@), start, hint, side),
            None => is_dead_end(flat_graph@, step_views(segment@), start, hint),
        },
{
    assert(step_views(segment@).len() == segment@.len());
    if segment.len() == 0 {
        return Some(None);
    }
    let measure: SegmentMeasure = measure_segment(flat_graph, segment, start, hint, rng);
    if measure.is_alive() {
        Some(Some(measure))
    } else {
        assert(is_measure(flat_graph@, step_views(segment@), start, hint, measure));
        None
    }
}

/// Walks to both sides of a start.
pub fn execute_flat_walk(
    flat_graph: &FlatGraph,
    compiled: &FlatCompiledPathQuery,
    start_vertex: VertexId,
    rng: &mut StdRng,
    start_passes: bool,
    left_count_hint: Option<u128>,
    right_count_hint: Option<u128>,
) -> (result: FlatWalk)
    ensures
        is_flat_walk(
            flat_graph@,
            compiled@,
            start_vertex,
            start_passes,
            left_count_hint,
            right_count_hint,
            result,
        ),
{
    match measure_side(flat_graph, &compiled.left_segment, start_vertex, left_count_hint, rng) {
        None => FlatWalk::Dead,
        Some(left) => {
            match measure_side(
                flat_graph,
                &compiled.right_segment,
                start_vertex,
                right_count_hint,
                rng,
            ) {
                None => FlatWalk::Dead,
                Some(right) => FlatWalk::Complete { start_passes, left, right },
            }
        },
    }
}

/// Whether a start meets the conditions of a plan.
pub open spec fn start_meets(data: FlatView, plan: PlanView, start: VertexId) -> bool {
    passes(data.vertex_props(plan.start_label, start), plan.start_predicates)
}

/// Decides whether a start meets the conditions of a plan. Without properties it meets them only
/// where there are none.
pub fn evaluate_start_vertex_predicates(
    flat_graph: &FlatGraph,
    compiled: &FlatCompiledPathQuery,
    start: VertexId,
) -> (result: bool)
    ensures
        result == start_meets(flat_graph@, compiled@, start),
{
    properties_pass_predicates(
        flat_graph.vertex_props(compiled.start_label.as_str(), start),
        &compiled.start_predicates,
    )
}

/// Whether all walks of a plan from one start are the same.
pub open spec fn is_deterministic(plan: PlanView) -> bool {
    plan.start_predicates.len() == 0 && is_predicate_free(plan.left) && is_predicate_free(
        plan.right,
    )
}

/// The number of walks along steps that is known beforehand.
pub open spec fn is_hint(
    data: FlatView,
    steps: Seq<StepView>,
    start: VertexId,
    hint: Option<u128>,
) -> bool {
    if steps.len() > 0 && is_predicate_free(steps) && !overflows(data, steps, start) {
        hint matches Some(count) && count == frontier_after(
            data,
            steps,
            start,
            steps.len() as int,
        ).len()
    } else {
        hint is None
    }
}

fn hint_for(flat_graph: &FlatGraph, segment: &Vec<FlatCompiledStep>, start: VertexId) -> (result:
    Option<u128>)
    ensures
        is_hint(flat_graph@, step_views(segment@), start, result),
{
    assert(step_views(segment@).len() == segment@.len());
    if segment.len() > 0 && segment_is_predicate_free(segment) {
        compute_segment_reachable_count(flat_graph, start, segment)
    } else {
        None
    }
}

/// Whether a walk from a start is one along a plan, where what can be known beforehand is.
pub open spec fn is_start_walk(
    data: FlatView,
    plan: PlanView,
    start: VertexId,
    walk: FlatWalk,
) -> bool {
    exists|left: Option<u128>, right: Option<u128>|
        #![trigger is_hint(data, plan.left, start, left), is_hint(data, plan.right, start, right)]
        is_hint(data, plan.left, start, left) && is_hint(data, plan.right, start, right)
            && is_flat_walk(
            data,
            plan,
            start,
            start_meets(data, plan, start),
            left,
            right,
            walk,
        )
}

/// Whether all walks are ones along a plan from a start.
pub open spec fn are_start_walks(
    data: FlatView,
    plan: PlanView,
    start: VertexId,
    walks: Seq<FlatWalk>,
) -> bool {
    forall|i: int|
        #![trigger walks[i]]
        0 <= i < walks.len() ==> is_start_walk(data, plan, start, walks[i])
}

/// Whether none of the walks got to the end.
pub open spec fn all_dead(walks: Seq<FlatWalk>) -> bool {
    forall|i: int| #![trigger walks[i]] 0 <= i < walks.len() ==> walks[i] is Dead
}

/// How many walks are made first.
pub open spec fn pilot_count(plan: PlanView) -> nat {
    if is_deterministic(plan) {
        1
    } else {
        PILOT_WALKS as nat
    }
}

/// The walks from one start.
#[derive(Debug)]
pub struct StartSample {
    pub start: VertexId,
    pub walks: Vec<FlatWalk>,
}

/// Whether the walks from a start are as many as there should be: more than at first where the
/// first ones differ, which another function decides.
pub open spec fn is_start_sample<U: Fn(&Vec<FlatWalk>) -> bool>(
    data: FlatView,
    plan: PlanView,
    start: VertexId,
    uneven: U,
    sample: StartSample,
) -> bool {
    &&& sample.start == start
    &&& are_start_walks(data, plan, start, sample.walks@)
    &&& sample.walks@.len() >= pilot_count(plan)
    &&& !all_dead(sample.walks@.take(pilot_count(plan) as int))
    &&& if is_deterministic(plan) {
        sample.walks@.len() == 1
    } else {
        exists|pilot: Vec<FlatWalk>, differ: bool|
            pilot@ == sample.walks@.take(PILOT_WALKS as int) && #[trigger] uneven.ensures(
                (&pilot,),
                differ,
            ) && sample.walks@.len() == (if differ {
                MAX_WALKS
            } else {
                PILOT_WALKS
            })
    }
}

/// Whether no first walk from a start gets to the end.
pub open spec fn is_start_skipped(data: FlatView, plan: PlanView, start: VertexId) -> bool {
    exists|walks: Seq<FlatWalk>|
        walks.len() == pilot_count(plan) && #[trigger] are_start_walks(data, plan, start, walks)
            && all_dead(walks)
}

/// Whether the walks from a start were made, or the start was skipped.
pub open spec fn is_start_result<U: Fn(&Vec<FlatWalk>) -> bool>(
    data: FlatView,
    plan: PlanView,
    start: VertexId,
    uneven: U,
    sample: Option<StartSample>,
) -> bool {
    match sample {
        Some(s) => is_start_sample(data, plan, start, uneven, s),
        None => is_start_skipped(data, plan, start),
    }
}

fn decide_deterministic(compiled: &FlatCompiledPathQuery) -> (result: bool)
    ensures
        result == is_deterministic(compiled@),
{
    assert(compiled@.start_predicates.len() == compiled.start_predicates@.len());
    compiled.start_predicates.len() == 0 && segment_is_predicate_free(&compiled.left_segment)
        && segment_is_predicate_free(&compiled.right_segment)
}

fn none_arrived(walks: &Vec<FlatWalk>) -> (result: bool)
    ensures
        result == all_dead(walks@),
{
    let mut i: usize = 0;
    while i < walks.len()
        invariant
            i <= walks@.len(),
            forall|j: int| #![trigger walks@[j]] 0 <= j < i ==> walks@[j] is Dead,
        decreases walks.len() - i,
    {
        match &walks[i] {
            FlatWalk::Dead => {},
            FlatWalk::Complete { .. } => {
                assert(!(walks@[i as int] is Dead));
                return false;
            },
        }
        i = i + 1;
    }
    true
}

/// Makes walks until there are so many.
fn walk_until(
    flat_graph: &FlatGraph,
    compiled: &FlatCompiledPathQuery,
    start: VertexId,
    start_passes: bool,
    left_hint: Option<u128>,
    right_hint: Option<u128>,
    amount: usize,
    walks: &mut Vec<FlatWalk>,
    rng: &mut StdRng,
)
    requires
        old(walks)@.len() <= amount,
        start_passes == start_meets(flat_graph@, compiled@, start),
        is_hint(flat_graph@, compiled@.left, start, left_hint),
        is_hint(flat_graph@, compiled@.right, start, right_hint),
        are_start_walks(flat_graph@, compiled@, start, old(walks)@),
    ensures
        final(walks)@.len() == amount,
        final(walks)@.take(old(walks)@.len() as int) == old(walks)@,
        are_start_walks(flat_graph@, compiled@, start, final(walks)@),
{
    let ghost begun = walks@;
    assert(walks@.take(begun.len() as int) =~= begun);
    while walks.len() < amount
        invariant
            begun.len() <= walks@.len() <= amount,
            walks@.take(begun.len() as int) == begun,
            start_passes == start_meets(flat_graph@, compiled@, start),
            is_hint(flat_graph@, compiled@.left, start, left_hint),
            is_hint(flat_graph@, compiled@.right, start, right_hint),
            are_start_walks(flat_graph@, compiled@, start, walks@),
        decreases amount - walks.len(),
    {
        let ghost before = walks@;
        let walk: FlatWalk = execute_flat_walk(
            flat_graph,
            compiled,
            start,
            rng,
            start_passes,
            left_hint,
            right_hint,
        );
        assert(is_start_walk(flat_graph@, compiled@, start, walk));
        walks.push(walk);
        assert(walks@.take(begun.len() as int) =~= before.take(begun.len() as int));
    }
}

/// The walks from a start; nothing where none of the first ones gets to the end.
pub fn sample_start<U: Fn(&Vec<FlatWalk>) -> bool>(
    flat_graph: &FlatGraph,
    compiled: &FlatCompiledPathQuery,
    start: VertexId,
    uneven: &U,
    rng: &mut StdRng,
) -> (result: Option<StartSample>)
    requires
        forall|walks: &Vec<FlatWalk>| #[trigger] uneven.requires((walks,)),
    ensures
        is_start_result(flat_graph@, compiled@, start, *uneven, result),
{
    let ghost data = flat_graph@;
    let ghost plan = compiled@;
    let deterministic: bool = decide_deterministic(compiled);
    let left_hint: Option<u128> = hint_for(flat_graph, &compiled.left_segment, start);
    let right_hint: Option<u128> = hint_for(flat_graph, &compiled.right_segment, start);
    let start_passes: bool = evaluate_start_vertex_predicates(flat_graph, compiled, start);
    let first: usize = if deterministic {
        1
    } else {
        PILOT_WALKS
    };
    let mut walks: Vec<FlatWalk> = Vec::new();
    walk_until(
        flat_graph,
        compiled,
        start,
        start_passes,
        left_hint,
        right_hint,
        first,
        &mut walks,
        rng,
    );
    if none_arrived(&walks) {
        assert(are_start_walks(data, plan, start, walks@));
        return None;
    }
    assert(walks@.take(first as int) =~= walks@);
    if !deterministic {
        let differ: bool = uneven(&walks);
        let ghost pilot = walks;
        if differ {
            walk_until(
                flat_graph,
                compiled,
                start,
                start_passes,
                left_hint,
                right_hint,
                MAX_WALKS,
                &mut walks,
                rng,
            );
        }
        assert(uneven.ensures((&pilot,), differ));
        assert(pilot@ == walks@.take(PILOT_WALKS as int));
    }
    Some(StartSample { start, walks })
}

/// The samples of the starts that were not skipped.
pub open spec fn kept(results: Seq<Option<StartSample>>) -> Seq<StartSample>
    decreases results.len(),
{
    if results.len() == 0 {
        Seq::empty()
    } else {
        match results.last() {
            Some(sample) => kept(results.drop_last()).push(sample),
            None => kept(results.drop_last()),
        }
    }
}

/// The first samples, as many as are used.
pub open spec fn used(results: Seq<Option<StartSample>>) -> Seq<StartSample> {
    if kept(results).len() > STRUCT_COUNT_MAX {
        kept(results).take(STRUCT_COUNT_MAX as int)
    } else {
        kept(results)
    }
}

/// Whether the walks go on after so many starts.
pub open spec fn goes_on<S: Fn(&Vec<StartSample>) -> bool>(
    results: Seq<Option<StartSample>>,
    settled: S,
) -> bool {
    &&& kept(results).len() < STRUCT_COUNT_MAX
    &&& kept(results).len() >= STRUCT_COUNT_MIN ==> exists|samples: Vec<StartSample>|
        samples@ == kept(results) && #[trigger] settled.ensures((&samples,), false)
}

/// Whether the walks may stop after so many starts.
pub open spec fn may_stop<S: Fn(&Vec<StartSample>) -> bool>(
    results: Seq<Option<StartSample>>,
    settled: S,
) -> bool {
    ||| kept(results).len() >= STRUCT_COUNT_MAX
    ||| kept(results).len() >= STRUCT_COUNT_MIN && exists|samples: Vec<StartSample>|
        samples@ == kept(results) && #[trigger] settled.ensures((&samples,), true)
}

/// The samples that were used, and how many starts were visited for them.
#[derive(Debug)]
pub struct WalkBatchResult {
    pub samples: Vec<StartSample>,
    pub visited: usize,
}

/// Whether the walks from starts are as they should be. The starts are visited in batches, until
/// there are no more of them, there are enough samples, or another function says so of no fewer
/// samples than it takes to ask.
pub open spec fn is_run<U: Fn(&Vec<FlatWalk>) -> bool, S: Fn(&Vec<StartSample>) -> bool>(
    data: FlatView,
    plan: PlanView,
    starts: Seq<VertexId>,
    uneven: U,
    settled: S,
    results: Seq<Option<StartSample>>,
    run: WalkBatchResult,
) -> bool {
    &&& run.visited == results.len() <= starts.len()
    &&& forall|i: int|
        #![trigger results[i]]
        0 <= i < results.len() ==> is_start_result(data, plan, starts[i], uneven, results[i])
    &&& run.samples@ == used(results)
    &&& run.visited == starts.len() || run.visited % BATCH_SIZE == 0 && may_stop(results, settled)
    &&& forall|n: int|
        0 < n < results.len() && n % (BATCH_SIZE as int) == 0 ==> goes_on(
            #[trigger] results.take(n),
            settled,
        )
}

/// Visits the starts of one batch.
fn run_batch<U: Fn(&Vec<FlatWalk>) -> bool>(
    flat_graph: &FlatGraph,
    compiled: &FlatCompiledPathQuery,
    starts: &Vec<VertexId>,
    begin: usize,
    end: usize,
    uneven: &U,
    samples: &mut Vec<StartSample>,
    Ghost(before): Ghost<Seq<Option<StartSample>>>,
    rng: &mut StdRng,
) -> (result: Ghost<Seq<Option<StartSample>>>)
    requires
        forall|walks: &Vec<FlatWalk>| #[trigger] uneven.requires((walks,)),
        begin <= end <= starts@.len(),
        before.len() == begin,
        forall|i: int|
            #![trigger before[i]]
            0 <= i < before.len() ==> is_start_result(
                flat_graph@,
                compiled@,
                starts@[i],
                *uneven,
                before[i],
            ),
        old(samples)@ == used(before),
    ensures
        result@.len() == end,
        result@.take(begin as int) == before,
        forall|i: int|
            #![trigger result@[i]]
            0 <= i < result@.len() ==> is_start_result(
                flat_graph@,
                compiled@,
                starts@[i],
                *uneven,
                result@[i],
            ),
        final(samples)@ == used(result@),
{
    let ghost mut results = before;
    let mut i: usize = begin;
    assert(results.take(begin as int) =~= before);
    while i < end
        invariant
            forall|walks: &Vec<FlatWalk>| #[trigger] uneven.requires((walks,)),
            begin <= i <= end <= starts@.len(),
            results.len() == i,
            results.take(begin as int) == before,
            forall|j: int|
                #![trigger results[j]]
                0 <= j < results.len() ==> is_start_result(
                    flat_graph@,
                    compiled@,
                    starts@[j],
                    *uneven,
                    results[j],
                ),
            samples@ == used(results),
        decreases end - i,
    {
        let found: Option<StartSample> = sample_start(flat_graph, compiled, starts[i], uneven, rng);
        let ghost longer = results.push(found);
        assert(longer.drop_last() =~= results);
        assert(longer.take(begin as int) =~= results.take(begin as int));
        match found {
            Some(sample) => {
                if samples.len() < STRUCT_COUNT_MAX {
                    samples.push(sample);
                    assert(samples@ =~= used(longer));
                } else {
                    assert(samples@ =~= used(longer));
                }
            },
            None => {},
        }
        proof {
            results = longer;
        }
        i = i + 1;
    }
    Ghost(results)
}

/// Walks from starts along a plan. One function says whether the first walks from a start differ
/// so much that more are made; another one whether the samples so far are enough.
pub fn run_walk_batch<U: Fn(&Vec<FlatWalk>) -> bool, S: Fn(&Vec<StartSample>) -> bool>(
    flat_graph: &FlatGraph,
    compiled: &FlatCompiledPathQuery,
    sampled_starts: &Vec<VertexId>,
    uneven: &U,
    settled: &S,
    rng: &mut StdRng,
) -> (result: WalkBatchResult)
    requires
        forall|walks: &Vec<FlatWalk>| #[trigger] uneven.requires((walks,)),
        forall|samples: &Vec<StartSample>| #[trigger] settled.requires((samples,)),
    ensures
        exists|results: Seq<Option<StartSample>>| #[trigger]
            is_run(
                flat_graph@,
                compiled@,
                sampled_starts@,
                *uneven,
                *settled,
                results,
                result,
            ),
{
    let ghost data = flat_graph@;
    let ghost plan = compiled@;
    let ghost starts = sampled_starts@;
    let ghost mut results: Seq<Option<StartSample>> = Seq::empty();
    let mut samples: Vec<StartSample> = Vec::new();
    let mut position: usize = 0;
    let mut stopped: bool = false;
    while !stopped && position < sampled_starts.len()
        invariant
            data == flat_graph@,
            plan == compiled@,
            starts == sampled_starts@,
            forall|walks: &Vec<FlatWalk>| #[trigger] uneven.requires((walks,)),
            forall|s: &Vec<StartSample>| #[trigger] settled.requires((s,)),
            position == results.len() <= starts.len(),
            forall|i: int|
                #![trigger results[i]]
                0 <= i < results.len() ==> is_start_result(
                    data,
                    plan,
                    starts[i],
                    *uneven,
                    results[i],
                ),
            samples@ == used(results),
            position == starts.len() || position % BATCH_SIZE == 0,
            stopped ==> position == starts.len() || may_stop(results, *settled),
            !stopped ==> position == starts.len() || position == 0 || goes_on(results, *settled),
            forall|n: int|
                0 < n < results.len() && n % (BATCH_SIZE as int) == 0 ==> goes_on(
                    #[trigger] results.take(n),
                    *settled,
                ),
        decreases sampled_starts.len() - position + (if stopped {
            0int
        } else {
            1int
        }),
    {
        let end: usize = if sampled_starts.len() - position > BATCH_SIZE {
            position + BATCH_SIZE
        } else {
            sampled_starts.len()
        };
        let ghost before = results;
        let found = run_batch(
            flat_graph,
            compiled,
            sampled_starts,
            position,
            end,
            uneven,
            &mut samples,
            Ghost(results),
            rng,
        );
        proof {
            results = found@;
            assert forall|n: int|
                0 < n < results.len() && n % (BATCH_SIZE as int) == 0 implies goes_on(
                #[trigger] results.take(n),
                *settled,
            ) by {
                if n < before.len() {
                    assert(results.take(n) =~= before.take(n));
                } else if n == before.len() {
                    assert(results.take(n) =~= before);
                }
            }
        }
        position = end;
        if samples.len() >= STRUCT_COUNT_MAX {
            stopped = true;
        } else {
            assert(samples@ == kept(results));
            if samples.len() >= STRUCT_COUNT_MIN {
                let enough: bool = settled(&samples);
                assert(settled.ensures((&samples,), enough));
                if enough {
                    stopped = true;
                }
            }
        }
    }
    let result = WalkBatchResult { samples, visited: position };
    assert(is_run(data, plan, starts, *uneven, *settled, results, result));
    result
}

/// The starts of walks: whether they were picked for an earlier path, and which they are.
#[derive(Debug)]
pub struct Starts {
    pub remembered: bool,
    pub ids: Vec<VertexId>,
}

/// The starts for the walks of a plan: those that were picked for its label before, or new ones.
pub fn pick_starts(
    flat_graph: &FlatGraph,
    compiled: &FlatCompiledPathQuery,
    sample_size: usize,
    cache: &mut DashMap<String, Vec<VertexId>>,
    rng: &mut StdRng,
) -> (result: Starts)
    ensures
        is_pick(
            flat_graph@.labelled(compiled@.start_label),
            sample_size as nat,
            contents(*old(cache)),
            contents(*final(cache)),
            compiled@.start_label,
            result.remembered,
            result.ids@,
        ),
{
    if let Some(ids) = cached(cache, &compiled.start_label) {
        return Starts { remembered: true, ids };
    }
    let ids: Vec<VertexId> = flat_graph.sample_vertices_by_label(
        compiled.start_label.as_str(),
        sample_size,
        rng,
    );
    remember(cache, compiled.start_label.as_str().to_owned(), copy_ids(&ids));
    Starts { remembered: false, ids }
}

/// What is known of how selective a path is.
#[derive(Debug)]
pub enum SelectivityEvidence {
    /// Nothing: everything may meet the conditions.
    Unknown,
    /// There is nothing to start from.
    Impossible,
    /// What walks from starts met.
    Walked(WalkBatchResult),
}

/// Whether the evidence is that of walks from starts. Without starts nothing is known, unless
/// nothing has the label that they should have.
pub open spec fn is_evidence_from<
    U: Fn(&Vec<FlatWalk>) -> bool,
    S: Fn(&Vec<StartSample>) -> bool,
>(
    data: FlatView,
    plan: PlanView,
    starts: Seq<VertexId>,
    uneven: U,
    settled: S,
    evidence: SelectivityEvidence,
) -> bool {
    if starts.len() > 0 {
        evidence matches SelectivityEvidence::Walked(run) && exists|
            results: Seq<Option<StartSample>>,
        | #[trigger]
            is_run(data, plan, starts, uneven, settled, results, run)
    } else if data.labelled(plan.start_label).len() == 0 {
        evidence is Impossible
    } else {
        evidence is Unknown
    }
}

/// The evidence of walks from starts.
pub fn gather_evidence<U: Fn(&Vec<FlatWalk>) -> bool, S: Fn(&Vec<StartSample>) -> bool>(
    flat_graph: &FlatGraph,
    compiled: &FlatCompiledPathQuery,
    starts: &Vec<VertexId>,
    uneven: &U,
    settled: &S,
    rng: &mut StdRng,
) -> (result: SelectivityEvidence)
    requires
        forall|walks: &Vec<FlatWalk>| #[trigger] uneven.requires((walks,)),
        forall|samples: &Vec<StartSample>| #[trigger] settled.requires((samples,)),
    ensures
        is_evidence_from(flat_graph@, compiled@, starts@, *uneven, *settled, result),
{
    if starts.len() == 0 {
        if flat_graph.vertex_count_by_label(compiled.start_label.as_str()) == 0 {
            SelectivityEvidence::Impossible
        } else {
            SelectivityEvidence::Unknown
        }
    } else {
        let run: WalkBatchResult = run_walk_batch(
            flat_graph,
            compiled,
            starts,
            uneven,
            settled,
            rng,
        );
        let ghost results = choose|results: Seq<Option<StartSample>>| #[trigger]
            is_run(flat_graph@, compiled@, starts@, *uneven, *settled, results, run);
        let evidence = SelectivityEvidence::Walked(run);
        assert(evidence->Walked_0 == run);
        assert(is_run(
            flat_graph@,
            compiled@,
            starts@,
            *uneven,
            *settled,
            results,
            evidence->Walked_0,
        ));
        evidence
    }
}

/// The labels of the vertices among the first `n` elements of a path.
pub open spec fn node_labels(elements: Seq<ElementView>, n: int) -> Seq<Seq<char>>
    decreases n,
{
    if n <= 0 {
        Seq::empty()
    } else {
        match elements[n - 1] {
            ElementView::Vertex { label, position } => node_labels(elements, n - 1).push(label),
            ElementView::Edge { label, position, direction } => node_labels(elements, n - 1),
        }
    }
}

/// The labels of the edges among the first `n` elements of a path.
pub open spec fn edge_labels(elements: Seq<ElementView>, n: int) -> Seq<Seq<char>>
    decreases n,
{
    if n <= 0 {
        Seq::empty()
    } else {
        match elements[n - 1] {
            ElementView::Vertex { label, position } => edge_labels(elements, n - 1),
            ElementView::Edge { label, position, direction } => edge_labels(elements, n - 1).push(
                label,
            ),
        }
    }
}

/// The labels of the vertices and of the edges along a path.
pub fn labels_along(path_query: &PathQuery) -> (result: (Vec<String>, Vec<String>))
    ensures
        ({
            let elements = element_views(path_query.path_elements@);
            let n = elements.len() as int;
            label_views(result.0@) == node_labels(elements, n) && label_views(result.1@)
                == edge_labels(elements, n)
        }),
{
    let ghost elements = element_views(path_query.path_elements@);
    let mut nodes: Vec<String> = Vec::new();
    let mut edges: Vec<String> = Vec::new();
    let mut i: usize = 0;
    assert(label_views(nodes@) =~= Seq::empty());
    assert(label_views(edges@) =~= Seq::empty());
    while i < path_query.path_elements.len()
        invariant
            elements == element_views(path_query.path_elements@),
            i <= path_query.path_elements@.len(),
            label_views(nodes@) == node_labels(elements, i as int),
            label_views(edges@) == edge_labels(elements, i as int),
        decreases path_query.path_elements.len() - i,
    {
        assert(elements[i as int] == path_query.path_elements@[i as int]@);
        let ghost nodes_before = nodes@;
        let ghost edges_before = edges@;
        match &path_query.path_elements[i] {
            PathElement::Vertex { label, .. } => {
                nodes.push(label.as_str().to_owned());
                assert(label_views(nodes@) =~= label_views(nodes_before).push(label@));
            },
            PathElement::Edge { label, .. } => {
                edges.push(label.as_str().to_owned());
                assert(label_views(edges@) =~= label_views(edges_before).push(label@));
            },
        }
        i = i + 1;
    }
    (nodes, edges)
}

/// Whether the evidence is that of walks along one of the plans for a path, the one that another
/// function picks. Where there is no plan, or none is worth a walk, nothing is known.
pub open spec fn is_path_evidence<
    C: Fn(&Vec<FlatCompiledPathQuery>) -> Option<usize>,
    U: Fn(&Vec<FlatWalk>) -> bool,
    S: Fn(&Vec<StartSample>) -> bool,
>(
    data: FlatView,
    plans: Seq<FlatCompiledPathQuery>,
    sample_size: nat,
    choice: C,
    uneven: U,
    settled: S,
    before: Map<Seq<char>, Seq<VertexId>>,
    after: Map<Seq<char>, Seq<VertexId>>,
    starts: Starts,
    evidence: SelectivityEvidence,
) -> bool {
    if plans.len() == 0 {
        evidence is Unknown && after == before
    } else {
        exists|all: Vec<FlatCompiledPathQuery>, chosen: Option<usize>|
            all@ == plans && #[trigger] choice.ensures((&all,), chosen) && match chosen {
                None => evidence is Unknown && after == before,
                Some(i) => {
                    &&& i < plans.len()
                    &&& is_pick(
                        data.labelled(plans[i as int]@.start_label),
                        sample_size,
                        before,
                        after,
                        plans[i as int]@.start_label,
                        starts.remembered,
                        starts.ids@,
                    )
                    &&& is_evidence_from(
                        data,
                        plans[i as int]@,
                        starts.ids@,
                        uneven,
                        settled,
                        evidence,
                    )
                },
            }
    }
}

/// Whether this may be found out of how selective a path is: the evidence of walks along one of
/// its plans, or that the data has not the properties that it asks for.
pub open spec fn may_yield<
    C: Fn(&Vec<FlatCompiledPathQuery>) -> Option<usize>,
    U: Fn(&Vec<FlatWalk>) -> bool,
    S: Fn(&Vec<StartSample>) -> bool,
>(
    data: FlatView,
    query: PathQuery,
    sample_size: nat,
    choice: C,
    uneven: U,
    settled: S,
    before: Map<Seq<char>, Seq<VertexId>>,
    after: Map<Seq<char>, Seq<VertexId>>,
    result: Result<SelectivityEvidence, FlatError>,
) -> bool {
    match track_of(data, query, query.path_elements@.len() as int) {
        Err(error) => (result matches Err(e) && e@ == error) && after == before,
        Ok(track) => result matches Ok(evidence) && exists|
            plans: Seq<FlatCompiledPathQuery>,
            starts: Starts,
        | #[trigger]
            is_path_evidence(
                data,
                plans,
                sample_size,
                choice,
                uneven,
                settled,
                before,
                after,
                starts,
                evidence,
            ) && plan_views(plans) == (if track.stops.len() == 0 {
                Seq::<PlanView>::empty()
            } else {
                Seq::new(track.tracks.len() + 1, |i: int| plan_from(track, i))
            }),
    }
}

/// The evidence for how selective a path is.
pub fn compute_selectivity_flat_for_path_query<
    C: Fn(&Vec<FlatCompiledPathQuery>) -> Option<usize>,
    U: Fn(&Vec<FlatWalk>) -> bool,
    S: Fn(&Vec<StartSample>) -> bool,
>(
    flat_graph: &FlatGraph,
    path_query: &PathQuery,
    sample_size: usize,
    cache: &mut DashMap<String, Vec<VertexId>>,
    choice: &C,
    uneven: &U,
    settled: &S,
    rng: &mut StdRng,
) -> (result: Result<SelectivityEvidence, FlatError>)
    requires
        ({
            let n = path_query.path_elements@.len() as int;
            let vertices = vertex_count(*path_query, n);
            vertices == 0 || vertices > n - vertices
        }),
        forall|plans: &Vec<FlatCompiledPathQuery>| #[trigger] choice.requires((plans,)),
        forall|plans: &Vec<FlatCompiledPathQuery>, i: usize| #[trigger]
            choice.ensures((plans,), Some(i)) ==> i < plans@.len(),
        forall|walks: &Vec<FlatWalk>| #[trigger] uneven.requires((walks,)),
        forall|samples: &Vec<StartSample>| #[trigger] settled.requires((samples,)),
    ensures
        may_yield(
            flat_graph@,
            *path_query,
            sample_size as nat,
            *choice,
            *uneven,
            *settled,
            contents(*old(cache)),
            contents(*final(cache)),
            result,
        ),
{
    let ghost before = contents(*cache);
    let plans: Vec<FlatCompiledPathQuery> = match FlatCompiledPathQuery::compile_all(
        path_query,
        flat_graph,
    ) {
        Ok(plans) => plans,
        Err(error) => {
            return Err(error);
        },
    };
    let none = Starts { remembered: true, ids: Vec::new() };
    if plans.len() == 0 {
        let evidence = SelectivityEvidence::Unknown;
        assert(is_path_evidence(
            flat_graph@,
            plans@,
            sample_size as nat,
            *choice,
            *uneven,
            *settled,
            before,
            contents(*cache),
            none,
            evidence,
        ));
        return Ok(evidence);
    }
    let chosen: Option<usize> = choice(&plans);
    assert(choice.ensures((&plans,), chosen));
    match chosen {
        None => {
            let evidence = SelectivityEvidence::Unknown;
            assert(is_path_evidence(
                flat_graph@,
                plans@,
                sample_size as nat,
                *choice,
                *uneven,
                *settled,
                before,
                contents(*cache),
                none,
                evidence,
            ));
            Ok(evidence)
        },
        Some(i) => {
            let starts: Starts = pick_starts(flat_graph, &plans[i], sample_size, cache, rng);
            let evidence: SelectivityEvidence = gather_evidence(
                flat_graph,
                &plans[i],
                &starts.ids,
                uneven,
                settled,
                rng,
            );
            assert(is_path_evidence(
                flat_graph@,
                plans@,
                sample_size as nat,
                *choice,
                *uneven,
                *settled,
                before,
                contents(*cache),
                starts,
                evidence,
            ));
            Ok(evidence)
        },
    }
}

/// How many of the first `n` vertices meet conditions.
pub open spec fn hits_among(
    data: FlatView,
    label: Seq<char>,
    predicates: Seq<ResolvedView>,
    ids: Seq<VertexId>,
    n: int,
) -> nat
    decreases n,
{
    if n <= 0 {
        0
    } else {
        hits_among(data, label, predicates, ids, n - 1) + (if passes(
            data.vertex_props(label, ids[n - 1]),
            predicates,
        ) {
            1nat
        } else {
            0
        })
    }
}

/// How many vertices of a sample are looked at: twice as many again and again, until there are
/// enough hits or no more vertices.
pub open spec fn looked_at(
    data: FlatView,
    label: Seq<char>,
    predicates: Seq<ResolvedView>,
    ids: Seq<VertexId>,
    target: int,
) -> int
    decreases ids.len() - target,
{
    if target <= 0 || target >= ids.len() || hits_among(data, label, predicates, ids, target)
        >= MIN_HITS {
        target
    } else {
        looked_at(
            data,
            label,
            predicates,
            ids,
            if 2 * target < ids.len() {
                2 * target
            } else {
                ids.len() as int
            },
        )
    }
}

/// How many vertices have a label and meet conditions.
#[derive(Debug, Clone, Copy, PartialEq, Eq)]
pub enum VertexEstimate {
    /// So many.
    Exact(u64),
    /// So many of a sample.
    Sampled { hits: usize, evaluated: usize, total: usize },
}

/// The size of the first sample and the size of the largest one.
pub open spec fn sample_sizes(sample_size: nat, total: nat) -> (nat, nat) {
    let first = if sample_size == 0 {
        1
    } else {
        sample_size
    };
    let largest = MAX_SAMPLE_MULTIPLIER as nat * first;
    (
        if first < total {
            first
        } else {
            total
        },
        if largest < total {
            largest
        } else {
            total
        },
    )
}

/// Whether an estimate is what a sample of the vertices with a label shows.
pub open spec fn is_vertex_estimate(
    data: FlatView,
    label: Seq<char>,
    predicates: Seq<ResolvedView>,
    sample_size: nat,
    ids: Seq<VertexId>,
    estimate: VertexEstimate,
) -> bool {
    let total = data.labelled(label).len();
    let (first, largest) = sample_sizes(sample_size, total);
    let evaluated = looked_at(data, label, predicates, ids, first as int);
    let hits = hits_among(data, label, predicates, ids, evaluated);
    &&& is_sample(data.labelled(label), largest, ids)
    &&& estimate == (if evaluated == total {
        VertexEstimate::Exact(hits as u64)
    } else {
        VertexEstimate::Sampled {
            hits: hits as usize,
            evaluated: evaluated as usize,
            total: total as usize,
        }
    })
}

/// Whether a vertex meets conditions.
pub fn vertex_passes_predicates_uncached(
    flat_graph: &FlatGraph,
    label: &str,
    vid: VertexId,
    predicates: &Vec<ResolvedPredicate>,
) -> (result: bool)
    ensures
        result == passes(flat_graph@.vertex_props(label@, vid), resolved_views(predicates@)),
{
    properties_pass_predicates(flat_graph.vertex_props(label, vid), predicates)
}

fn grown_target(target: usize, limit: usize) -> (result: usize)
    requires
        target <= limit,
    ensures
        result == (if 2 * target < limit {
            2 * target
        } else {
            limit as int
        }),
{
    if target < limit - target {
        target + target
    } else {
        limit
    }
}

fn largest_sample(sample_size: usize, total: usize) -> (result: usize)
    ensures
        result == sample_sizes(sample_size as nat, total as nat).1,
{
    let first: usize = if sample_size == 0 {
        1
    } else {
        sample_size
    };
    if first <= total / MAX_SAMPLE_MULTIPLIER {
        let largest: usize = first * MAX_SAMPLE_MULTIPLIER;
        if largest < total {
            largest
        } else {
            total
        }
    } else {
        total
    }
}

/// Whether this may be found out of how many vertices have a label and meet predicates: all of
/// them where there are no predicates, else what a sample says.
pub open spec fn may_estimate_vertex(
    data: FlatView,
    label: Seq<char>,
    predicates: Seq<PredicateView>,
    sample_size: nat,
    result: Result<VertexEstimate, FlatError>,
) -> bool {
    let total = data.labelled(label).len();
    if total == 0 || predicates.len() == 0 {
        result == Ok::<_, FlatError>(VertexEstimate::Exact(total as u64))
    } else {
        match resolution(data.vertex_schemas, label, predicates) {
            Err(name) => result matches Err(FlatError::NoVertexProperty { label: l, property })
                && l@ == label && property@ == name,
            Ok(resolved) => result matches Ok(estimate) && exists|ids: Seq<VertexId>| #[trigger]
                is_vertex_estimate(data, label, resolved, sample_size, ids, estimate),
        }
    }
}

/// How many vertices have a label and meet predicates. The sample is the same for the same
/// description.
pub fn estimate_single_vertex_cardinality(
    flat_graph: &FlatGraph,
    label: &str,
    predicates: &Vec<PredicateDef>,
    sample_size: usize,
    description: &str,
) -> (result: Result<VertexEstimate, FlatError>)
    ensures
        may_estimate_vertex(
            flat_graph@,
            label@,
            predicate_views(predicates@),
            sample_size as nat,
            result,
        ),
{
    let ghost data = flat_graph@;
    let total: usize = flat_graph.vertex_count_by_label(label);
    assert(predicate_views(predicates@).len() == predicates@.len());
    if total == 0 || predicates.len() == 0 {
        return Ok(VertexEstimate::Exact(total as u64));
    }
    let resolved: Vec<ResolvedPredicate> = match flat_graph.resolve_vertex_predicates(
        label,
        predicates,
    ) {
        Ok(resolved) => resolved,
        Err(error) => {
            return Err(error);
        },
    };
    let ghost conditions = resolved_views(resolved@);
    let limit: usize = largest_sample(sample_size, total);
    let first: usize = if sample_size == 0 {
        1
    } else if sample_size < total {
        sample_size
    } else {
        total
    };
    let mut rng: StdRng = seeded(sample_seed(description));
    let sampled: Vec<VertexId> = flat_graph.sample_vertices_by_label(label, limit, &mut rng);
    assert(sampled@.len() == limit);
    let mut evaluated: usize = 0;
    let mut hits: usize = 0;
    let mut target: usize = first;
    let mut done: bool = false;
    let ghost end = looked_at(data, label@, conditions, sampled@, first as int);
    while !done
        invariant
            data == flat_graph@,
            conditions == resolved_views(resolved@),
            sampled@.len() == limit,
            0 < target <= limit,
            evaluated <= target,
            hits <= evaluated,
            hits == hits_among(data, label@, conditions, sampled@, evaluated as int),
            end == looked_at(data, label@, conditions, sampled@, target as int),
            !done ==> evaluated < target,
            done ==> evaluated == end,
        decreases limit - evaluated + (if done {
            0int
        } else {
            1int
        }),
    {
        while evaluated < target
            invariant
                data == flat_graph@,
                conditions == resolved_views(resolved@),
                sampled@.len() == limit,
                target <= limit,
                evaluated <= target,
                hits <= evaluated,
                hits == hits_among(data, label@, conditions, sampled@, evaluated as int),
            decreases target - evaluated,
        {
            if vertex_passes_predicates_uncached(flat_graph, label, sampled[evaluated], &resolved) {
                hits = hits + 1;
            }
            evaluated = evaluated + 1;
        }
        if hits >= MIN_HITS || evaluated == limit {
            done = true;
        } else {
            target = grown_target(evaluated, limit);
        }
    }
    let estimate: VertexEstimate = if evaluated == total {
        VertexEstimate::Exact(hits as u64)
    } else {
        VertexEstimate::Sampled { hits, evaluated, total }
    };
    assert(is_vertex_estimate(
        data,
        label@,
        conditions,
        sample_size as nat,
        sampled@,
        estimate,
    ));
    Ok(estimate)
}

} // verus!
