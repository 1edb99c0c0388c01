//! What the evidence for the selectivity of a path holds: from which starts it is, and how many
//! ways along the path it counts.
use crate::estimate::{
    all_dead, are_start_walks, is_flat_walk, is_hint, is_run, is_start_result, is_start_sample,
    is_start_walk, kept, pilot_count, start_meets, used, FlatWalk, SegmentMeasure, StartSample,
    WalkBatchResult,
};
use crate::flat::{passes, FlatView};
use crate::lookups::{lemma_one_more_place, lists_places};
use crate::path_query::{PlanView, StepView};
use crate::query::VertexId;
use crate::walks::{frontier_after, frontiers_are_ends_of_ways, way_end};
use vstd::prelude::*;

verus! {

/// The ways along steps from a start.
pub open spec fn ways_along(data: FlatView, steps: Seq<StepView>, start: VertexId) -> Set<Seq<int>> {
    Set::new(|way: Seq<int>| way_end(data, steps, start, steps.len() as int, way) is Some)
}

proof fn lemma_ways(data: FlatView, steps: Seq<StepView>, start: VertexId)
    ensures
        ways_along(data, steps, start).finite(),
        ways_along(data, steps, start).len() == frontier_after(
            data,
            steps,
            start,
            steps.len() as int,
        ).len(),
{
    let n = steps.len() as int;
    let ways = frontiers_are_ends_of_ways(data, steps, start, n);
    ways.unique_seq_to_set();
    assert(ways.to_set() =~= ways_along(data, steps, start)) by {
        assert forall|way: Seq<int>| ways.to_set().contains(way) implies #[trigger] ways_along(
            data,
            steps,
            start,
        ).contains(way) by {
            let i = choose|i: int| 0 <= i < ways.len() && ways[i] == way;
            assert(way_end(data, steps, start, n, ways[i]) is Some);
        }
    }
}

/// Whether what is known of a side of a plan is right: nothing where it has no steps; and where a
/// number is known, it is that of the ways along the steps, which put no condition on the data.
pub open spec fn is_counted_right(
    data: FlatView,
    steps: Seq<StepView>,
    start: VertexId,
    side: Option<SegmentMeasure>,
) -> bool {
    &&& side is None <==> steps.len() == 0
    &&& side matches Some(SegmentMeasure::Counted(count)) ==> {
        &&& count > 0
        &&& count == ways_along(data, steps, start).len()
        &&& forall|i: int|
            #![trigger steps[i]]
            0 <= i < steps.len() ==> match steps[i] {
                StepView::Vertex { label, predicates } => predicates.len() == 0,
                StepView::Edge { label, edge_label, outgoing, predicates } => predicates.len() == 0,
            }
    }
}

/// A walk from a start that got through says whether the start meets its conditions, and counts
/// the ways along each side of the plan where it counts any.
pub proof fn walks_count_the_ways(
    data: FlatView,
    plan: PlanView,
    start: VertexId,
    start_passes: bool,
    left: Option<SegmentMeasure>,
    right: Option<SegmentMeasure>,
)
    requires
        is_start_walk(data, plan, start, (FlatWalk::Complete { start_passes, left, right })),
    ensures
        start_passes == passes(data.vertex_props(plan.start_label, start), plan.start_predicates),
        is_counted_right(data, plan.left, start, left),
        is_counted_right(data, plan.right, start, right),
{
    let walk = FlatWalk::Complete { start_passes, left, right };
    let (a, b) = choose|a: Option<u128>, b: Option<u128>|
        #![trigger is_hint(data, plan.left, start, a), is_hint(data, plan.right, start, b)]
        is_hint(data, plan.left, start, a) && is_hint(data, plan.right, start, b) && is_flat_walk(
            data,
            plan,
            start,
            start_meets(data, plan, start),
            a,
            b,
            walk,
        );
    lemma_ways(data, plan.left, start);
    lemma_ways(data, plan.right, start);
}

proof fn lemma_kept(results: Seq<Option<StartSample>>) -> (at: Seq<int>)
    ensures
        lists_places(at, results.len() as int, |i: int| results[i] is Some),
        kept(results) == at.map_values(|i: int| results[i]->0),
    decreases results.len(),
{
    let wanted = |i: int| results[i] is Some;
    let sample = |i: int| results[i]->0;
    if results.len() == 0 {
        let at = Seq::<int>::empty();
        assert(at.map_values(sample) =~= kept(results));
        at
    } else {
        let n = results.len() as int;
        let fewer = results.drop_last();
        let before = lemma_kept(fewer);
        assert(lists_places(before, n - 1, wanted)) by {
            assert forall|p: int| 0 <= p < n - 1 && #[trigger] wanted(p) implies before.contains(
                p,
            ) by {
                assert((|q: int| fewer[q] is Some)(p));
            }
        }
        lemma_one_more_place(before, n, wanted);
        let at = if wanted(n - 1) {
            before.push(n - 1)
        } else {
            before
        };
        assert(before.map_values(sample) =~= before.map_values(|i: int| fewer[i]->0));
        assert(at.map_values(sample) =~= kept(results));
        at
    }
}

/// Whether a sample is one of walks from a start: one, five or fifty of them, of which one of the
/// first five got through.
pub open spec fn is_walked(
    data: FlatView,
    plan: PlanView,
    start: VertexId,
    sample: StartSample,
) -> bool {
    &&& sample.start == start
    &&& sample.walks@.len() == 1 || sample.walks@.len() == 5 || sample.walks@.len() == 50
    &&& forall|i: int|
        #![trigger sample.walks@[i]]
        0 <= i < sample.walks@.len() ==> is_start_walk(data, plan, start, sample.walks@[i])
    &&& exists|i: int|
        0 <= i < sample.walks@.len() && i < 5 && #[trigger] sample.walks@[i] is Complete
}

/// Whether walks from a start were tried, and none got through.
pub open spec fn is_given_up(data: FlatView, plan: PlanView, start: VertexId) -> bool {
    exists|walks: Seq<FlatWalk>|
        (walks.len() == 1 || walks.len() == 5) && #[trigger] are_start_walks(
            data,
            plan,
            start,
            walks,
        ) && forall|i: int| #![trigger walks[i]] 0 <= i < walks.len() ==> walks[i] is Dead
}

/// The samples of a run are of starts in their order, four thousand at most; a start that was
/// visited without one was given up, unless there are that many. The run stops before the last
/// start only after a batch of starts, with at least three hundred samples.
pub proof fn samples_follow_the_starts<
    U: Fn(&Vec<FlatWalk>) -> bool,
    S: Fn(&Vec<StartSample>) -> bool,
>(
    data: FlatView,
    plan: PlanView,
    starts: Seq<VertexId>,
    uneven: U,
    settled: S,
    results: Seq<Option<StartSample>>,
    run: WalkBatchResult,
) -> (at: Seq<int>)
    requires
        is_run(data, plan, starts, uneven, settled, results, run),
    ensures
        run.visited <= starts.len(),
        run.visited < starts.len() ==> run.visited % 128 == 0 && run.samples@.len() >= 300,
        run.samples@.len() <= 4000,
        at.len() == run.samples@.len(),
        forall|i: int, j: int|
            #![trigger at[i], at[j]]
            0 <= i < j < at.len() ==> at[i] < at[j],
        forall|i: int|
            #![trigger at[i]]
            0 <= i < at.len() ==> 0 <= at[i] < run.visited && is_walked(
                data,
                plan,
                starts[at[i]],
                run.samples@[i],
            ),
        forall|p: int|
            #![trigger starts[p]]
            0 <= p < run.visited && !at.contains(p) && at.len() < 4000 ==> is_given_up(
                data,
                plan,
                starts[p],
            ),
{
    let all = lemma_kept(results);
    let n = if all.len() > 4000 {
        4000int
    } else {
        all.len() as int
    };
    let at = all.take(n);
    assert(used(results) =~= at.map_values(|i: int| results[i]->0));
    assert forall|i: int, j: int| #![trigger at[i], at[j]] 0 <= i < j < at.len() implies at[i]
        < at[j] by {
        assert(all[i] < all[j]);
    }
    assert forall|i: int| #![trigger at[i]] 0 <= i < at.len() implies 0 <= at[i] < run.visited
        && is_walked(data, plan, starts[at[i]], run.samples@[i]) by {
        let p = all[i];
        assert((|q: int| results[q] is Some)(p));
        let sample = results[p]->0;
        assert(run.samples@[i] == sample);
        assert(is_start_result(data, plan, starts[p], uneven, results[p]));
        assert(is_start_sample(data, plan, starts[p], uneven, sample));
        let pilot = sample.walks@.take(pilot_count(plan) as int);
        assert(!all_dead(pilot));
        let k = choose|k: int| #![trigger pilot[k]] 0 <= k < pilot.len() && !(pilot[k] is Dead);
        assert(sample.walks@[k] is Complete);
        assert(is_walked(data, plan, starts[p], sample));
    }
    assert forall|p: int|
        #![trigger starts[p]]
        0 <= p < run.visited && !at.contains(p) && at.len() < 4000 implies is_given_up(
        data,
        plan,
        starts[p],
    ) by {
        assert(at =~= all);
        let wanted = |q: int| results[q] is Some;
        assert(!wanted(p));
        assert(is_start_result(data, plan, starts[p], uneven, results[p]));
    }
    at
}

} // verus!
