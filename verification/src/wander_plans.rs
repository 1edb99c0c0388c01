//! Orders in which the vertices and edges of a query can be visited, each one joined to one that
//! was visited before.
use vstd::prelude::*;

verus! {

/// A pair of columns that hold the same query vertex: one of a node that is visited, and one of a
/// node that may be visited next.
#[derive(Debug, Clone, Copy, PartialEq, Eq, Structural)]
pub struct WanderJoinJoin {
    pub from_node: usize,
    pub from_col: usize,
    pub to_node: usize,
    pub to_col: usize,
}

/// A visit: the node, and the column of an earlier node that it is joined to.
#[derive(Debug, Clone, Copy, PartialEq, Eq, Structural)]
pub struct WanderJoinPlanStep {
    pub node_idx: usize,
    pub counterpart_node_idx: usize,
    pub counterpart_col: usize,
    pub node_col: usize,
}

/// An order to visit all nodes in.
#[derive(Debug, Clone)]
pub struct WanderJoinPlan {
    pub start_node_idx: usize,
    pub steps: Vec<WanderJoinPlanStep>,
}

/// What an order says.
#[verifier::ext_equal]
pub struct WanderView {
    pub start: usize,
    pub steps: Seq<WanderJoinPlanStep>,
}

impl View for WanderJoinPlan {
    type V = WanderView;

    open spec fn view(&self) -> WanderView {
        WanderView { start: self.start_node_idx, steps: self.steps@ }
    }
}

/// What orders say.
pub open spec fn wander_views(plans: Seq<WanderJoinPlan>) -> Seq<WanderView> {
    plans.map_values(|p: WanderJoinPlan| p@)
}

/// The visit that a join leads to.
pub open spec fn step_of(join: WanderJoinJoin) -> WanderJoinPlanStep {
    WanderJoinPlanStep {
        node_idx: join.to_node,
        counterpart_node_idx: join.from_node,
        counterpart_col: join.from_col,
        node_col: join.to_col,
    }
}

/// Whether joins are between nodes.
pub open spec fn joins_wf(joins: Seq<WanderJoinJoin>, node_count: nat) -> bool {
    forall|i: int|
        #![trigger joins[i]]
        0 <= i < joins.len() ==> joins[i].from_node < node_count && joins[i].to_node < node_count
}

/// All ways to go on when some nodes are visited.
pub open spec fn all_plans(
    joins: Seq<WanderJoinJoin>,
    visited: Seq<bool>,
    start: usize,
    steps: Seq<WanderJoinPlanStep>,
) -> Seq<WanderView>
    decreases visited.len() - steps.len(), joins.len() + 1,
{
    if steps.len() + 1 == visited.len() {
        seq![WanderView { start, steps }]
    } else {
        plans_by(joins, visited, start, steps, joins.len())
    }
}

/// All ways to go on along the first `n` joins.
pub open spec fn plans_by(
    joins: Seq<WanderJoinJoin>,
    visited: Seq<bool>,
    start: usize,
    steps: Seq<WanderJoinPlanStep>,
    n: nat,
) -> Seq<WanderView>
    decreases visited.len() - steps.len(), n,
{
    if n == 0 || steps.len() + 1 >= visited.len() {
        Seq::empty()
    } else {
        let join = joins[n - 1];
        plans_by(joins, visited, start, steps, (n - 1) as nat) + (if join.to_node < visited.len()
            && visited[join.from_node as int] && !visited[join.to_node as int] {
            all_plans(
                joins,
                visited.update(join.to_node as int, true),
                start,
                steps.push(step_of(join)),
            )
        } else {
            Seq::empty()
        })
    }
}

/// One node is visited.
pub open spec fn only(start: int, node_count: nat) -> Seq<bool> {
    Seq::new(node_count, |i: int| i == start)
}

/// All ways to visit the nodes, beginning with one of the first `n`.
pub open spec fn plans_from_first(joins: Seq<WanderJoinJoin>, node_count: nat, n: nat) -> Seq<
    WanderView,
>
    decreases n,
{
    if n == 0 {
        Seq::empty()
    } else {
        plans_from_first(joins, node_count, (n - 1) as nat) + all_plans(
            joins,
            only(n - 1, node_count),
            (n - 1) as usize,
            Seq::empty(),
        )
    }
}

/// The first of some, no more than a limit.
pub open spec fn limited(plans: Seq<WanderView>, max_plans: nat) -> Seq<WanderView> {
    if plans.len() <= max_plans {
        plans
    } else {
        plans.take(max_plans as int)
    }
}

proof fn lemma_limited(first: Seq<WanderView>, rest: Seq<WanderView>, max_plans: nat)
    ensures
        limited(limited(first, max_plans) + rest, max_plans) == limited(first + rest, max_plans),
        limited(first, max_plans).len() >= max_plans ==> limited(first + rest, max_plans)
            == limited(first, max_plans),
{
    assert(limited(limited(first, max_plans) + rest, max_plans) =~= limited(
        first + rest,
        max_plans,
    ));
    if limited(first, max_plans).len() >= max_plans {
        assert(limited(first + rest, max_plans) =~= limited(first, max_plans));
    }
}

fn copy_steps(steps: &Vec<WanderJoinPlanStep>) -> (result: Vec<WanderJoinPlanStep>)
    ensures
        result@ == steps@,
{
    let mut result: Vec<WanderJoinPlanStep> = Vec::new();
    let mut i: usize = 0;
    while i < steps.len()
        invariant
            i <= steps@.len(),
            result@ == steps@.take(i as int),
        decreases steps.len() - i,
    {
        result.push(steps[i]);
        assert(result@ =~= steps@.take(i + 1));
        i = i + 1;
    }
    assert(steps@.take(i as int) =~= steps@);
    result
}

/// Whether an order goes on from some visits and visits as many nodes as there are.
pub open spec fn goes_on(
    plan: WanderView,
    start: usize,
    steps: Seq<WanderJoinPlanStep>,
    node_count: nat,
) -> bool {
    plan.start == start && steps.is_prefix_of(plan.steps) && plan.steps.len() + 1 == node_count
}

/// Adds all ways to go on to some orders, until there are as many as the limit says. Nothing is
/// added where there are as many already, or more visits than there are nodes to visit.
pub fn enumerate_wander_join_plans(
    joins: &Vec<WanderJoinJoin>,
    visited: &mut Vec<bool>,
    start_node_idx: usize,
    steps: &mut Vec<WanderJoinPlanStep>,
    plans: &mut Vec<WanderJoinPlan>,
    max_plans: usize,
)
    requires
        joins_wf(joins@, old(visited)@.len()),
    ensures
        final(visited)@ == old(visited)@,
        final(steps)@ == old(steps)@,
        old(plans)@.is_prefix_of(final(plans)@),
        old(plans)@.len() >= max_plans || old(steps)@.len() >= old(visited)@.len() ==> final(plans)@
            == old(plans)@,
        old(plans)@.len() < max_plans ==> wander_views(final(plans)@) == limited(
            wander_views(old(plans)@) + all_plans(
                joins@,
                old(visited)@,
                start_node_idx,
                old(steps)@,
            ),
            max_plans as nat,
        ),
        forall|k: int|
            #![trigger final(plans)@[k]]
            old(plans)@.len() <= k < final(plans)@.len() ==> goes_on(
                final(plans)@[k]@,
                start_node_idx,
                old(steps)@,
                old(visited)@.len(),
            ),
    decreases old(visited)@.len() - old(steps)@.len(),
{
    let ghost before = wander_views(plans@);
    let ghost all = all_plans(joins@, visited@, start_node_idx, steps@);
    let ghost seen = visited@;
    let ghost trail = steps@;
    let ghost max = max_plans as nat;
    assert(before.len() == plans@.len());
    if plans.len() >= max_plans {
        return;
    }
    if steps.len() >= visited.len() {
        assert(all =~= Seq::empty());
        assert(limited(before + all, max) =~= before);
        return;
    }
    if steps.len() == visited.len() - 1 {
        let plan = WanderJoinPlan { start_node_idx, steps: copy_steps(steps) };
        plans.push(plan);
        assert(wander_views(plans@) =~= before.push(plan@));
        assert(all =~= seq![plan@]);
        assert(before + all =~= before.push(plan@));
        return;
    }
    let mut i: usize = 0;
    assert(before + plans_by(joins@, seen, start_node_idx, trail, 0) =~= before);
    while i < joins.len()
        invariant
            joins_wf(joins@, seen.len()),
            max == max_plans,
            visited@ == seen,
            steps@ == trail,
            trail.len() + 1 < seen.len(),
            seen == old(visited)@,
            trail == old(steps)@,
            before == wander_views(old(plans)@),
            all == plans_by(joins@, seen, start_node_idx, trail, joins@.len()),
            all == all_plans(joins@, seen, start_node_idx, trail),
            i <= joins@.len(),
            old(plans)@.is_prefix_of(plans@),
            forall|k: int|
                #![trigger plans@[k]]
                old(plans)@.len() <= k < plans@.len() ==> goes_on(
                    plans@[k]@,
                    start_node_idx,
                    trail,
                    seen.len(),
                ),
            plans@.len() < max_plans,
            wander_views(plans@) == limited(
                before + plans_by(joins@, seen, start_node_idx, trail, i as nat),
                max,
            ),
        decreases joins.len() - i,
    {
        let join: WanderJoinJoin = joins[i];
        let ghost sofar = plans_by(joins@, seen, start_node_idx, trail, i as nat);
        let ghost more = plans_by(joins@, seen, start_node_idx, trail, (i + 1) as nat);
        if visited[join.from_node] && !visited[join.to_node] {
            visited.set(join.to_node, true);
            steps.push(
                WanderJoinPlanStep {
                    node_idx: join.to_node,
                    counterpart_node_idx: join.from_node,
                    counterpart_col: join.from_col,
                    node_col: join.to_col,
                },
            );
            let ghost inner = all_plans(
                joins@,
                seen.update(join.to_node as int, true),
                start_node_idx,
                trail.push(step_of(join)),
            );
            let ghost found = plans@;
            assert(wander_views(plans@).len() == plans@.len());
            enumerate_wander_join_plans(joins, visited, start_node_idx, steps, plans, max_plans);
            steps.pop();
            visited.set(join.to_node, false);
            assert(steps@ =~= trail);
            assert(visited@ =~= seen);
            proof {
                assert(more == sofar + inner);
                lemma_limited(before + sofar, inner, max);
                assert((before + sofar) + inner =~= before + more);
                assert forall|k: int|
                    #![trigger plans@[k]]
                    old(plans)@.len() <= k < plans@.len() implies goes_on(
                    plans@[k]@,
                    start_node_idx,
                    trail,
                    seen.len(),
                ) by {
                    if k < found.len() {
                        assert(plans@[k] == found[k]);
                    } else {
                        let longer = trail.push(step_of(join));
                        assert(trail =~= longer.take(trail.len() as int));
                        assert(longer.is_prefix_of(plans@[k]@.steps));
                    }
                }
            }
            assert(wander_views(plans@).len() == plans@.len());
            if plans.len() >= max_plans {
                proof {
                    lemma_plans_prefix(
                        joins@,
                        seen,
                        start_node_idx,
                        trail,
                        (i + 1) as nat,
                        joins@.len(),
                    );
                    let rest = all.skip(more.len() as int);
                    assert(all =~= more + rest);
                    lemma_limited(before + more, rest, max);
                    assert((before + more) + rest =~= before + all);
                }
                return;
            }
        } else {
            assert(more =~= sofar);
        }
        i = i + 1;
    }
}

proof fn lemma_plans_prefix(
    joins: Seq<WanderJoinJoin>,
    visited: Seq<bool>,
    start: usize,
    steps: Seq<WanderJoinPlanStep>,
    n: nat,
    m: nat,
)
    requires
        n <= m,
        steps.len() + 1 < visited.len(),
    ensures
        ({
            let first = plans_by(joins, visited, start, steps, n);
            let all = plans_by(joins, visited, start, steps, m);
            first.len() <= all.len() && all.take(first.len() as int) == first
        }),
    decreases m,
{
    let first = plans_by(joins, visited, start, steps, n);
    let all = plans_by(joins, visited, start, steps, m);
    if n < m {
        lemma_plans_prefix(joins, visited, start, steps, n, (m - 1) as nat);
        let before = plans_by(joins, visited, start, steps, (m - 1) as nat);
        assert(all.take(first.len() as int) =~= before.take(first.len() as int));
    } else {
        assert(all.take(first.len() as int) =~= first);
    }
}

proof fn lemma_first_plans_prefix(joins: Seq<WanderJoinJoin>, node_count: nat, n: nat, m: nat)
    requires
        n <= m,
    ensures
        ({
            let first = plans_from_first(joins, node_count, n);
            let all = plans_from_first(joins, node_count, m);
            first.len() <= all.len() && all.take(first.len() as int) == first
        }),
    decreases m,
{
    let first = plans_from_first(joins, node_count, n);
    let all = plans_from_first(joins, node_count, m);
    if n < m {
        lemma_first_plans_prefix(joins, node_count, n, (m - 1) as nat);
        let before = plans_from_first(joins, node_count, (m - 1) as nat);
        assert(all.take(first.len() as int) =~= before.take(first.len() as int));
    } else {
        assert(all.take(first.len() as int) =~= first);
    }
}

/// The ways to visit all nodes, no more than a limit.
pub fn build_wander_join_plans(
    node_count: usize,
    joins: &Vec<WanderJoinJoin>,
    max_plans: usize,
) -> (result: Vec<WanderJoinPlan>)
    requires
        joins_wf(joins@, node_count as nat),
    ensures
        wander_views(result@) == limited(
            plans_from_first(joins@, node_count as nat, node_count as nat),
            max_plans as nat,
        ),
{
    let ghost all = plans_from_first(joins@, node_count as nat, node_count as nat);
    let ghost max = max_plans as nat;
    let mut plans: Vec<WanderJoinPlan> = Vec::new();
    let mut start: usize = 0;
    assert(wander_views(plans@) =~= Seq::empty());
    while start < node_count
        invariant
            joins_wf(joins@, node_count as nat),
            max == max_plans,
            all == plans_from_first(joins@, node_count as nat, node_count as nat),
            start <= node_count,
            plans@.len() <= max_plans,
            wander_views(plans@) == limited(
                plans_from_first(joins@, node_count as nat, start as nat),
                max,
            ),
        decreases node_count - start,
    {
        let ghost sofar = plans_from_first(joins@, node_count as nat, start as nat);
        let ghost more = plans_from_first(joins@, node_count as nat, (start + 1) as nat);
        assert(wander_views(plans@).len() == plans@.len());
        if plans.len() >= max_plans {
            proof {
                lemma_first_plans_prefix(
                    joins@,
                    node_count as nat,
                    start as nat,
                    node_count as nat,
                );
                let rest = all.skip(sofar.len() as int);
                assert(all =~= sofar + rest);
                lemma_limited(sofar, rest, max);
            }
            return plans;
        }
        let mut visited: Vec<bool> = Vec::new();
        let mut i: usize = 0;
        while i < node_count
            invariant
                i <= node_count,
                start < node_count,
                visited@ == only(start as int, node_count as nat).take(i as int),
            decreases node_count - i,
        {
            visited.push(i == start);
            assert(visited@ =~= only(start as int, node_count as nat).take(i + 1));
            i = i + 1;
        }
        assert(visited@ =~= only(start as int, node_count as nat));
        let mut steps: Vec<WanderJoinPlanStep> = Vec::new();
        assert(steps@ =~= Seq::empty());
        let ghost inner = all_plans(
            joins@,
            only(start as int, node_count as nat),
            start,
            Seq::empty(),
        );
        enumerate_wander_join_plans(joins, &mut visited, start, &mut steps, &mut plans, max_plans);
        proof {
            assert(more == sofar + inner);
            lemma_limited(sofar, inner, max);
            assert(wander_views(plans@).len() == plans@.len());
        }
        start = start + 1;
    }
    plans
}

/// Whether a node is visited first, or by one of the first `n` steps.
pub open spec fn is_visited(plan: WanderView, n: int, node: usize) -> bool {
    plan.start == node || exists|i: int|
        0 <= i < n && (#[trigger] plan.steps[i]).node_idx == node
}

/// Whether an order follows joins from a visited node to one that is not visited, `n` times.
pub open spec fn follows_joins(joins: Seq<WanderJoinJoin>, plan: WanderView, n: int) -> bool {
    forall|i: int|
        #![trigger plan.steps[i]]
        0 <= i < n ==> {
            let step = plan.steps[i];
            &&& exists|j: int| 0 <= j < joins.len() && step_of(#[trigger] joins[j]) == step
            &&& is_visited(plan, i, step.counterpart_node_idx)
            &&& !is_visited(plan, i, step.node_idx)
        }
}

/// Whether an order visits every node once, along joins.
pub open spec fn is_wander_plan(
    joins: Seq<WanderJoinJoin>,
    node_count: nat,
    plan: WanderView,
) -> bool {
    &&& plan.start < node_count
    &&& plan.steps.len() + 1 == node_count
    &&& follows_joins(joins, plan, plan.steps.len() as int)
}

/// Whether the visited nodes are marked.
spec fn are_marked(visited: Seq<bool>, start: usize, steps: Seq<WanderJoinPlanStep>) -> bool {
    forall|node: int|
        #![trigger visited[node]]
        0 <= node < visited.len() ==> visited[node] == is_visited(
            WanderView { start, steps },
            steps.len() as int,
            node as usize,
        )
}

proof fn lemma_visited_prefix(
    start: usize,
    steps: Seq<WanderJoinPlanStep>,
    step: WanderJoinPlanStep,
    n: int,
)
    requires
        0 <= n <= steps.len(),
    ensures
        forall|node: usize| #[trigger]
            is_visited(WanderView { start, steps: steps.push(step) }, n, node) == is_visited(
                WanderView { start, steps },
                n,
                node,
            ),
{
    let a = WanderView { start, steps };
    let b = WanderView { start, steps: steps.push(step) };
    assert forall|node: usize| #[trigger] is_visited(b, n, node) == is_visited(a, n, node) by {
        if is_visited(a, n, node) && start != node {
            let i = choose|i: int| 0 <= i < n && (#[trigger] a.steps[i]).node_idx == node;
            assert(b.steps[i].node_idx == node);
        }
        if is_visited(b, n, node) && start != node {
            let i = choose|i: int| 0 <= i < n && (#[trigger] b.steps[i]).node_idx == node;
            assert(a.steps[i].node_idx == node);
        }
    }
}

proof fn lemma_plans_are_valid(
    joins: Seq<WanderJoinJoin>,
    visited: Seq<bool>,
    start: usize,
    steps: Seq<WanderJoinPlanStep>,
    k: int,
)
    requires
        joins_wf(joins, visited.len()),
        visited.len() <= usize::MAX,
        start < visited.len(),
        steps.len() < visited.len(),
        are_marked(visited, start, steps),
        follows_joins(joins, WanderView { start, steps }, steps.len() as int),
        0 <= k < all_plans(joins, visited, start, steps).len(),
    ensures
        is_wander_plan(joins, visited.len(), all_plans(joins, visited, start, steps)[k]),
    decreases visited.len() - steps.len(), joins.len() + 1,
{
    if steps.len() + 1 == visited.len() {
    } else {
        lemma_plans_by_are_valid(joins, visited, start, steps, joins.len(), k);
    }
}

proof fn lemma_plans_by_are_valid(
    joins: Seq<WanderJoinJoin>,
    visited: Seq<bool>,
    start: usize,
    steps: Seq<WanderJoinPlanStep>,
    n: nat,
    k: int,
)
    requires
        joins_wf(joins, visited.len()),
        visited.len() <= usize::MAX,
        start < visited.len(),
        steps.len() + 1 < visited.len(),
        are_marked(visited, start, steps),
        follows_joins(joins, WanderView { start, steps }, steps.len() as int),
        n <= joins.len(),
        0 <= k < plans_by(joins, visited, start, steps, n).len(),
    ensures
        is_wander_plan(joins, visited.len(), plans_by(joins, visited, start, steps, n)[k]),
    decreases visited.len() - steps.len(), n,
{
    let before = plans_by(joins, visited, start, steps, (n - 1) as nat);
    if k < before.len() {
        lemma_plans_by_are_valid(joins, visited, start, steps, (n - 1) as nat, k);
    } else {
        let join = joins[n - 1];
        let step = step_of(join);
        let more = steps.push(step);
        let marked = visited.update(join.to_node as int, true);
        let old_view = WanderView { start, steps };
        let view = WanderView { start, steps: more };
        lemma_visited_prefix(start, steps, step, steps.len() as int);
        assert(visited[join.from_node as int] && !visited[join.to_node as int]);
        assert forall|node: int|
            #![trigger marked[node]]
            0 <= node < marked.len() implies marked[node] == is_visited(
            view,
            more.len() as int,
            node as usize,
        ) by {
            assert(visited[node] == is_visited(old_view, steps.len() as int, node as usize));
            assert(more[steps.len() as int] == step);
            if is_visited(view, more.len() as int, node as usize) && start != node {
                let i = choose|i: int|
                    0 <= i < more.len() && (#[trigger] view.steps[i]).node_idx == node as usize;
                if i < steps.len() {
                    assert(old_view.steps[i].node_idx == node as usize);
                }
            }
            if is_visited(old_view, steps.len() as int, node as usize) && start != node {
                let i = choose|i: int|
                    0 <= i < steps.len() && (#[trigger] old_view.steps[i]).node_idx
                        == node as usize;
                assert(view.steps[i].node_idx == node as usize);
            }
            if node == join.to_node {
                assert(view.steps[steps.len() as int].node_idx == node as usize);
            }
        }
        assert forall|i: int|
            #![trigger view.steps[i]]
            0 <= i < more.len() implies {
            let s = view.steps[i];
            &&& exists|j: int| 0 <= j < joins.len() && step_of(#[trigger] joins[j]) == s
            &&& is_visited(view, i, s.counterpart_node_idx)
            &&& !is_visited(view, i, s.node_idx)
        } by {
            lemma_visited_prefix(start, steps, step, if i < steps.len() {
                i
            } else {
                steps.len() as int
            });
            if i < steps.len() {
                assert(old_view.steps[i] == view.steps[i]);
            } else {
                assert(step_of(joins[n - 1]) == view.steps[i]);
                assert(visited[join.from_node as int] == is_visited(
                    old_view,
                    steps.len() as int,
                    join.from_node,
                ));
                assert(visited[join.to_node as int] == is_visited(
                    old_view,
                    steps.len() as int,
                    join.to_node,
                ));
            }
        }
        lemma_plans_are_valid(joins, marked, start, more, k - before.len());
    }
}

/// Every order that is found visits each node once, along joins.
pub proof fn plans_are_valid(joins: Seq<WanderJoinJoin>, node_count: nat, n: nat, k: int)
    requires
        joins_wf(joins, node_count),
        node_count <= usize::MAX,
        n <= node_count,
        0 <= k < plans_from_first(joins, node_count, n).len(),
    ensures
        is_wander_plan(joins, node_count, plans_from_first(joins, node_count, n)[k]),
    decreases n,
{
    let before = plans_from_first(joins, node_count, (n - 1) as nat);
    if k < before.len() {
        plans_are_valid(joins, node_count, (n - 1) as nat, k);
    } else {
        let visited = only(n - 1, node_count);
        let start = (n - 1) as usize;
        assert(are_marked(visited, start, Seq::empty()));
        lemma_plans_are_valid(joins, visited, start, Seq::empty(), k - before.len());
    }
}

/// Whether a join leads from one node to another.
pub open spec fn leads(joins: Seq<WanderJoinJoin>, from: usize, to: usize) -> bool {
    exists|i: int|
        0 <= i < joins.len() && (#[trigger] joins[i]).from_node == from && joins[i].to_node == to
}

/// A join in the other direction.
pub open spec fn turned(join: WanderJoinJoin) -> WanderJoinJoin {
    WanderJoinJoin {
        from_node: join.to_node,
        from_col: join.to_col,
        to_node: join.from_node,
        to_col: join.from_col,
    }
}

/// Whether every join can be taken in the other direction too.
pub open spec fn are_mutual(joins: Seq<WanderJoinJoin>) -> bool {
    forall|i: int|
        #![trigger joins[i]]
        0 <= i < joins.len() ==> joins.contains(turned(joins[i]))
}

/// Whether each node of a way is joined to the one after it, in one direction or the other.
pub open spec fn is_joined_way(joins: Seq<WanderJoinJoin>, way: Seq<usize>) -> bool {
    &&& way.len() > 0
    &&& forall|i: int|
        #![trigger way[i]]
        0 < i < way.len() ==> leads(joins, way[i - 1], way[i]) || leads(joins, way[i], way[i - 1])
}

/// Whether joins connect all nodes.
pub open spec fn connect_all(joins: Seq<WanderJoinJoin>, node_count: nat) -> bool {
    forall|a: usize, b: usize| #[trigger]
        are_nodes(a, b, node_count) ==> exists|way: Seq<usize>| #[trigger]
            is_joined_way(joins, way) && way[0] == a && way.last() == b
}

/// Whether two numbers name nodes.
pub open spec fn are_nodes(a: usize, b: usize, node_count: nat) -> bool {
    a < node_count && b < node_count
}

/// How many of the first `n` nodes are visited.
spec fn marks(visited: Seq<bool>, n: int) -> int
    decreases n,
{
    if n <= 0 {
        0
    } else {
        marks(visited, n - 1) + (if visited[n - 1] {
            1int
        } else {
            0
        })
    }
}

proof fn lemma_some_unmarked(visited: Seq<bool>, n: int) -> (place: int)
    requires
        0 <= n <= visited.len(),
        marks(visited, n) < n,
    ensures
        0 <= place < n && !visited[place],
    decreases n,
{
    if visited[n - 1] {
        lemma_some_unmarked(visited, n - 1)
    } else {
        n - 1
    }
}

proof fn lemma_one_more_mark(visited: Seq<bool>, place: int, n: int)
    requires
        0 <= n <= visited.len(),
        0 <= place < visited.len(),
        !visited[place],
    ensures
        marks(visited.update(place, true), n) == marks(visited, n) + (if place < n {
            1int
        } else {
            0
        }),
    decreases n,
{
    if n > 0 {
        lemma_one_more_mark(visited, place, n - 1);
    }
}

proof fn lemma_one_mark(start: int, node_count: nat, n: int)
    requires
        0 <= n <= node_count,
        0 <= start < node_count,
    ensures
        marks(only(start, node_count), n) == (if start < n {
            1int
        } else {
            0
        }),
    decreases n,
{
    if n > 0 {
        lemma_one_mark(start, node_count, n - 1);
    }
}

/// A way from a visited node to one that is not visited has a place where it leaves the visited
/// ones.
proof fn lemma_way_leaves(
    joins: Seq<WanderJoinJoin>,
    visited: Seq<bool>,
    way: Seq<usize>,
    n: int,
) -> (place: int)
    requires
        joins_wf(joins, visited.len()),
        is_joined_way(joins, way),
        0 <= n < way.len(),
        visited[way[0] as int],
        !visited[way[n] as int],
    ensures
        0 < place <= n,
        visited[way[place - 1] as int] && !visited[way[place] as int],
    decreases n,
{
    if visited[way[n - 1] as int] {
        n
    } else {
        lemma_way_leaves(joins, visited, way, n - 1)
    }
}

proof fn lemma_some_way_to_go_on(
    joins: Seq<WanderJoinJoin>,
    visited: Seq<bool>,
    start: usize,
    steps: Seq<WanderJoinPlanStep>,
)
    requires
        joins_wf(joins, visited.len()),
        visited.len() <= usize::MAX,
        are_mutual(joins),
        connect_all(joins, visited.len()),
        start < visited.len(),
        visited[start as int],
        marks(visited, visited.len() as int) == steps.len() + 1,
        steps.len() < visited.len(),
    ensures
        all_plans(joins, visited, start, steps).len() > 0,
    decreases visited.len() - steps.len(),
{
    if steps.len() + 1 < visited.len() {
        let goal = lemma_some_unmarked(visited, visited.len() as int);
        assert(are_nodes(start, goal as usize, visited.len()));
        let way = choose|way: Seq<usize>| #[trigger]
            is_joined_way(joins, way) && way[0] == start && way.last() == goal as usize;
        let place = lemma_way_leaves(joins, visited, way, way.len() - 1);
        let from = way[place - 1];
        let to = way[place];
        if !leads(joins, from, to) {
            assert(leads(joins, way[place], way[place - 1]));
            let i = choose|i: int|
                0 <= i < joins.len() && (#[trigger] joins[i]).from_node == to && joins[i].to_node
                    == from;
            let back = turned(joins[i]);
            assert(joins.contains(back));
            let j = choose|j: int| 0 <= j < joins.len() && joins[j] == back;
            assert(joins[j].from_node == from && joins[j].to_node == to);
        }
        let j = choose|j: int|
            0 <= j < joins.len() && (#[trigger] joins[j]).from_node == from && joins[j].to_node
                == to;
        let marked = visited.update(to as int, true);
        let more = steps.push(step_of(joins[j]));
        lemma_one_more_mark(visited, to as int, visited.len() as int);
        lemma_some_way_to_go_on(joins, marked, start, more);
        assert(plans_by(joins, visited, start, steps, (j + 1) as nat).len() > 0);
        lemma_plans_prefix(joins, visited, start, steps, (j + 1) as nat, joins.len());
    }
}

/// Joins that can be taken in both directions and that connect all nodes give an order to visit
/// them in.
pub proof fn connected_nodes_have_a_plan(
    joins: Seq<WanderJoinJoin>,
    node_count: nat,
    max_plans: nat,
)
    requires
        joins_wf(joins, node_count),
        0 < node_count <= usize::MAX,
        max_plans > 0,
        are_mutual(joins),
        connect_all(joins, node_count),
    ensures
        limited(plans_from_first(joins, node_count, node_count), max_plans).len() > 0,
{
    lemma_one_mark(0, node_count, node_count as int);
    lemma_some_way_to_go_on(joins, only(0, node_count), 0, Seq::empty());
    assert(plans_from_first(joins, node_count, 1).len() > 0);
    lemma_first_plans_prefix(joins, node_count, 1, node_count);
}

} // verus!
