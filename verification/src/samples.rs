//! What samples show: how many vertices meet predicates, and how many ways stars and branches
//! are found at their centers.
use crate::counting::{
    lemma_no_places, lemma_places_alike, lemma_places_finite, lemma_places_step, lemma_renamed,
    places,
};
use crate::embeddings::{
    branch_degrees_count_embeddings, branch_embeddings, is_at, is_degree,
    star_degrees_count_embeddings, star_embeddings,
};
use crate::estimate::{
    hits_among, is_vertex_estimate, looked_at, may_estimate_vertex, sample_sizes, VertexEstimate,
};
use crate::flat::{
    is_sample, passes, picks, resolution, FlatError, FlatView, ResolvedView,
};
use crate::lookups::{
    edges_are_found, is_first_edge, labelled_edges_are_listed, labelled_vertices_are_listed,
    lemma_listed_count, lemma_one_more_place, lists_places, neighbors_are_other_ends,
};
use crate::query::{EdgeId, PredicateView, VertexId};
use crate::sampling::{
    anchors_of, are_groups, are_steps, branch_anchor_degree, branch_observation,
    branch_observations, center_of, filtered_branch_degree, is_branch_anchor, is_evidence,
    is_star_anchor, is_star_sample, occurrences, positives, star_degree, star_observation,
    star_observations, CenterSample, CompiledStarView,
};
use crate::stars::{ArmView, BranchView};
use vstd::prelude::*;
use vstd::set_lib::{lemma_int_range, lemma_subset_equality, set_int_range};

verus! {

/// Whether the vertex at a place has a label and meets conditions.
pub open spec fn counts_at(
    data: FlatView,
    label: Seq<char>,
    conditions: Seq<ResolvedView>,
    place: int,
) -> bool {
    let v = data.vertices[place];
    v.label == label && passes(data.vertex_props(label, v.id), conditions)
}

/// Whether places of vertices with a label were looked at, each of them once.
pub open spec fn are_looked_at(data: FlatView, label: Seq<char>, seen: Seq<int>) -> bool {
    &&& seen.no_duplicates()
    &&& forall|i: int|
        #![trigger seen[i]]
        0 <= i < seen.len() ==> 0 <= seen[i] < data.vertices.len() && data.vertices[seen[i]].label
            == label
}

proof fn lemma_hits(
    data: FlatView,
    label: Seq<char>,
    conditions: Seq<ResolvedView>,
    ids: Seq<VertexId>,
    n: int,
)
    requires
        0 <= n <= ids.len(),
    ensures
        ({
            let hit = places(n, |i: int| passes(data.vertex_props(label, ids[i]), conditions));
            hit.finite() && hits_among(data, label, conditions, ids, n) == hit.len() <= n
        }),
    decreases n,
{
    let wanted = |i: int| passes(data.vertex_props(label, ids[i]), conditions);
    if n == 0 {
        lemma_no_places(wanted);
    } else {
        lemma_hits(data, label, conditions, ids, n - 1);
        lemma_places_step(n, wanted);
        lemma_places_finite(n, wanted);
    }
}

proof fn lemma_looked_at(
    data: FlatView,
    label: Seq<char>,
    conditions: Seq<ResolvedView>,
    ids: Seq<VertexId>,
    target: int,
)
    requires
        0 < target <= ids.len(),
    ensures
        ({
            let n = looked_at(data, label, conditions, ids, target);
            &&& target <= n <= ids.len()
            &&& n == ids.len() || hits_among(data, label, conditions, ids, n) >= 3
        }),
    decreases ids.len() - target,
{
    if target < ids.len() && hits_among(data, label, conditions, ids, target) < 3 {
        lemma_looked_at(
            data,
            label,
            conditions,
            ids,
            if 2 * target < ids.len() {
                2 * target
            } else {
                ids.len() as int
            },
        );
    }
}

proof fn lemma_sample_places(
    data: FlatView,
    label: Seq<char>,
    amount: nat,
    ids: Seq<VertexId>,
) -> (seen: Seq<int>)
    requires
        is_sample(data.labelled(label), amount, ids),
    ensures
        are_looked_at(data, label, seen),
        seen.len() == ids.len(),
        forall|i: int|
            #![trigger seen[i]]
            0 <= i < seen.len() ==> data.vertices[seen[i]].id == ids[i],
        ids.len() == data.labelled(label).len() ==> forall|p: int|
            0 <= p < data.vertices.len() && (#[trigger] data.vertices[p]).label == label
                ==> seen.contains(p),
{
    let all = data.labelled(label);
    let at = labelled_vertices_are_listed(data.vertices, label);
    let drawn = choose|drawn: Seq<usize>| #[trigger] picks(all, drawn, ids);
    let seen = Seq::new(ids.len(), |i: int| at[drawn[i] as int]);
    assert forall|i: int|
        #![trigger seen[i]]
        0 <= i < seen.len() implies 0 <= seen[i] < data.vertices.len() && data.vertices[seen[i]].label
        == label && data.vertices[seen[i]].id == ids[i] by {
        assert(ids[i] == all[drawn[i] as int]);
        assert((|p: int| data.vertices[p].label == label)(at[drawn[i] as int]));
    }
    assert forall|i: int, j: int| 0 <= i < j < seen.len() implies seen[i] != seen[j] by {
        assert(ids[i] == all[drawn[i] as int] && ids[j] == all[drawn[j] as int]);
        let (a, b) = (drawn[i] as int, drawn[j] as int);
        assert(drawn[i] != drawn[j]);
        if a < b {
            assert(at[a] < at[b]);
        } else {
            assert(at[b] < at[a]);
        }
    }
    if ids.len() == all.len() {
        let n = all.len() as int;
        let numbers = drawn.map_values(|d: usize| d as int);
        assert forall|i: int, j: int| 0 <= i < j < numbers.len() implies numbers[i]
            != numbers[j] by {
            assert(drawn[i] != drawn[j]);
        }
        numbers.unique_seq_to_set();
        lemma_int_range(0, n);
        assert forall|d: int| numbers.to_set().contains(d) implies #[trigger] set_int_range(
            0,
            n,
        ).contains(d) by {
            let i = choose|i: int| 0 <= i < numbers.len() && numbers[i] == d;
            assert(ids[i] == all[drawn[i] as int]);
        }
        lemma_subset_equality(numbers.to_set(), set_int_range(0, n));
        assert forall|p: int|
            0 <= p < data.vertices.len() && (#[trigger] data.vertices[p]).label
                == label implies seen.contains(p) by {
            assert((|q: int| data.vertices[q].label == label)(p));
            assert(at.contains(p));
            let k = choose|k: int| 0 <= k < at.len() && at[k] == p;
            assert(set_int_range(0, n).contains(k));
            assert(numbers.to_set().contains(k));
            let i = choose|i: int| 0 <= i < numbers.len() && numbers[i] == k;
            assert(seen[i] == p);
        }
    }
    seen
}

/// Of how many vertices with a label meet predicates, what is said to be exact is their number.
pub proof fn exact_estimates_count_vertices(
    data: FlatView,
    label: Seq<char>,
    predicates: Seq<PredicateView>,
    conditions: Seq<ResolvedView>,
    sample_size: nat,
    count: u64,
)
    requires
        data.vertices.len() <= usize::MAX,
        resolution(data.vertex_schemas, label, predicates) == Ok::<_, Seq<char>>(conditions),
        may_estimate_vertex(
            data,
            label,
            predicates,
            sample_size,
            Ok::<_, FlatError>(VertexEstimate::Exact(count)),
        ),
    ensures
        count == places(
            data.vertices.len() as int,
            |p: int| counts_at(data, label, conditions, p),
        ).len(),
{
    let m = data.vertices.len() as int;
    let total = data.labelled(label).len();
    let wanted = |p: int| counts_at(data, label, conditions, p);
    let at = labelled_vertices_are_listed(data.vertices, label);
    lemma_listed_count(at, m, |p: int| data.vertices[p].label == label);
    lemma_places_finite(m, |p: int| data.vertices[p].label == label);
    if predicates.len() == 0 {
        lemma_places_alike(m, |p: int| data.vertices[p].label == label, wanted);
    } else if total == 0 {
        assert(places(m, wanted) =~= Set::empty()) by {
            assert forall|p: int| !places(m, wanted).contains(p) by {
                if places(m, wanted).contains(p) {
                    assert((|q: int| data.vertices[q].label == label)(p));
                    assert(at.contains(p));
                }
            }
        }
    } else {
        let estimate = VertexEstimate::Exact(count);
        let ids = choose|ids: Seq<VertexId>| #[trigger]
            is_vertex_estimate(data, label, conditions, sample_size, ids, estimate);
        let (first, largest) = sample_sizes(sample_size, total);
        lemma_looked_at(data, label, conditions, ids, first as int);
        let evaluated = looked_at(data, label, conditions, ids, first as int);
        assert(evaluated == total);
        lemma_hits(data, label, conditions, ids, evaluated);
        let seen = lemma_sample_places(data, label, largest, ids);
        let hit = |i: int| passes(data.vertex_props(label, ids[i]), conditions);
        let from = places(evaluated, hit);
        let to = places(m, wanted);
        let name = |i: int| seen[i];
        assert forall|i: int| #[trigger] from.contains(i) implies to.contains(name(i)) by {
            assert(data.vertices[seen[i]].id == ids[i]);
        }
        assert forall|p: int| #[trigger] to.contains(p) implies exists|i: int| #[trigger]
            from.contains(i) && name(i) == p by {
            assert(data.vertices[p].label == label);
            assert(seen.contains(p));
            let i = choose|i: int| 0 <= i < seen.len() && seen[i] == p;
            assert(data.vertices[seen[i]].id == ids[i]);
            assert(from.contains(i));
        }
        lemma_renamed(from, to, name);
    }
}

/// Of how many vertices with a label meet predicates, what is not said to be exact is what a part
/// of them shows: of so many out of all with the label, so many meet the predicates. The part is
/// no less than what was asked for, and no more than eight times that; it is that much unless at
/// least three of it meet the predicates.
pub proof fn sampled_estimates_count_part_of_the_vertices(
    data: FlatView,
    label: Seq<char>,
    predicates: Seq<PredicateView>,
    conditions: Seq<ResolvedView>,
    sample_size: nat,
    hits: usize,
    evaluated: usize,
    total: usize,
) -> (seen: Seq<int>)
    requires
        data.vertices.len() <= usize::MAX,
        sample_size > 0,
        resolution(data.vertex_schemas, label, predicates) == Ok::<_, Seq<char>>(conditions),
        may_estimate_vertex(
            data,
            label,
            predicates,
            sample_size,
            Ok::<_, FlatError>(VertexEstimate::Sampled { hits, evaluated, total }),
        ),
    ensures
        total == places(
            data.vertices.len() as int,
            |p: int| data.vertices[p].label == label,
        ).len(),
        sample_size <= evaluated <= 8 * sample_size,
        evaluated < total,
        hits >= 3 || evaluated == 8 * sample_size,
        are_looked_at(data, label, seen),
        seen.len() == evaluated,
        hits == places(
            evaluated as int,
            |i: int| counts_at(data, label, conditions, seen[i]),
        ).len(),
{
    let m = data.vertices.len() as int;
    let at = labelled_vertices_are_listed(data.vertices, label);
    lemma_listed_count(at, m, |p: int| data.vertices[p].label == label);
    lemma_places_finite(m, |p: int| data.vertices[p].label == label);
    let estimate = VertexEstimate::Sampled { hits, evaluated, total };
    let ids = choose|ids: Seq<VertexId>| #[trigger]
        is_vertex_estimate(data, label, conditions, sample_size, ids, estimate);
    let (first, largest) = sample_sizes(sample_size, data.labelled(label).len());
    lemma_looked_at(data, label, conditions, ids, first as int);
    let n = looked_at(data, label, conditions, ids, first as int);
    lemma_hits(data, label, conditions, ids, n);
    let all = lemma_sample_places(data, label, largest, ids);
    let seen = all.take(n);
    assert forall|i: int|
        #![trigger seen[i]]
        0 <= i < seen.len() implies 0 <= seen[i] < data.vertices.len() && data.vertices[seen[i]].label
        == label by {
        assert(seen[i] == all[i]);
    }
    assert forall|i: int, j: int| 0 <= i < j < seen.len() implies seen[i] != seen[j] by {
        assert(all[i] != all[j]);
    }
    let hit = |i: int| passes(data.vertex_props(label, ids[i]), conditions);
    let met = |i: int| counts_at(data, label, conditions, seen[i]);
    assert forall|i: int| 0 <= i < n implies #[trigger] hit(i) == met(i) by {
        assert(seen[i] == all[i]);
        assert(data.vertices[all[i]].id == ids[i]);
    }
    lemma_places_alike(n, hit, met);
    seen
}

/// The places where a degree is.
pub open spec fn places_of(degrees: Seq<u64>, degree: u64) -> Set<int> {
    places(degrees.len() as int, |i: int| degrees[i] == degree)
}

/// Which observations have a degree.
pub open spec fn has_degree(observations: Seq<(u64, u64)>, degree: u64) -> spec_fn(int) -> bool {
    |i: int| observations[i].0 == degree
}

/// So many degrees are not zero as there are places where one is not, and a degree occurs as often
/// as there are places where it is.
pub proof fn degrees_are_counted_by_place(degrees: Seq<u64>, degree: u64)
    ensures
        positives(degrees) == places(degrees.len() as int, |i: int| degrees[i] > 0).len(),
        occurrences(degrees, degree) == places_of(degrees, degree).len(),
    decreases degrees.len(),
{
    let some = |i: int| degrees[i] > 0;
    let this = |i: int| degrees[i] == degree;
    if degrees.len() == 0 {
        lemma_no_places(some);
        lemma_no_places(this);
        assert(places_of(degrees, degree) =~= places(0, this));
    } else {
        let n = degrees.len() as int;
        let fewer = degrees.drop_last();
        assert(places_of(degrees, degree) =~= places(n, this));
        degrees_are_counted_by_place(fewer, degree);
        lemma_places_alike(n - 1, some, |i: int| fewer[i] > 0);
        assert(places_of(fewer, degree) =~= places(n - 1, this));
        lemma_places_finite(n - 1, some);
        lemma_places_finite(n - 1, this);
        lemma_places_step(n, some);
        lemma_places_step(n, this);
    }
}

/// Degrees are evidence exactly where one of them is not zero and they are those of the whole
/// population, or at least five of them are not zero.
pub proof fn evidence_takes_five_or_all(degrees: Seq<u64>, population: nat)
    ensures
        is_evidence(degrees, population) <==> {
            let found = places(degrees.len() as int, |i: int| degrees[i] > 0).len();
            found >= 5 || (found > 0 && degrees.len() == population)
        },
{
    degrees_are_counted_by_place(degrees, 0);
}

/// The steps of degrees go down, from one degree to the next less one that occurs and is not
/// zero. Each is as long as there are places with the degree, and no degree is left out.
pub proof fn steps_list_every_degree(degrees: Seq<u64>, steps: Seq<(u64, u64)>)
    requires
        are_steps(degrees, steps),
    ensures
        forall|i: int, j: int|
            #![trigger steps[i], steps[j]]
            0 <= i < j < steps.len() ==> steps[i].0 > steps[j].0,
        forall|i: int|
            #![trigger steps[i]]
            0 <= i < steps.len() ==> degrees.contains(steps[i].0) && steps[i].1 == places_of(
                degrees,
                steps[i].0,
            ).len(),
        forall|k: int|
            #![trigger degrees[k]]
            0 <= k < degrees.len() ==> (degrees[k] > 0 <==> exists|i: int|
                0 <= i < steps.len() && (#[trigger] steps[i]).0 == degrees[k]),
{
    assert forall|i: int|
        #![trigger steps[i]]
        0 <= i < steps.len() implies degrees.contains(steps[i].0) && steps[i].1 == places_of(
        degrees,
        steps[i].0,
    ).len() by {
        degrees_are_counted_by_place(degrees, steps[i].0);
        let found = places_of(degrees, steps[i].0);
        let k = found.choose();
        if !found.contains(k) {
            assert(found =~= Set::empty());
        }
        assert(degrees[k] == steps[i].0);
    }
}

/// The groups of observations go down by degree. Each holds the anchor degrees of all observations
/// with its degree, in their order, and every observation is in one.
pub proof fn groups_hold_every_observation(
    observations: Seq<(u64, u64)>,
    groups: Seq<(u64, Vec<u64>)>,
    k: int,
) -> (at: Seq<int>)
    requires
        are_groups(observations, groups),
        0 <= k < groups.len(),
    ensures
        forall|i: int, j: int|
            #![trigger groups[i], groups[j]]
            0 <= i < j < groups.len() ==> groups[i].0 > groups[j].0,
        at.len() > 0,
        lists_places(at, observations.len() as int, has_degree(observations, groups[k].0)),
        groups[k].1@ == at.map_values(|i: int| observations[i].1),
        forall|i: int|
            #![trigger observations[i]]
            0 <= i < observations.len() ==> exists|j: int|
                0 <= j < groups.len() && (#[trigger] groups[j]).0 == observations[i].0,
{
    lemma_anchors(observations, groups[k].0)
}

proof fn lemma_anchors(observations: Seq<(u64, u64)>, degree: u64) -> (at: Seq<int>)
    ensures
        lists_places(at, observations.len() as int, has_degree(observations, degree)),
        anchors_of(observations, degree) == at.map_values(|i: int| observations[i].1),
    decreases observations.len(),
{
    let wanted = has_degree(observations, degree);
    let anchor = |i: int| observations[i].1;
    if observations.len() == 0 {
        let at = Seq::<int>::empty();
        assert(at.map_values(anchor) =~= anchors_of(observations, degree));
        at
    } else {
        let n = observations.len() as int;
        let fewer = observations.drop_last();
        let before = lemma_anchors(fewer, degree);
        assert(lists_places(before, n - 1, wanted)) by {
            assert forall|p: int| 0 <= p < n - 1 && #[trigger] wanted(p) implies before.contains(
                p,
            ) by {
                assert(has_degree(fewer, degree)(p));
            }
        }
        lemma_one_more_place(before, n, wanted);
        let at = if wanted(n - 1) {
            before.push(n - 1)
        } else {
            before
        };
        assert(before.map_values(anchor) =~= before.map_values(|i: int| fewer[i].1));
        assert(at.map_values(anchor) =~= anchors_of(observations, degree));
        at
    }
}

/// The data edges with a label that leave a vertex with a label, or that enter it.
pub open spec fn edges_at(
    data: FlatView,
    label: Seq<char>,
    edge_label: Seq<char>,
    outgoing: bool,
    v: VertexId,
) -> Set<int> {
    places(data.edges.len() as int, |p: int| is_at(data.edges[p], label, edge_label, outgoing, v))
}

/// Whether an edge that was drawn has a label and goes from a center with a label to a vertex with
/// another, or the other way.
pub open spec fn is_drawn_at(
    data: FlatView,
    draw: EdgeId,
    label: Seq<char>,
    edge_label: Seq<char>,
    outgoing: bool,
    other_label: Seq<char>,
    v: VertexId,
) -> bool {
    data.edge(draw) matches Some(e) && is_at(e, label, edge_label, outgoing, v) && other_label == (
    if outgoing {
        e.dst_label
    } else {
        e.src_label
    })
}

proof fn lemma_edges_at(
    data: FlatView,
    draw: EdgeId,
    label: Seq<char>,
    edge_label: Seq<char>,
    outgoing: bool,
    v: VertexId,
)
    ensures
        data.hops(label, edge_label, outgoing, v).len() == edges_at(
            data,
            label,
            edge_label,
            outgoing,
            v,
        ).len() <= data.edges.len(),
        data.edge(draw) matches Some(e) && is_at(e, label, edge_label, outgoing, v) ==> data.hops(
            label,
            edge_label,
            outgoing,
            v,
        ).len() > 0,
{
    let n = data.edges.len() as int;
    let wanted = |p: int| is_at(data.edges[p], label, edge_label, outgoing, v);
    let at = neighbors_are_other_ends(data.edges, label, edge_label, outgoing, v);
    lemma_listed_count(at, n, wanted);
    lemma_places_finite(n, wanted);
    edges_are_found(data, draw);
    if data.edge(draw) matches Some(e) && is_at(e, label, edge_label, outgoing, v) {
        let p = choose|p: int| #[trigger]
            is_first_edge(data.edges, draw, p) && data.edge(draw)->0 == data.edges[p];
        assert(wanted(p));
        assert(at.contains(p));
    }
}

/// Whether a drawn edge shows something of a star: it is one of the anchor, at a center where the
/// star can be found.
pub open spec fn shows_star(
    data: FlatView,
    star: CompiledStarView,
    anchor: int,
    draw: EdgeId,
    v: VertexId,
) -> bool {
    let arm = star.arms[anchor];
    &&& is_drawn_at(
        data,
        draw,
        star.center_label,
        arm.edge_label,
        arm.outgoing,
        arm.leaf_label,
        v,
    )
    &&& star_embeddings(data, star, v).len() > 0
}

/// A drawn edge shows in how many ways a star can be found at its center, and how many edges of
/// the anchor there are at it; and it shows nothing exactly where it is none of the anchor or the
/// star cannot be found.
pub proof fn drawn_edges_show_stars(
    data: FlatView,
    star: CompiledStarView,
    anchor: int,
    draw: EdgeId,
)
    requires
        data.edges.len() <= usize::MAX,
    ensures
        match star_observation(data, star, anchor, draw) {
            Some(o) => exists|v: VertexId| #[trigger]
                shows_star(data, star, anchor, draw, v) && is_degree(
                    o.0,
                    star_embeddings(data, star, v).len(),
                ) && o.1 == edges_at(
                    data,
                    star.center_label,
                    star.arms[anchor].edge_label,
                    star.arms[anchor].outgoing,
                    v,
                ).len(),
            None => forall|v: VertexId| !(#[trigger] shows_star(data, star, anchor, draw, v)),
        },
{
    let arm = star.arms[anchor];
    let l = star.center_label;
    match data.edge(draw) {
        None => {},
        Some(e) => {
            let center = center_of(e, arm.edge_label, arm.outgoing, l, arm.leaf_label);
            assert forall|v: VertexId|
                is_drawn_at(
                    data,
                    draw,
                    l,
                    arm.edge_label,
                    arm.outgoing,
                    arm.leaf_label,
                    v,
                ) implies #[trigger] shows_star(data, star, anchor, draw, v) == (center == Some(v)
                && star_degree(data, star, v) > 0) && data.hops(
                l,
                arm.edge_label,
                arm.outgoing,
                v,
            ).len() > 0 by {
                star_degrees_count_embeddings(data, star, v);
                lemma_edges_at(data, draw, l, arm.edge_label, arm.outgoing, v);
            }
            if let Some(v) = center {
                star_degrees_count_embeddings(data, star, v);
                lemma_edges_at(data, draw, l, arm.edge_label, arm.outgoing, v);
                assert(is_drawn_at(
                    data,
                    draw,
                    l,
                    arm.edge_label,
                    arm.outgoing,
                    arm.leaf_label,
                    v,
                ));
                if star_observation(data, star, anchor, draw) is Some {
                    assert(shows_star(data, star, anchor, draw, v));
                }
            }
        },
    }
}

/// What drawn edges show of a star is what each of them shows that shows anything, in their order.
pub proof fn star_observations_follow_the_draws(
    data: FlatView,
    star: CompiledStarView,
    anchor: int,
    draws: Seq<EdgeId>,
) -> (at: Seq<int>)
    ensures
        lists_places(
            at,
            draws.len() as int,
            |k: int| star_observation(data, star, anchor, draws[k]) is Some,
        ),
        star_observations(data, star, anchor, draws) == at.map_values(
            |k: int| star_observation(data, star, anchor, draws[k])->0,
        ),
    decreases draws.len(),
{
    let wanted = |k: int| star_observation(data, star, anchor, draws[k]) is Some;
    let shown = |k: int| star_observation(data, star, anchor, draws[k])->0;
    if draws.len() == 0 {
        let at = Seq::<int>::empty();
        assert(at.map_values(shown) =~= star_observations(data, star, anchor, draws));
        at
    } else {
        let n = draws.len() as int;
        let fewer = draws.drop_last();
        let before = star_observations_follow_the_draws(data, star, anchor, fewer);
        assert(lists_places(before, n - 1, wanted)) by {
            assert forall|p: int| 0 <= p < n - 1 && #[trigger] wanted(p) implies before.contains(
                p,
            ) by {
                assert((|q: int| star_observation(data, star, anchor, fewer[q]) is Some)(p));
            }
        }
        lemma_one_more_place(before, n, wanted);
        let at = if wanted(n - 1) {
            before.push(n - 1)
        } else {
            before
        };
        assert(before.map_values(shown) =~= before.map_values(
            |k: int| star_observation(data, star, anchor, fewer[k])->0,
        ));
        assert(at.map_values(shown) =~= star_observations(data, star, anchor, draws));
        at
    }
}

/// Whether a drawn edge is one that anchors a branch at a center: one of an arm of the center, or
/// else a root.
pub open spec fn is_anchored_at(
    data: FlatView,
    branch: BranchView,
    anchor: Option<usize>,
    draw: EdgeId,
    v: VertexId,
) -> bool {
    match anchor {
        Some(i) => is_drawn_at(
            data,
            draw,
            branch.center_label,
            branch.center_leaf_arms[i as int].edge_label,
            branch.center_leaf_arms[i as int].outgoing,
            branch.center_leaf_arms[i as int].leaf_label,
            v,
        ),
        None => is_drawn_at(
            data,
            draw,
            branch.center_label,
            branch.root_edge_label,
            branch.root_outgoing,
            branch.intermediate_label,
            v,
        ),
    }
}

/// The data edges that anchor a branch at a center.
pub open spec fn anchors_at(
    data: FlatView,
    branch: BranchView,
    anchor: Option<usize>,
    v: VertexId,
) -> Set<int> {
    match anchor {
        Some(i) => edges_at(
            data,
            branch.center_label,
            branch.center_leaf_arms[i as int].edge_label,
            branch.center_leaf_arms[i as int].outgoing,
            v,
        ),
        None => edges_at(
            data,
            branch.center_label,
            branch.root_edge_label,
            branch.root_outgoing,
            v,
        ),
    }
}

/// Whether a drawn edge shows something of a branch: it anchors it, at a center where the branch
/// can be found.
pub open spec fn shows_branch(
    data: FlatView,
    branch: BranchView,
    anchor: Option<usize>,
    draw: EdgeId,
    v: VertexId,
) -> bool {
    is_anchored_at(data, branch, anchor, draw, v) && branch_embeddings(data, branch, v).len() > 0
}

/// A drawn edge shows in how many ways a branch can be found at its center, and how many edges
/// anchor that; and it shows nothing exactly where it does not anchor the branch or the branch
/// cannot be found.
pub proof fn drawn_edges_show_branches(
    data: FlatView,
    branch: BranchView,
    anchor: Option<usize>,
    draw: EdgeId,
)
    requires
        data.edges.len() <= usize::MAX,
    ensures
        match branch_observation(data, branch, anchor, draw) {
            Some(o) => exists|v: VertexId| #[trigger]
                shows_branch(data, branch, anchor, draw, v) && is_degree(
                    o.0,
                    branch_embeddings(data, branch, v).len(),
                ) && o.1 == anchors_at(data, branch, anchor, v).len(),
            None => forall|v: VertexId| !(#[trigger] shows_branch(data, branch, anchor, draw, v)),
        },
{
    let l = branch.center_label;
    let (edge_label, outgoing, other_label) = match anchor {
        Some(i) => (
            branch.center_leaf_arms[i as int].edge_label,
            branch.center_leaf_arms[i as int].outgoing,
            branch.center_leaf_arms[i as int].leaf_label,
        ),
        None => (branch.root_edge_label, branch.root_outgoing, branch.intermediate_label),
    };
    match data.edge(draw) {
        None => {},
        Some(e) => {
            let center = center_of(e, edge_label, outgoing, l, other_label);
            assert forall|v: VertexId|
                is_anchored_at(data, branch, anchor, draw, v) implies #[trigger] shows_branch(
                data,
                branch,
                anchor,
                draw,
                v,
            ) == (center == Some(v) && filtered_branch_degree(data, branch, v) > 0)
                && branch_anchor_degree(data, branch, anchor, v) > 0 by {
                branch_degrees_count_embeddings(data, branch, v);
                lemma_edges_at(data, draw, l, edge_label, outgoing, v);
            }
            if let Some(v) = center {
                branch_degrees_count_embeddings(data, branch, v);
                lemma_edges_at(data, draw, l, edge_label, outgoing, v);
                assert(is_anchored_at(data, branch, anchor, draw, v));
                if branch_observation(data, branch, anchor, draw) is Some {
                    assert(shows_branch(data, branch, anchor, draw, v));
                }
            }
        },
    }
}

/// What drawn edges show of a branch is what each of them shows that shows anything, in their
/// order.
pub proof fn branch_observations_follow_the_draws(
    data: FlatView,
    branch: BranchView,
    anchor: Option<usize>,
    draws: Seq<EdgeId>,
) -> (at: Seq<int>)
    ensures
        lists_places(
            at,
            draws.len() as int,
            |k: int| branch_observation(data, branch, anchor, draws[k]) is Some,
        ),
        branch_observations(data, branch, anchor, draws) == at.map_values(
            |k: int| branch_observation(data, branch, anchor, draws[k])->0,
        ),
    decreases draws.len(),
{
    let wanted = |k: int| branch_observation(data, branch, anchor, draws[k]) is Some;
    let shown = |k: int| branch_observation(data, branch, anchor, draws[k])->0;
    if draws.len() == 0 {
        let at = Seq::<int>::empty();
        assert(at.map_values(shown) =~= branch_observations(data, branch, anchor, draws));
        at
    } else {
        let n = draws.len() as int;
        let fewer = draws.drop_last();
        let before = branch_observations_follow_the_draws(data, branch, anchor, fewer);
        assert(lists_places(before, n - 1, wanted)) by {
            assert forall|p: int| 0 <= p < n - 1 && #[trigger] wanted(p) implies before.contains(
                p,
            ) by {
                assert((|q: int| branch_observation(data, branch, anchor, fewer[q]) is Some)(p));
            }
        }
        lemma_one_more_place(before, n, wanted);
        let at = if wanted(n - 1) {
            before.push(n - 1)
        } else {
            before
        };
        assert(before.map_values(shown) =~= before.map_values(
            |k: int| branch_observation(data, branch, anchor, fewer[k])->0,
        ));
        assert(at.map_values(shown) =~= branch_observations(data, branch, anchor, draws));
        at
    }
}

/// The anchor of a star has edges in the data. It has conditions unless no arm with edges has,
/// and of the arms with edges that have conditions as it has, or have none as it has, none has
/// fewer edges.
pub proof fn star_anchors_have_the_fewest_edges(
    data: FlatView,
    star: CompiledStarView,
    anchor: int,
    j: int,
)
    requires
        is_star_anchor(data, star.arms, Some(anchor)),
        0 <= j < star.arms.len(),
        edges_labelled(data, star.arms[j].edge_label).len() > 0,
    ensures
        0 <= anchor < star.arms.len(),
        edges_labelled(data, star.arms[anchor].edge_label).len() > 0,
        has_conditions(star.arms[j]) ==> has_conditions(star.arms[anchor]),
        has_conditions(star.arms[j]) == has_conditions(star.arms[anchor]) ==> edges_labelled(
            data,
            star.arms[anchor].edge_label,
        ).len() <= edges_labelled(data, star.arms[j].edge_label).len(),
{
    lemma_edges_labelled(data, star.arms[j].edge_label);
    lemma_edges_labelled(data, star.arms[anchor].edge_label);
}

/// The anchor of a branch is a root, or else an arm of the center; no other of these with edges
/// in the data has fewer.
pub proof fn branch_anchors_have_the_fewest_edges(
    data: FlatView,
    branch: BranchView,
    anchor: Option<int>,
    j: int,
)
    requires
        is_branch_anchor(data, branch, anchor),
        0 <= j < branch.center_leaf_arms.len(),
        edges_labelled(data, branch.center_leaf_arms[j].edge_label).len() > 0,
    ensures
        match anchor {
            Some(i) => {
                let chosen = edges_labelled(data, branch.center_leaf_arms[i].edge_label).len();
                &&& 0 <= i < branch.center_leaf_arms.len()
                &&& 0 < chosen <= edges_labelled(
                    data,
                    branch.center_leaf_arms[j].edge_label,
                ).len()
                &&& chosen <= edges_labelled(data, branch.root_edge_label).len()
            },
            None => edges_labelled(data, branch.root_edge_label).len() < edges_labelled(
                data,
                branch.center_leaf_arms[j].edge_label,
            ).len(),
        },
{
    lemma_edges_labelled(data, branch.center_leaf_arms[j].edge_label);
    lemma_edges_labelled(data, branch.root_edge_label);
    if let Some(i) = anchor {
        lemma_edges_labelled(data, branch.center_leaf_arms[i].edge_label);
    }
}

/// The data edges with a label.
pub open spec fn edges_labelled(data: FlatView, label: Seq<char>) -> Set<int> {
    places(data.edges.len() as int, |p: int| data.edges[p].label == label)
}

/// Whether an arm puts conditions on its edge or on its leaf.
pub open spec fn has_conditions(arm: ArmView) -> bool {
    arm.edge_predicates.len() > 0 || arm.leaf_predicates.len() > 0
}

proof fn lemma_edges_labelled(data: FlatView, label: Seq<char>)
    ensures
        data.edges_labelled(label).len() == edges_labelled(data, label).len(),
{
    let at = labelled_edges_are_listed(data.edges, label);
    lemma_listed_count(at, data.edges.len() as int, |p: int| data.edges[p].label == label);
}

/// A sample of centers of a star, where it is not one that was kept, is of distinct vertices with
/// the label of the center: of all of them, or of as many as were asked for. It holds in how many
/// ways the star can be found at each.
pub proof fn sampled_centers_have_their_degrees(
    data: FlatView,
    star: CompiledStarView,
    size: nat,
    key: Seq<char>,
    before: Map<Seq<char>, Seq<VertexId>>,
    after: Map<Seq<char>, Seq<VertexId>>,
    centers: Vec<VertexId>,
    degrees: Vec<u64>,
) -> (seen: Seq<int>)
    requires
        !before.contains_key(key),
        is_star_sample(
            data,
            star,
            size,
            key,
            before,
            after,
            (CenterSample::Uniform { centers, remembered: false, degrees }),
        ),
    ensures
        are_looked_at(data, star.center_label, seen),
        seen.len() == size || seen.len() == places(
            data.vertices.len() as int,
            |p: int| data.vertices[p].label == star.center_label,
        ).len() < size,
        centers@ == seen.map_values(|p: int| data.vertices[p].id),
        degrees@.len() == centers@.len(),
        forall|i: int|
            #![trigger degrees@[i]]
            0 <= i < degrees@.len() ==> is_degree(
                degrees@[i],
                star_embeddings(data, star, centers@[i]).len(),
            ),
        after == before.insert(key, centers@),
{
    let seen = lemma_sample_places(data, star.center_label, size, centers@);
    let at = labelled_vertices_are_listed(data.vertices, star.center_label);
    lemma_listed_count(
        at,
        data.vertices.len() as int,
        |p: int| data.vertices[p].label == star.center_label,
    );
    assert(centers@ =~= seen.map_values(|p: int| data.vertices[p].id));
    assert forall|i: int|
        #![trigger degrees@[i]]
        0 <= i < degrees@.len() implies is_degree(
        degrees@[i],
        star_embeddings(data, star, centers@[i]).len(),
    ) by {
        star_degrees_count_embeddings(data, star, centers@[i]);
    }
    seen
}

} // verus!
