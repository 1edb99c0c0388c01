//! Taking stars and branches out of a query, where the catalog or a sample tells their degrees.
use crate::branches::{
    arms_along, branch_at, one_hop, branch_no_later, compiled_branch, has_condition, is_branch_of,
    other_end, RawBranchView, RawN1Branch, StarError, StarErrorView,
};
use crate::catalog::DegreeSeqGraph;
use crate::chance::contents;
use crate::extraction::{
    factor_at, factor_views, keep_unused, lemma_removed_len, lemma_sorted_tags, make_factor,
    once_more, remove_arms, removed, tag_placed, tagged_views, tags_at, tags_sorted, take_star,
    taken, taken_is_a_selection, unused, FactorView, LocalFactor, TaggedArm, TaggedView,
};
use crate::flat::{FlatGraph, FlatView};
use crate::matching::is_selection;
use crate::order::{sort, sorted};
use crate::paths::{degree, vertex_ids};
use crate::pattern::PathView;
use crate::query::{
    contains_id, lemma_edge_at, predicate_views, EdgeId, EdgeView, GraphView, QueryEdge, QueryGraph, QueryVertex,
    VertexId, VertexView,
};
use crate::sampling::{
    branch_key, compiled_star, is_sampling_of_branch, is_sampling_of_star, star_key, CenterSample,
};
use crate::spanning::copy_ids;
use crate::stars::{RawArmView, RawStarArm};
use dashmap::DashMap;
use vstd::prelude::*;
use vstd::string::*;

verus! {

/// What predicates do to an estimate.
#[derive(Debug, Clone, Copy, PartialEq, Eq, Structural)]
pub enum PredicateApplyType {
    INNER,
    SCALE,
    IGNORE,
}

/// Whether predicates are sampled.
pub open spec fn samples_predicates(mode: PredicateApplyType) -> bool {
    mode != PredicateApplyType::IGNORE
}

/// Whether a predicate is on an edge or on one of its ends.
pub open spec fn is_conditioned(graph: GraphView, e: EdgeView) -> bool {
    e.predicates.len() > 0 || graph.vertex(e.src)->0.predicates.len() > 0 || graph.vertex(
        e.dst,
    )->0.predicates.len() > 0
}

/// The arm from one vertex to another along an edge.
pub open spec fn hop_arm(graph: GraphView, e: EdgeView, from: VertexId, to: VertexId) -> TaggedView {
    TaggedView {
        tag: e.id,
        pattern: PathView {
            vs: seq![graph.vertex(from)->0.label, graph.vertex(to)->0.label],
            es: seq![e.label],
        },
    }
}

/// The arms at a center among the first `n` edges of a query: those to a leaf. Where predicates
/// are not let through, none is on the edge or on its ends.
pub open spec fn leaf_arms(graph: GraphView, lenient: bool, center: VertexId, n: int) -> Seq<TaggedView>
    decreases n,
{
    if n <= 0 {
        Seq::empty()
    } else {
        let e = graph.edges[n - 1];
        let before = leaf_arms(graph, lenient, center, n - 1);
        if is_conditioned(graph, e) && !lenient {
            before
        } else {
            let once = if degree(graph.edges, e.dst) == 1 && e.src == center {
                before.push(hop_arm(graph, e, e.src, e.dst))
            } else {
                before
            };
            if degree(graph.edges, e.src) == 1 && e.dst == center {
                once.push(hop_arm(graph, e, e.dst, e.src))
            } else {
                once
            }
        }
    }
}

/// Whether a predicate is on a center or on one of the arms.
pub open spec fn star_is_conditioned(graph: GraphView, v: VertexView, tags: Seq<u64>) -> bool {
    v.predicates.len() > 0 || exists|i: int|
        0 <= i < tags.len() && has_condition(graph, v.id, #[trigger] tags[i])
}

/// Whether all edges at a center are among those given.
pub open spec fn owns_center(graph: GraphView, center: VertexId, tags: Seq<u64>) -> bool {
    forall|k: int|
        #![trigger graph.edges[k]]
        0 <= k < graph.edges.len() && (graph.edges[k].src == center || graph.edges[k].dst == center)
            ==> tags.contains(graph.edges[k].id)
}

/// How far the taking has come: the stars, whether each was sampled, the vertices whose
/// predicates are in a sample, and the stars of which a sample was tried.
#[verifier::ext_equal]
pub struct Progress {
    pub factors: Seq<FactorView>,
    pub sampled: Seq<bool>,
    pub owned: Seq<VertexId>,
    pub tried: Seq<FactorView>,
}

/// How far the taking had come when it failed, and why it did.
#[verifier::ext_equal]
pub struct Failure {
    pub begun: Progress,
    pub error: StarErrorView,
}

/// What is asked of the taking.
pub struct Setting {
    pub graph: GraphView,
    pub data: Option<FlatView>,
    pub catalog: DegreeSeqGraph,
    pub sampling: bool,
    pub lenient: bool,
    pub max: nat,
}

/// The taking at a center, from the arms that are left there. A star with a predicate has to be
/// sampled; where a sample is no evidence, nothing more is taken at the center. Each trial says
/// whether a sample was evidence.
pub open spec fn taken_at(
    set: Setting,
    v: VertexView,
    arms: Seq<TaggedView>,
    begun: Progress,
    trials: Seq<bool>,
) -> Result<Progress, Failure>
    decreases arms.len(),
{
    match taken(set.catalog, v.label, arms, set.max, false) {
        None => Ok(begun),
        Some(places) => {
            let tags = tags_at(arms, places);
            let needed = star_is_conditioned(set.graph, v, tags) && set.sampling;
            if needed && set.data is None {
                Ok(begun)
            } else if needed && compiled_star(
                set.graph,
                set.data->0,
                v.id,
                arms_along(set.graph, v.id, tags),
            ) is Err {
                Err(
                    Failure {
                        begun,
                        error: compiled_star(
                            set.graph,
                            set.data->0,
                            v.id,
                            arms_along(set.graph, v.id, tags),
                        )->Err_0,
                    },
                )
            } else if needed && !trials[begun.tried.len() as int] {
                Ok(
                    Progress {
                        tried: begun.tried.push(factor_at(v.id, v.label, arms, places)),
                        ..begun
                    },
                )
            } else {
                let next = Progress {
                    factors: begun.factors.push(factor_at(v.id, v.label, arms, places)),
                    sampled: begun.sampled.push(needed),
                    owned: if needed && v.predicates.len() > 0 {
                        once_more(begun.owned, v.id)
                    } else {
                        begun.owned
                    },
                    tried: if needed {
                        begun.tried.push(factor_at(v.id, v.label, arms, places))
                    } else {
                        begun.tried
                    },
                };
                if needed && v.predicates.len() > 0 && !owns_center(set.graph, v.id, tags) {
                    Ok(next)
                } else if removed(arms, places).len() < arms.len() {
                    taken_at(set, v, removed(arms, places), next, trials)
                } else {
                    Ok(next)
                }
            }
        },
    }
}

/// The taking at the given centers, one after the other.
pub open spec fn taken_from(set: Setting, centers: Seq<VertexId>, trials: Seq<bool>) -> Result<
    Progress,
    Failure,
>
    decreases centers.len(),
{
    if centers.len() == 0 {
        Ok(
            Progress {
                factors: Seq::empty(),
                sampled: Seq::empty(),
                owned: Seq::empty(),
                tried: Seq::empty(),
            },
        )
    } else {
        match taken_from(set, centers.drop_last(), trials) {
            Err(error) => Err(error),
            Ok(before) => match set.graph.vertex(centers.last()) {
                None => Ok(before),
                Some(v) => taken_at(
                    set,
                    v,
                    tags_sorted(
                        unused(
                            leaf_arms(
                                set.graph,
                                set.lenient,
                                v.id,
                                set.graph.edges.len() as int,
                            ),
                            before.factors,
                            1,
                        ),
                    ),
                    before,
                    trials,
                ),
            },
        }
    }
}

/// What was tried before does not depend on what is tried later.
proof fn lemma_taken_at_prefix(
    set: Setting,
    v: VertexView,
    arms: Seq<TaggedView>,
    begun: Progress,
    a: Seq<bool>,
    b: Seq<bool>,
    n: int,
)
    requires
        0 <= n <= a.len(),
        n <= b.len(),
        forall|i: int| 0 <= i < n ==> a[i] == b[i],
        taken_at(set, v, arms, begun, a) matches Ok(end) ==> end.tried.len() <= n,
        taken_at(set, v, arms, begun, a) is Ok,
    ensures
        taken_at(set, v, arms, begun, b) == taken_at(set, v, arms, begun, a),
    decreases arms.len(),
{
    lemma_tried_grows(set, v, arms, begun, a);
    if let Some(places) = taken(set.catalog, v.label, arms, set.max, false) {
        let tags = tags_at(arms, places);
        let needed = star_is_conditioned(set.graph, v, tags) && set.sampling;
        if needed && set.data is Some && compiled_star(
            set.graph,
            set.data->0,
            v.id,
            arms_along(set.graph, v.id, tags),
        ) is Ok {
            let next = Progress {
                factors: begun.factors.push(factor_at(v.id, v.label, arms, places)),
                sampled: begun.sampled.push(needed),
                owned: if needed && v.predicates.len() > 0 {
                    once_more(begun.owned, v.id)
                } else {
                    begun.owned
                },
                tried: begun.tried.push(factor_at(v.id, v.label, arms, places)),
            };
            if a[begun.tried.len() as int] && removed(arms, places).len() < arms.len() {
                lemma_tried_grows(set, v, removed(arms, places), next, a);
                if !(v.predicates.len() > 0 && !owns_center(set.graph, v.id, tags)) {
                    lemma_taken_at_prefix(set, v, removed(arms, places), next, a, b, n);
                }
            }
            assert(begun.tried.len() < n);
        } else if !needed && removed(arms, places).len() < arms.len() {
            let next = Progress {
                factors: begun.factors.push(factor_at(v.id, v.label, arms, places)),
                sampled: begun.sampled.push(needed),
                owned: begun.owned,
                tried: begun.tried,
            };
            lemma_taken_at_prefix(set, v, removed(arms, places), next, a, b, n);
        }
    }
}

proof fn lemma_tried_grows(
    set: Setting,
    v: VertexView,
    arms: Seq<TaggedView>,
    begun: Progress,
    trials: Seq<bool>,
)
    ensures
        taken_at(set, v, arms, begun, trials) matches Ok(end) ==> end.tried.len() >= begun.tried.len(),
    decreases arms.len(),
{
    if let Some(places) = taken(set.catalog, v.label, arms, set.max, false) {
        let tags = tags_at(arms, places);
        let needed = star_is_conditioned(set.graph, v, tags) && set.sampling;
        if removed(arms, places).len() < arms.len() {
            let next = Progress {
                factors: begun.factors.push(factor_at(v.id, v.label, arms, places)),
                sampled: begun.sampled.push(needed),
                owned: if needed && v.predicates.len() > 0 {
                    once_more(begun.owned, v.id)
                } else {
                    begun.owned
                },
                tried: if needed {
                    begun.tried.push(factor_at(v.id, v.label, arms, places))
                } else {
                    begun.tried
                },
            };
            lemma_tried_grows(set, v, removed(arms, places), next, trials);
        }
    }
}

proof fn lemma_taken_from_prefix(
    set: Setting,
    centers: Seq<VertexId>,
    a: Seq<bool>,
    b: Seq<bool>,
    n: int,
)
    requires
        0 <= n <= a.len(),
        n <= b.len(),
        forall|i: int| 0 <= i < n ==> a[i] == b[i],
        taken_from(set, centers, a) is Ok,
        taken_from(set, centers, a)->Ok_0.tried.len() <= n,
    ensures
        taken_from(set, centers, b) == taken_from(set, centers, a),
    decreases centers.len(),
{
    if centers.len() > 0 {
        let before = taken_from(set, centers.drop_last(), a)->Ok_0;
        match set.graph.vertex(centers.last()) {
            None => {
                lemma_taken_from_prefix(set, centers.drop_last(), a, b, n);
            },
            Some(v) => {
                let arms = tags_sorted(
                    unused(
                        leaf_arms(set.graph, set.lenient, v.id, set.graph.edges.len() as int),
                        before.factors,
                        1,
                    ),
                );
                lemma_tried_grows(set, v, arms, before, a);
                lemma_taken_from_prefix(set, centers.drop_last(), a, b, n);
                lemma_taken_at_prefix(set, v, arms, before, a, b, n);
            },
        }
    }
}

/// Stars that were taken out of a query. Those with a predicate come with a sample, which is
/// evidence. Of each star that was tried a trial says whether a sample was.
#[derive(Debug, Clone)]
pub struct RawStarExtraction {
    pub factors: Vec<LocalFactor>,
    pub samples: Vec<Option<CenterSample>>,
    pub owned_predicate_vertices: Vec<VertexId>,
    pub tried: Vec<LocalFactor>,
    pub trials: Vec<bool>,
}

impl RawStarExtraction {
    /// How far the taking has come.
    pub open spec fn progress(self) -> Progress {
        Progress {
            factors: factor_views(self.factors@),
            sampled: self.samples@.map_values(|s: Option<CenterSample>| s is Some),
            owned: self.owned_predicate_vertices@,
            tried: factor_views(self.tried@),
        }
    }
}

/// Whether a star was tried: it was sampled, or there was nothing to sample, and this tells whether
/// that is evidence.
pub open spec fn is_trial(
    set: Setting,
    size: nat,
    factor: FactorView,
    before: Map<Seq<char>, Seq<VertexId>>,
    after: Map<Seq<char>, Seq<VertexId>>,
    seen: Option<CenterSample>,
    shows: bool,
) -> bool {
    let arms = arms_along(set.graph, factor.center, factor.tags);
    &&& set.data matches Some(data)
    &&& compiled_star(set.graph, data, factor.center, arms) matches Ok(star)
    &&& is_sampling_of_star(data, star, size, star_key(star, arms), before, after, seen)
    &&& shows == (seen matches Some(sample) && sample.is_enough(
        data.labelled(star.center_label).len(),
    ))
}

/// Whether the sample of a star is what a trial of the star has shown.
pub open spec fn is_shown(
    done: RawStarExtraction,
    seen: Seq<Option<CenterSample>>,
    j: int,
    i: int,
) -> bool {
    &&& 0 <= i < done.trials@.len()
    &&& done.trials@[i]
    &&& done.tried@[i]@ == done.factors@[j]@
    &&& seen[i] == done.samples@[j]
}

/// Whether stars were tried one after the other, while the cache held one thing after the other,
/// and those with a sample are among them.
pub open spec fn are_trials(
    set: Setting,
    size: nat,
    done: RawStarExtraction,
    seen: Seq<Option<CenterSample>>,
    held: Seq<Map<Seq<char>, Seq<VertexId>>>,
) -> bool {
    &&& done.tried@.len() == done.trials@.len()
    &&& seen.len() == done.trials@.len()
    &&& held.len() == done.trials@.len() + 1
    &&& forall|i: int|
        #![trigger seen[i]]
        0 <= i < seen.len() ==> is_trial(
            set,
            size,
            done.tried@[i]@,
            held[i],
            held[i + 1],
            seen[i],
            done.trials@[i],
        )
    &&& done.samples@.len() == done.factors@.len()
    &&& forall|j: int|
        #![trigger done.samples@[j]]
        0 <= j < done.samples@.len() && done.samples@[j] is Some ==> exists|i: int| #[trigger]
            is_shown(done, seen, j, i)
}

/// Whether what was taken is in keeping with what was tried, which the cache tells from before and
/// after.
pub open spec fn is_recorded(
    set: Setting,
    size: nat,
    done: RawStarExtraction,
    before: Map<Seq<char>, Seq<VertexId>>,
    after: Map<Seq<char>, Seq<VertexId>>,
) -> bool {
    exists|
        seen: Seq<Option<CenterSample>>,
        held: Seq<Map<Seq<char>, Seq<VertexId>>>,
    | #[trigger]
        are_trials(set, size, done, seen, held) && held.first() == before && held.last() == after
}

/// One more star is tried.
proof fn lemma_tried(
    set: Setting,
    size: nat,
    a: RawStarExtraction,
    b: RawStarExtraction,
    begin: Map<Seq<char>, Seq<VertexId>>,
    before: Map<Seq<char>, Seq<VertexId>>,
    after: Map<Seq<char>, Seq<VertexId>>,
    seen: Option<CenterSample>,
)
    requires
        is_recorded(set, size, a, begin, before),
        b.trials@.len() > 0,
        b.tried@.len() > 0,
        b.trials@.drop_last() == a.trials@,
        b.tried@.drop_last() == a.tried@,
        is_trial(set, size, b.tried@.last()@, before, after, seen, b.trials@.last()),
        (b.factors@ == a.factors@ && b.samples@ == a.samples@) || (b.trials@.last()
            && b.factors@.len() > 0 && b.samples@.len() > 0 && b.factors@.drop_last()
            == a.factors@ && b.samples@.drop_last() == a.samples@ && b.samples@.last() == seen
            && b.factors@.last()@ == b.tried@.last()@),
    ensures
        is_recorded(set, size, b, begin, after),
{
    let (some, held) = choose|
        some: Seq<Option<CenterSample>>,
        held: Seq<Map<Seq<char>, Seq<VertexId>>>,
    | #[trigger]
        are_trials(set, size, a, some, held) && held.first() == begin && held.last() == before;
    let all = some.push(seen);
    let states = held.push(after);
    assert forall|i: int| #![trigger all[i]] 0 <= i < all.len() implies is_trial(
        set,
        size,
        b.tried@[i]@,
        states[i],
        states[i + 1],
        all[i],
        b.trials@[i],
    ) by {
        if i < some.len() {
            assert(all[i] == some[i]);
            assert(b.trials@.drop_last()[i] == a.trials@[i]);
            assert(b.tried@.drop_last()[i] == a.tried@[i]);
        }
    }
    assert forall|j: int|
        #![trigger b.samples@[j]]
        0 <= j < b.samples@.len() && b.samples@[j] is Some implies exists|i: int| #[trigger]
        is_shown(b, all, j, i) by {
        if j < a.samples@.len() {
            if b.samples@ != a.samples@ {
                assert(b.samples@.drop_last()[j] == a.samples@[j]);
                assert(b.factors@.drop_last()[j] == a.factors@[j]);
            }
            assert(a.samples@[j] is Some);
            let i = choose|i: int| #[trigger] is_shown(a, some, j, i);
            assert(b.trials@.drop_last()[i] == a.trials@[i]);
            assert(b.tried@.drop_last()[i] == a.tried@[i]);
            assert(is_shown(b, all, j, i));
        } else {
            assert(is_shown(b, all, j, some.len() as int));
        }
    }
    assert(are_trials(set, size, b, all, states));
}

/// A star is taken without a sample.
proof fn lemma_taken_plain(
    set: Setting,
    size: nat,
    a: RawStarExtraction,
    b: RawStarExtraction,
    begin: Map<Seq<char>, Seq<VertexId>>,
    after: Map<Seq<char>, Seq<VertexId>>,
)
    requires
        is_recorded(set, size, a, begin, after),
        b.trials@ == a.trials@,
        b.tried@ == a.tried@,
        b.factors@.len() > 0,
        b.samples@.len() > 0,
        b.factors@.drop_last() == a.factors@,
        b.samples@.drop_last() == a.samples@,
        b.samples@.last() is None,
    ensures
        is_recorded(set, size, b, begin, after),
{
    let (seen, held) = choose|
        seen: Seq<Option<CenterSample>>,
        held: Seq<Map<Seq<char>, Seq<VertexId>>>,
    | #[trigger]
        are_trials(set, size, a, seen, held) && held.first() == begin && held.last() == after;
    assert forall|j: int|
        #![trigger b.samples@[j]]
        0 <= j < b.samples@.len() && b.samples@[j] is Some implies exists|i: int| #[trigger]
        is_shown(b, seen, j, i) by {
        assert(b.samples@.drop_last()[j] == a.samples@[j]);
        assert(b.factors@.drop_last()[j] == a.factors@[j]);
        let i = choose|i: int| #[trigger] is_shown(a, seen, j, i);
        assert(is_shown(b, seen, j, i));
    }
    assert(are_trials(set, size, b, seen, held));
}

/// The setting that the arguments describe.
pub open spec fn setting(
    graph: GraphView,
    flat_graph: Option<&FlatGraph>,
    catalog: DegreeSeqGraph,
    size: nat,
    mode: PredicateApplyType,
    max: nat,
) -> Setting {
    Setting {
        graph,
        data: match flat_graph {
            Some(f) => Some(f@),
            None => None,
        },
        catalog,
        sampling: samples_predicates(mode),
        lenient: mode == PredicateApplyType::IGNORE || (flat_graph is Some && size > 0),
        max,
    }
}

/// Whether the tags of arms are edges at a center that lead to vertices of the graph.
spec fn lead_away(graph: GraphView, center: VertexId, arms: Seq<TaggedView>) -> bool {
    forall|i: int|
        #![trigger arms[i]]
        0 <= i < arms.len() ==> graph.edge(arms[i].tag) is Some && graph.vertex(
            other_end(graph.edge(arms[i].tag)->0, center),
        ) is Some
}

proof fn lemma_leaf_arms_lead(graph: GraphView, lenient: bool, center: VertexId, n: int)
    requires
        graph.wf(),
        0 <= n <= graph.edges.len(),
    ensures
        lead_away(graph, center, leaf_arms(graph, lenient, center, n)),
    decreases n,
{
    if n > 0 {
        lemma_leaf_arms_lead(graph, lenient, center, n - 1);
        lemma_edge_at(graph, n - 1);
        assert(graph.vertex_at(graph.edges[n - 1].src) is Some);
        let before = leaf_arms(graph, lenient, center, n - 1);
        let all = leaf_arms(graph, lenient, center, n);
        assert forall|i: int| #![trigger all[i]] 0 <= i < all.len() implies graph.edge(
            all[i].tag,
        ) is Some && graph.vertex(other_end(graph.edge(all[i].tag)->0, center)) is Some by {
            if i < before.len() {
                assert(all[i] == before[i]);
            }
        }
    }
}

proof fn lemma_unused_lead(
    graph: GraphView,
    center: VertexId,
    arms: Seq<TaggedView>,
    factors: Seq<FactorView>,
)
    requires
        lead_away(graph, center, arms),
    ensures
        lead_away(graph, center, unused(arms, factors, 1)),
    decreases arms.len(),
{
    if arms.len() > 0 {
        let head = arms.drop_last();
        assert forall|i: int| #![trigger head[i]] 0 <= i < head.len() implies graph.edge(
            head[i].tag,
        ) is Some && graph.vertex(other_end(graph.edge(head[i].tag)->0, center)) is Some by {
            assert(arms[i] == head[i]);
        }
        lemma_unused_lead(graph, center, head, factors);
        assert(arms[arms.len() - 1] == arms.last());
    }
}

proof fn lemma_placed_lead(
    graph: GraphView,
    center: VertexId,
    arms: Seq<TaggedView>,
    x: TaggedView,
)
    requires
        lead_away(graph, center, arms),
        graph.edge(x.tag) is Some,
        graph.vertex(other_end(graph.edge(x.tag)->0, center)) is Some,
    ensures
        lead_away(graph, center, tag_placed(arms, x)),
    decreases arms.len(),
{
    if arms.len() > 0 {
        let head = arms.drop_last();
        assert forall|i: int| #![trigger head[i]] 0 <= i < head.len() implies graph.edge(
            head[i].tag,
        ) is Some && graph.vertex(other_end(graph.edge(head[i].tag)->0, center)) is Some by {
            assert(arms[i] == head[i]);
        }
        lemma_placed_lead(graph, center, head, x);
        assert(arms[arms.len() - 1] == arms.last());
    }
}

proof fn lemma_sorted_lead(graph: GraphView, center: VertexId, arms: Seq<TaggedView>)
    requires
        lead_away(graph, center, arms),
    ensures
        lead_away(graph, center, tags_sorted(arms)),
    decreases arms.len(),
{
    if arms.len() > 0 {
        let head = arms.drop_last();
        assert forall|i: int| #![trigger head[i]] 0 <= i < head.len() implies graph.edge(
            head[i].tag,
        ) is Some && graph.vertex(other_end(graph.edge(head[i].tag)->0, center)) is Some by {
            assert(arms[i] == head[i]);
        }
        lemma_sorted_lead(graph, center, head);
        assert(arms[arms.len() - 1] == arms.last());
        lemma_placed_lead(graph, center, tags_sorted(head), arms.last());
    }
}

proof fn lemma_removed_lead(
    graph: GraphView,
    center: VertexId,
    arms: Seq<TaggedView>,
    places: Seq<usize>,
)
    requires
        lead_away(graph, center, arms),
        is_selection(places, arms.len(), places.len()),
    ensures
        lead_away(graph, center, removed(arms, places)),
    decreases places.len(),
{
    if places.len() > 0 {
        let last = places.last() as int;
        let fewer = arms.remove(last);
        let rest = places.drop_last();
        assert(places[places.len() - 1] < arms.len());
        assert forall|i: int| #![trigger fewer[i]] 0 <= i < fewer.len() implies graph.edge(
            fewer[i].tag,
        ) is Some && graph.vertex(other_end(graph.edge(fewer[i].tag)->0, center)) is Some by {
            if i < last {
                assert(fewer[i] == arms[i]);
            } else {
                assert(fewer[i] == arms[i + 1]);
            }
        }
        assert forall|i: int| 0 <= i < rest.len() implies #[trigger] rest[i] < fewer.len() by {
            assert(places[i] < places[places.len() - 1]);
        }
        assert forall|i: int, j: int|
            #![trigger rest[i], rest[j]]
            0 <= i < j < rest.len() implies rest[i] < rest[j] by {
            assert(places[i] < places[j]);
        }
        lemma_removed_lead(graph, center, fewer, rest);
    }
}

impl QueryGraph {
    fn find_leaf_arms(&self, lenient: bool, center: VertexId) -> (result: Vec<TaggedArm>)
        requires
            self@.wf(),
        ensures
            tagged_views(result@) == leaf_arms(
                self@,
                lenient,
                center,
                self@.edges.len() as int,
            ),
    {
        let ghost graph = self@;
        let mut result: Vec<TaggedArm> = Vec::new();
        let mut i: usize = 0;
        assert(tagged_views(result@) =~= Seq::empty());
        while i < self.edges.len()
            invariant
                self@.wf(),
                graph == self@,
                i <= self.edges@.len(),
                tagged_views(result@) == leaf_arms(graph, lenient, center, i as int),
            decreases self.edges.len() - i,
        {
            let e: &QueryEdge = &self.edges[i];
            assert(graph.edges[i as int] == e@);
            assert(graph.vertex_at(graph.edges[i as int].src) is Some);
            let src: &QueryVertex = self.get_vertex(e.src_vertex_id).unwrap();
            let dst: &QueryVertex = self.get_vertex(e.dst_vertex_id).unwrap();
            assert(predicate_views(e.predicates@).len() == e.predicates@.len());
            assert(predicate_views(src.predicates@).len() == src.predicates@.len());
            assert(predicate_views(dst.predicates@).len() == dst.predicates@.len());
            let conditioned: bool = e.predicates.len() > 0 || src.predicates.len() > 0
                || dst.predicates.len() > 0;
            if !conditioned || lenient {
                let ghost before = result@;
                if e.src_vertex_id == center && self.get_degree(e.dst_vertex_id) == 1 {
                    let arm = TaggedArm {
                        tag: e.id,
                        pattern: one_hop(&src.label, &dst.label, &e.label),
                    };
                    result.push(arm);
                    assert(tagged_views(result@) =~= tagged_views(before).push(
                        hop_arm(graph, e@, e@.src, e@.dst),
                    ));
                }
                let ghost between = result@;
                if e.dst_vertex_id == center && self.get_degree(e.src_vertex_id) == 1 {
                    let arm = TaggedArm {
                        tag: e.id,
                        pattern: one_hop(&dst.label, &src.label, &e.label),
                    };
                    result.push(arm);
                    assert(tagged_views(result@) =~= tagged_views(between).push(
                        hop_arm(graph, e@, e@.dst, e@.src),
                    ));
                }
            }
            i = i + 1;
        }
        result
    }

    fn star_has_condition(&self, v: &QueryVertex, tags: &Vec<u64>) -> (result: bool)
        requires
            self@.wf(),
            forall|i: int|
                #![trigger tags@[i]]
                0 <= i < tags@.len() ==> self@.edge(tags@[i]) is Some && self@.vertex(
                    other_end(self@.edge(tags@[i])->0, v.id),
                ) is Some,
        ensures
            result == star_is_conditioned(self@, v@, tags@),
    {
        assert(predicate_views(v.predicates@).len() == v.predicates@.len());
        if v.predicates.len() > 0 {
            return true;
        }
        let mut i: usize = 0;
        while i < tags.len()
            invariant
                self@.wf(),
                forall|j: int|
                    #![trigger tags@[j]]
                    0 <= j < tags@.len() ==> self@.edge(tags@[j]) is Some && self@.vertex(
                        other_end(self@.edge(tags@[j])->0, v.id),
                    ) is Some,
                v@.predicates.len() == 0,
                i <= tags@.len(),
                forall|j: int| 0 <= j < i ==> !has_condition(self@, v.id, #[trigger] tags@[j]),
            decreases tags.len() - i,
        {
            let e: &QueryEdge = self.get_edge(tags[i]).unwrap();
            let leaf_id: VertexId = if e.src_vertex_id == v.id {
                e.dst_vertex_id
            } else {
                e.src_vertex_id
            };
            let leaf: &QueryVertex = self.get_vertex(leaf_id).unwrap();
            assert(predicate_views(e.predicates@).len() == e.predicates@.len());
            assert(predicate_views(leaf.predicates@).len() == leaf.predicates@.len());
            if e.predicates.len() > 0 || leaf.predicates.len() > 0 {
                assert(has_condition(self@, v.id, tags@[i as int]));
                return true;
            }
            i = i + 1;
        }
        false
    }

    fn owns_all_at(&self, center: VertexId, tags: &Vec<u64>) -> (result: bool)
        ensures
            result == owns_center(self@, center, tags@),
    {
        let ghost graph = self@;
        let mut i: usize = 0;
        while i < self.edges.len()
            invariant
                graph == self@,
                i <= self.edges@.len(),
                forall|k: int|
                    #![trigger graph.edges[k]]
                    0 <= k < i && (graph.edges[k].src == center || graph.edges[k].dst == center)
                        ==> tags@.contains(graph.edges[k].id),
            decreases self.edges.len() - i,
        {
            let e: &QueryEdge = &self.edges[i];
            assert(graph.edges[i as int] == e@);
            if (e.src_vertex_id == center || e.dst_vertex_id == center) && !contains_id(
                tags,
                e.id,
            ) {
                return false;
            }
            i = i + 1;
        }
        true
    }

    /// Takes stars at a center, from the arms that are left there.
    fn take_at(
        &self,
        done: &mut RawStarExtraction,
        v: &QueryVertex,
        arms: Vec<TaggedArm>,
        catalog: &DegreeSeqGraph,
        flat_graph: Option<&FlatGraph>,
        sample_size: usize,
        mode: PredicateApplyType,
        max_star_degree: usize,
        cache: &mut DashMap<String, Vec<VertexId>>,
        Ghost(begin): Ghost<Map<Seq<char>, Seq<VertexId>>>,
    ) -> (result: Result<(), StarError>)
        requires
            self@.wf(),
            self@.vertex(v.id) == Some(v@),
            lead_away(self@, v.id, tagged_views(arms@)),
            is_recorded(
                setting(
                    self@,
                    flat_graph,
                    *catalog,
                    sample_size as nat,
                    mode,
                    max_star_degree as nat,
                ),
                sample_size as nat,
                *old(done),
                begin,
                contents(*old(cache)),
            ),
        ensures
            old(done).trials@.is_prefix_of(final(done).trials@),
            ({
                let set = setting(
                    self@,
                    flat_graph,
                    *catalog,
                    sample_size as nat,
                    mode,
                    max_star_degree as nat,
                );
                let end = taken_at(
                    set,
                    v@,
                    tagged_views(arms@),
                    old(done).progress(),
                    final(done).trials@,
                );
                &&& match result {
                    Ok(_) => end == Ok::<_, Failure>(final(done).progress()),
                    Err(error) => end == Err::<Progress, _>(
                        Failure { begun: final(done).progress(), error: error@ },
                    ),
                }
                &&& is_recorded(
                    set,
                    sample_size as nat,
                    *final(done),
                    begin,
                    contents(*final(cache)),
                )
            }),
        decreases arms@.len(),
    {
        let ghost set = setting(
            self@,
            flat_graph,
            *catalog,
            sample_size as nat,
            mode,
            max_star_degree as nat,
        );
        let ghost views = tagged_views(arms@);
        let ghost begun = done.progress();
        let ghost start = *done;
        let ghost kept = contents(*cache);
        proof {
            assert(arms.len() == arms@.len());
            let (seen, held) = choose|
                seen: Seq<Option<CenterSample>>,
                held: Seq<Map<Seq<char>, Seq<VertexId>>>,
            | #[trigger]
                are_trials(set, sample_size as nat, start, seen, held) && held.first() == begin
                    && held.last() == kept;
            assert(start.tried@.len() == start.trials@.len());
            taken_is_a_selection(*catalog, v@.label, views, max_star_degree as nat, false);
        }
        let places: Vec<usize> = match take_star(
            v.label.as_str(),
            &arms,
            max_star_degree,
            false,
            catalog,
        ) {
            None => {
                return Ok(());
            },
            Some(places) => places,
        };
        let factor: LocalFactor = make_factor(v.id, v.label.as_str(), &arms, &places);
        let ghost tags = tags_at(views, places@);
        assert(factor.tags@ == tags);
        proof {
            lemma_removed_len(views, places@);
            lemma_removed_lead(self@, v.id, views, places@);
            assert forall|i: int| #![trigger tags[i]] 0 <= i < tags.len() implies self@.edge(
                tags[i],
            ) is Some && self@.vertex(other_end(self@.edge(tags[i])->0, v.id)) is Some by {
                assert(views[places@[i] as int].tag == tags[i]);
            }
            assert(predicate_views(v.predicates@).len() == v.predicates@.len());
        }
        let sampling: bool = match mode {
            PredicateApplyType::IGNORE => false,
            _ => true,
        };
        let needed: bool = self.star_has_condition(v, &factor.tags) && sampling;
        let mut sample: Option<CenterSample> = None;
        if needed {
            let fg: &FlatGraph = match flat_graph {
                None => {
                    return Ok(());
                },
                Some(fg) => fg,
            };
            let raw: Vec<RawStarArm> = self.arms_along(v.id, &factor.tags);
            match self.sample_filtered_raw_star(v.id, &raw, fg, sample_size, cache) {
                Err(error) => {
                    return Err(error);
                },
                Ok(None) => {
                    done.trials.push(false);
                    done.tried.push(factor);
                    proof {
                        lemma_factor_views(start.tried@, factor);
                        assert(done.trials@.drop_last() =~= start.trials@);
                        assert(done.tried@.drop_last() =~= start.tried@);
                        lemma_tried(
                            set,
                            sample_size as nat,
                            start,
                            *done,
                            begin,
                            kept,
                            contents(*cache),
                            None,
                        );
                    }
                    return Ok(());
                },
                Ok(Some(found)) => {
                    let population: usize = fg.vertex_count_by_label(v.label.as_str());
                    if !found.enough(population) {
                        done.trials.push(false);
                        done.tried.push(factor);
                        proof {
                            lemma_factor_views(start.tried@, factor);
                            assert(done.trials@.drop_last() =~= start.trials@);
                            assert(done.tried@.drop_last() =~= start.tried@);
                            lemma_tried(
                                set,
                                sample_size as nat,
                                start,
                                *done,
                                begin,
                                kept,
                                contents(*cache),
                                Some(found),
                            );
                        }
                        return Ok(());
                    }
                    done.trials.push(true);
                    let again: LocalFactor = make_factor(v.id, v.label.as_str(), &arms, &places);
                    done.tried.push(again);
                    proof {
                        lemma_factor_views(start.tried@, again);
                        assert(factor@ =~= again@);
                    }
                    sample = Some(found);
                },
            }
        }
        let conditioned: bool = v.predicates.len() > 0;
        let partial: bool = needed && conditioned && !self.owns_all_at(v.id, &factor.tags);
        if needed && conditioned && !contains_id(&done.owned_predicate_vertices, v.id) {
            done.owned_predicate_vertices.push(v.id);
        }
        done.factors.push(factor);
        done.samples.push(sample);
        let ghost next = done.progress();
        proof {
            assert(next.factors =~= begun.factors.push(
                factor_at(v.id, v@.label, views, places@),
            ));
            assert(next.sampled =~= begun.sampled.push(needed));
            assert(done.factors@.drop_last() =~= start.factors@);
            assert(done.samples@.drop_last() =~= start.samples@);
            if needed {
                assert(done.trials@.drop_last() =~= start.trials@);
                assert(done.tried@.drop_last() =~= start.tried@);
                lemma_tried(
                    set,
                    sample_size as nat,
                    start,
                    *done,
                    begin,
                    kept,
                    contents(*cache),
                    sample,
                );
            } else {
                lemma_taken_plain(set, sample_size as nat, start, *done, begin, kept);
            }
        }
        if partial {
            return Ok(());
        }
        let mut left: Vec<TaggedArm> = arms;
        remove_arms(&mut left, &places);
        let ghost tried = done.trials@;
        let result = self.take_at(
            done,
            v,
            left,
            catalog,
            flat_graph,
            sample_size,
            mode,
            max_star_degree,
            cache,
            Ghost(begin),
        );
        proof {
            if needed {
                let n = begun.tried.len() as int;
                assert(tried[n]);
                assert(done.trials@[n] == tried[n]);
            }
        }
        result
    }
}

impl QueryGraph {
    /// The ids of the vertices.
    fn all_vertex_ids(&self) -> (result: Vec<VertexId>)
        ensures
            result@ == vertex_ids(self@),
    {
        let mut result: Vec<VertexId> = Vec::new();
        let mut i: usize = 0;
        while i < self.vertices.len()
            invariant
                i <= self.vertices@.len(),
                result@.len() == i,
                forall|j: int|
                    #![trigger result@[j]]
                    0 <= j < i ==> result@[j] == self.vertices@[j].id,
            decreases self.vertices.len() - i,
        {
            result.push(self.vertices[i].id);
            i = i + 1;
        }
        assert(result@ =~= vertex_ids(self@));
        result
    }

    /// Takes stars of the catalog out of the query, at one center after the other.
    pub fn extract_stars(
        &self,
        catalog: &DegreeSeqGraph,
        flat_graph: Option<&FlatGraph>,
        sample_size: usize,
        mode: PredicateApplyType,
        max_star_degree: usize,
        cache: &mut DashMap<String, Vec<VertexId>>,
    ) -> (result: Result<RawStarExtraction, StarError>)
        requires
            self@.wf(),
        ensures
            ({
                let set = setting(
                    self@,
                    flat_graph,
                    *catalog,
                    sample_size as nat,
                    mode,
                    max_star_degree as nat,
                );
                let centers = sorted(vertex_ids(self@));
                match result {
                    Ok(done) => taken_from(set, centers, done.trials@) == Ok::<_, Failure>(
                        done.progress(),
                    ) && is_recorded(
                        set,
                        sample_size as nat,
                        done,
                        contents(*old(cache)),
                        contents(*final(cache)),
                    ),
                    Err(error) => exists|done: RawStarExtraction| #[trigger]
                        is_broken_off(
                            set,
                            sample_size as nat,
                            centers,
                            done,
                            contents(*old(cache)),
                            contents(*final(cache)),
                            error@,
                        ),
                }
            }),
    {
        let ghost graph = self@;
        let ghost set = setting(
            self@,
            flat_graph,
            *catalog,
            sample_size as nat,
            mode,
            max_star_degree as nat,
        );
        let lenient: bool = match mode {
            PredicateApplyType::IGNORE => true,
            _ => match flat_graph {
                Some(_) => sample_size > 0,
                None => false,
            },
        };
        let centers: Vec<VertexId> = sort(self.all_vertex_ids());
        let mut done = RawStarExtraction {
            factors: Vec::new(),
            samples: Vec::new(),
            owned_predicate_vertices: Vec::new(),
            tried: Vec::new(),
            trials: Vec::new(),
        };
        let ghost begin = contents(*cache);
        let mut i: usize = 0;
        proof {
            assert(are_trials(set, sample_size as nat, done, Seq::empty(), seq![begin]));
            assert(centers@.take(0) =~= Seq::empty());
            assert(done.progress() =~= (Progress {
                factors: Seq::empty(),
                sampled: Seq::empty(),
                owned: Seq::empty(),
                tried: Seq::empty(),
            }));
        }
        while i < centers.len()
            invariant
                self@.wf(),
                graph == self@,
                set == setting(
                    self@,
                    flat_graph,
                    *catalog,
                    sample_size as nat,
                    mode,
                    max_star_degree as nat,
                ),
                lenient == set.lenient,
                centers@ == sorted(vertex_ids(graph)),
                i <= centers@.len(),
                taken_from(set, centers@.take(i as int), done.trials@) == Ok::<_, Failure>(
                    done.progress(),
                ),
                begin == contents(*old(cache)),
                is_recorded(set, sample_size as nat, done, begin, contents(*cache)),
            decreases centers.len() - i,
        {
            let ghost head = centers@.take(i as int);
            let ghost more = centers@.take(i + 1);
            assert(more.drop_last() =~= head);
            assert(more.last() == centers@[i as int]);
            let ghost before = done.progress();
            let ghost tried = done.trials@;
            proof {
                let (seen, held) = choose|
                    seen: Seq<Option<CenterSample>>,
                    held: Seq<Map<Seq<char>, Seq<VertexId>>>,
                | #[trigger]
                    are_trials(set, sample_size as nat, done, seen, held) && held.first() == begin
                        && held.last() == contents(*cache);
                assert(before.tried.len() == tried.len());
            }
            let center: VertexId = centers[i];
            if let Some(v) = self.get_vertex(center) {
                let found: Vec<TaggedArm> = self.find_leaf_arms(lenient, center);
                let arms: Vec<TaggedArm> = keep_unused(found, &done.factors, 1);
                proof {
                    lemma_leaf_arms_lead(graph, lenient, center, graph.edges.len() as int);
                    lemma_unused_lead(
                        graph,
                        center,
                        leaf_arms(graph, lenient, center, graph.edges.len() as int),
                        before.factors,
                    );
                    lemma_sorted_lead(graph, center, tagged_views(arms@));
                    lemma_sorted_tags(arms@);
                }
                let arms: Vec<TaggedArm> = sort(arms);
                let outcome = self.take_at(
                    &mut done,
                    v,
                    arms,
                    catalog,
                    flat_graph,
                    sample_size,
                    mode,
                    max_star_degree,
                    cache,
                    Ghost(begin),
                );
                proof {
                    lemma_taken_from_prefix(set, head, tried, done.trials@, tried.len() as int);
                }
                if let Err(error) = outcome {
                    proof {
                        lemma_failure_stays(set, centers@, done.trials@, i + 1);
                        assert(is_broken_off(
                            set,
                            sample_size as nat,
                            centers@,
                            done,
                            begin,
                            contents(*cache),
                            error@,
                        ));
                    }
                    return Err(error);
                }
            }
            i = i + 1;
        }
        assert(centers@.take(i as int) =~= centers@);
        Ok(done)
    }
}

/// Whether the taking of stars was broken off, after what was tried.
pub open spec fn is_broken_off(
    set: Setting,
    size: nat,
    centers: Seq<VertexId>,
    done: RawStarExtraction,
    before: Map<Seq<char>, Seq<VertexId>>,
    after: Map<Seq<char>, Seq<VertexId>>,
    error: StarErrorView,
) -> bool {
    &&& taken_from(set, centers, done.trials@) == Err::<Progress, _>(
        Failure { begun: done.progress(), error },
    )
    &&& is_recorded(set, size, done, before, after)
}

proof fn lemma_factor_views(factors: Seq<LocalFactor>, factor: LocalFactor)
    ensures
        factor_views(factors.push(factor)) == factor_views(factors).push(factor@),
{
    assert(factor_views(factors.push(factor)) =~= factor_views(factors).push(factor@));
}

proof fn lemma_failure_stays(set: Setting, centers: Seq<VertexId>, trials: Seq<bool>, n: int)
    requires
        0 <= n <= centers.len(),
        taken_from(set, centers.take(n), trials) is Err,
    ensures
        taken_from(set, centers, trials) == taken_from(set, centers.take(n), trials),
    decreases centers.len(),
{
    if n == centers.len() {
        assert(centers.take(n) =~= centers);
    } else {
        assert(centers.drop_last().take(n) =~= centers.take(n));
        lemma_failure_stays(set, centers.drop_last(), trials, n);
    }
}

/// The tags of the arms of stars, one star after the other.
pub open spec fn tags_used(factors: Seq<FactorView>) -> Seq<u64>
    decreases factors.len(),
{
    if factors.len() == 0 {
        Seq::empty()
    } else {
        tags_used(factors.drop_last()) + factors.last().tags
    }
}

impl RawStarExtraction {
    /// The edges of the stars.
    pub fn consumed_edges(&self) -> (result: Vec<EdgeId>)
        ensures
            result@ == tags_used(factor_views(self.factors@)),
    {
        let ghost all = factor_views(self.factors@);
        let mut result: Vec<EdgeId> = Vec::new();
        let mut i: usize = 0;
        assert(all.take(0) =~= Seq::empty());
        while i < self.factors.len()
            invariant
                all == factor_views(self.factors@),
                i <= self.factors@.len(),
                result@ == tags_used(all.take(i as int)),
            decreases self.factors.len() - i,
        {
            assert(all.take(i + 1).drop_last() =~= all.take(i as int));
            assert(all.take(i + 1).last() == self.factors@[i as int]@);
            let mut more: Vec<u64> = copy_ids(&self.factors[i].tags);
            result.append(&mut more);
            i = i + 1;
        }
        assert(all.take(i as int) =~= all);
        result
    }
}

/// A branch that was taken out of a query, with a sample that is evidence.
#[derive(Debug, Clone)]
pub struct BranchExtraction {
    pub branch: RawN1Branch,
    pub sample: CenterSample,
}

/// The edges that a branch has: its root, then those of its arms.
pub open spec fn branch_edges(branch: RawBranchView) -> Seq<EdgeId> {
    seq![branch.root_edge_id] + (branch.leaf_arms + branch.center_leaf_arms).map_values(
        |a: RawArmView| a.edge_id,
    )
}

/// The vertices of a branch whose predicates are in its sample.
pub open spec fn branch_owned(graph: GraphView, branch: RawBranchView) -> Seq<VertexId> {
    let first = if graph.vertex(branch.center) matches Some(v) && v.predicates.len() > 0 {
        seq![branch.center]
    } else {
        Seq::empty()
    };
    if graph.vertex(branch.intermediate) matches Some(v) && v.predicates.len() > 0 {
        once_more(first, branch.intermediate)
    } else {
        first
    }
}

/// Whether a branch is the one to take: the first one with a predicate.
pub open spec fn is_branch_to_take(
    graph: GraphView,
    catalog: DegreeSeqGraph,
    max: nat,
    branch: RawBranchView,
) -> bool {
    &&& exists|i: int, center: VertexId|
        #![trigger is_branch_of(graph, catalog, max, i, center)]
        is_branch_of(graph, catalog, max, i, center) && branch == branch_at(
            graph,
            center,
            graph.edges[i],
        )
    &&& forall|i: int, center: VertexId|
        #![trigger is_branch_of(graph, catalog, max, i, center)]
        is_branch_of(graph, catalog, max, i, center) ==> branch_no_later(
            branch,
            branch_at(graph, center, graph.edges[i]),
        )
}

/// Whether a sample is one of a branch, and evidence.
pub open spec fn is_branch_evidence(
    graph: GraphView,
    data: FlatView,
    size: nat,
    branch: RawBranchView,
    before: Map<Seq<char>, Seq<VertexId>>,
    after: Map<Seq<char>, Seq<VertexId>>,
    sample: CenterSample,
) -> bool {
    &&& compiled_branch(graph, data, branch) matches Ok(compiled)
    &&& is_sampling_of_branch(
        data,
        compiled,
        size,
        branch_key(compiled, branch),
        before,
        after,
        Some(sample),
    )
    &&& sample.is_enough(data.labelled(compiled.center_label).len())
}

/// Whether a branch was sampled, or there was nothing to sample, and that is no evidence.
pub open spec fn falls_short(
    graph: GraphView,
    data: FlatView,
    size: nat,
    branch: RawBranchView,
    before: Map<Seq<char>, Seq<VertexId>>,
    after: Map<Seq<char>, Seq<VertexId>>,
    seen: Option<CenterSample>,
) -> bool {
    &&& compiled_branch(graph, data, branch) matches Ok(compiled)
    &&& is_sampling_of_branch(
        data,
        compiled,
        size,
        branch_key(compiled, branch),
        before,
        after,
        seen,
    )
    &&& !(seen matches Some(sample) && sample.is_enough(
        data.labelled(compiled.center_label).len(),
    ))
}

/// Whether no branch is taken: predicates are not sampled, there is no branch, or its sample is no
/// evidence.
pub open spec fn may_take_no_branch(
    graph: GraphView,
    flat_graph: Option<&FlatGraph>,
    catalog: DegreeSeqGraph,
    size: nat,
    mode: PredicateApplyType,
    max: nat,
    before: Map<Seq<char>, Seq<VertexId>>,
    after: Map<Seq<char>, Seq<VertexId>>,
) -> bool {
    if flat_graph is None || size == 0 || !samples_predicates(mode) || (forall|
        i: int,
        center: VertexId,
    |
        !#[trigger] is_branch_of(graph, catalog, max, i, center)) {
        after == before
    } else {
        exists|branch: RawBranchView, seen: Option<CenterSample>|
            #![trigger falls_short(graph, flat_graph->0@, size, branch, before, after, seen)]
            is_branch_to_take(graph, catalog, max, branch) && falls_short(
                graph,
                flat_graph->0@,
                size,
                branch,
                before,
                after,
                seen,
            )
    }
}

/// Whether the branch to take cannot be compiled.
pub open spec fn branch_fails(
    graph: GraphView,
    flat_graph: Option<&FlatGraph>,
    catalog: DegreeSeqGraph,
    size: nat,
    mode: PredicateApplyType,
    max: nat,
    error: StarErrorView,
) -> bool {
    &&& flat_graph is Some
    &&& size > 0
    &&& samples_predicates(mode)
    &&& exists|branch: RawBranchView|
        #![trigger compiled_branch(graph, flat_graph->0@, branch)]
        is_branch_to_take(graph, catalog, max, branch) && compiled_branch(
            graph,
            flat_graph->0@,
            branch,
        ) == Err::<crate::stars::BranchView, _>(error)
}

impl QueryGraph {
    /// Takes the first branch with a predicate out of the query, where predicates are sampled
    /// and a sample of it is evidence.
    pub fn extract_filtered_n1_branch(
        &self,
        catalog: &DegreeSeqGraph,
        flat_graph: Option<&FlatGraph>,
        sample_size: usize,
        mode: PredicateApplyType,
        max_star_degree: usize,
        cache: &mut DashMap<String, Vec<VertexId>>,
    ) -> (result: Result<Option<BranchExtraction>, StarError>)
        requires
            self@.wf(),
        ensures
            match result {
                Ok(Some(found)) => {
                    &&& flat_graph is Some
                    &&& sample_size > 0
                    &&& samples_predicates(mode)
                    &&& is_branch_to_take(
                        self@,
                        *catalog,
                        max_star_degree as nat,
                        found.branch@,
                    )
                    &&& is_branch_evidence(
                        self@,
                        flat_graph->0@,
                        sample_size as nat,
                        found.branch@,
                        contents(*old(cache)),
                        contents(*final(cache)),
                        found.sample,
                    )
                },
                Err(error) => branch_fails(
                    self@,
                    flat_graph,
                    *catalog,
                    sample_size as nat,
                    mode,
                    max_star_degree as nat,
                    error@,
                ) && contents(*final(cache)) == contents(*old(cache)),
                Ok(None) => may_take_no_branch(
                    self@,
                    flat_graph,
                    *catalog,
                    sample_size as nat,
                    mode,
                    max_star_degree as nat,
                    contents(*old(cache)),
                    contents(*final(cache)),
                ),
            },
    {
        let fg: &FlatGraph = match flat_graph {
            None => {
                return Ok(None);
            },
            Some(fg) => fg,
        };
        if sample_size == 0 {
            return Ok(None);
        }
        if let PredicateApplyType::IGNORE = mode {
            return Ok(None);
        }
        let branch: RawN1Branch = match self.find_predicate_n1_branch(catalog, max_star_degree) {
            None => {
                return Ok(None);
            },
            Some(branch) => branch,
        };
        match self.sample_filtered_n1_branch(&branch, fg, sample_size, cache) {
            Err(error) => Err(error),
            Ok(None) => {
                assert(falls_short(
                    self@,
                    fg@,
                    sample_size as nat,
                    branch@,
                    contents(*old(cache)),
                    contents(*cache),
                    None,
                ));
                Ok(None)
            },
            Ok(Some(sample)) => {
                let population: usize = match self.get_vertex(branch.center) {
                    Some(v) => fg.vertex_count_by_label(v.label.as_str()),
                    None => 0,
                };
                if sample.enough(population) {
                    Ok(Some(BranchExtraction { branch, sample }))
                } else {
                    assert(falls_short(
                        self@,
                        fg@,
                        sample_size as nat,
                        branch@,
                        contents(*old(cache)),
                        contents(*cache),
                        Some(sample),
                    ));
                    Ok(None)
                }
            },
        }
    }

    /// The edges that a branch has.
    pub fn consumed_by_branch(&self, branch: &RawN1Branch) -> (result: Vec<EdgeId>)
        ensures
            result@ == branch_edges(branch@),
    {
        let mut result: Vec<EdgeId> = Vec::new();
        result.push(branch.root_edge_id);
        let mut i: usize = 0;
        while i < branch.leaf_arms.len()
            invariant
                i <= branch.leaf_arms@.len(),
                result@.len() == i + 1,
                result@[0] == branch.root_edge_id,
                forall|j: int|
                    #![trigger branch.leaf_arms@[j]]
                    0 <= j < i ==> result@[j + 1] == branch.leaf_arms@[j].edge_id,
            decreases branch.leaf_arms.len() - i,
        {
            result.push(branch.leaf_arms[i].edge_id);
            i = i + 1;
        }
        let ghost first = result@;
        let mut k: usize = 0;
        while k < branch.center_leaf_arms.len()
            invariant
                k <= branch.center_leaf_arms@.len(),
                result@.len() == first.len() + k,
                forall|j: int| 0 <= j < first.len() ==> result@[j] == first[j],
                forall|j: int|
                    #![trigger branch.center_leaf_arms@[j]]
                    0 <= j < k ==> result@[first.len() + j] == branch.center_leaf_arms@[j].edge_id,
            decreases branch.center_leaf_arms.len() - k,
        {
            result.push(branch.center_leaf_arms[k].edge_id);
            k = k + 1;
        }
        proof {
            let all = branch_edges(branch@);
            let n = branch.leaf_arms@.len() as int;
            assert forall|j: int| 0 <= j < all.len() implies result@[j] == all[j] by {
                if j == 0 {
                    assert(first[0] == branch.root_edge_id);
                } else if j <= n {
                    assert(first[j - 1 + 1] == branch.leaf_arms@[j - 1].edge_id);
                    assert(result@[j] == first[j]);
                } else {
                    assert(result@[first.len() + (j - 1 - n)] == branch.center_leaf_arms@[j - 1
                        - n].edge_id);
                }
            }
            assert(result@ =~= all);
        }
        result
    }

    /// The vertices of a branch whose predicates are in its sample.
    pub fn owned_by_branch(&self, branch: &RawN1Branch) -> (result: Vec<VertexId>)
        requires
            self@.wf(),
        ensures
            result@ == branch_owned(self@, branch@),
    {
        let mut result: Vec<VertexId> = Vec::new();
        if let Some(v) = self.get_vertex(branch.center) {
            assert(predicate_views(v.predicates@).len() == v.predicates@.len());
            if v.predicates.len() > 0 {
                result.push(branch.center);
            }
        }
        assert(result@ =~= (if self@.vertex(branch.center) matches Some(v) && v.predicates.len()
            > 0 {
            seq![branch.center]
        } else {
            Seq::empty()
        }));
        if let Some(v) = self.get_vertex(branch.intermediate) {
            assert(predicate_views(v.predicates@).len() == v.predicates@.len());
            if v.predicates.len() > 0 && !contains_id(&result, branch.intermediate) {
                result.push(branch.intermediate);
            }
        }
        result
    }
}

/// What was taken out of a query: a branch, or stars.
#[derive(Debug, Clone)]
pub enum Extraction {
    Branch(BranchExtraction),
    Stars(RawStarExtraction),
}

impl QueryGraph {
    /// Takes a branch with a predicate out of the query, or else stars; nothing where no star
    /// may have two arms, or none is found.
    pub fn extract_raw_star_local(
        &self,
        catalog: &DegreeSeqGraph,
        flat_graph: Option<&FlatGraph>,
        sample_size: usize,
        mode: PredicateApplyType,
        max_star_degree: usize,
        cache: &mut DashMap<String, Vec<VertexId>>,
    ) -> (result: Result<Option<Extraction>, StarError>)
        requires
            self@.wf(),
        ensures
            match result {
                Ok(found) => may_extract(
                    self@,
                    flat_graph,
                    *catalog,
                    sample_size as nat,
                    mode,
                    max_star_degree as nat,
                    contents(*old(cache)),
                    contents(*final(cache)),
                    found,
                ),
                Err(error) => may_fail(
                    self@,
                    flat_graph,
                    *catalog,
                    sample_size as nat,
                    mode,
                    max_star_degree as nat,
                    contents(*old(cache)),
                    contents(*final(cache)),
                    error@,
                ),
            },
    {
        proof {
            reveal(may_extract);
            reveal(may_fail);
        }
        if max_star_degree < 2 {
            return Ok(None);
        }
        match self.extract_filtered_n1_branch(
            catalog,
            flat_graph,
            sample_size,
            mode,
            max_star_degree,
            cache,
        ) {
            Err(error) => {
                return Err(error);
            },
            Ok(Some(found)) => {
                return Ok(Some(Extraction::Branch(found)));
            },
            Ok(None) => {},
        }
        let ghost mid = contents(*cache);
        match self.extract_stars(
            catalog,
            flat_graph,
            sample_size,
            mode,
            max_star_degree,
            cache,
        ) {
            Err(error) => Err(error),
            Ok(done) => if done.factors.len() > 0 {
                Ok(Some(Extraction::Stars(done)))
            } else {
                assert(done.progress().factors.len() == 0);
                assert(is_barren(
                    setting(
                        self@,
                        flat_graph,
                        *catalog,
                        sample_size as nat,
                        mode,
                        max_star_degree as nat,
                    ),
                    sample_size as nat,
                    sorted(vertex_ids(self@)),
                    done,
                    mid,
                    contents(*cache),
                ));
                Ok(None)
            },
        }
    }
}

/// Whether this may be taken out of a query: nothing where no star may have two arms; else the
/// branch to take, or stars where no branch is taken, or nothing where no star is found either.
#[verifier::opaque]
pub open spec fn may_extract(
    graph: GraphView,
    flat_graph: Option<&FlatGraph>,
    catalog: DegreeSeqGraph,
    size: nat,
    mode: PredicateApplyType,
    max: nat,
    before: Map<Seq<char>, Seq<VertexId>>,
    after: Map<Seq<char>, Seq<VertexId>>,
    found: Option<Extraction>,
) -> bool {
    let set = setting(graph, flat_graph, catalog, size, mode, max);
    let centers = sorted(vertex_ids(graph));
    if max < 2 {
        found is None && after == before
    } else {
        match found {
            Some(Extraction::Branch(taken)) => {
                &&& flat_graph is Some
                &&& size > 0
                &&& samples_predicates(mode)
                &&& is_branch_to_take(graph, catalog, max, taken.branch@)
                &&& is_branch_evidence(
                    graph,
                    flat_graph->0@,
                    size,
                    taken.branch@,
                    before,
                    after,
                    taken.sample,
                )
            },
            Some(Extraction::Stars(done)) => {
                &&& done.factors@.len() > 0
                &&& taken_from(set, centers, done.trials@) == Ok::<_, Failure>(done.progress())
                &&& exists|mid: Map<Seq<char>, Seq<VertexId>>|
                    #![trigger is_recorded(set, size, done, mid, after)]
                    may_take_no_branch(graph, flat_graph, catalog, size, mode, max, before, mid)
                        && is_recorded(set, size, done, mid, after)
            },
            None => exists|mid: Map<Seq<char>, Seq<VertexId>>, done: RawStarExtraction|
                #![trigger is_barren(set, size, centers, done, mid, after)]
                may_take_no_branch(graph, flat_graph, catalog, size, mode, max, before, mid)
                    && is_barren(set, size, centers, done, mid, after),
        }
    }
}

/// Whether taking something out of a query may fail this way: by the branch to take, or by a star
/// where no branch is taken.
#[verifier::opaque]
pub open spec fn may_fail(
    graph: GraphView,
    flat_graph: Option<&FlatGraph>,
    catalog: DegreeSeqGraph,
    size: nat,
    mode: PredicateApplyType,
    max: nat,
    before: Map<Seq<char>, Seq<VertexId>>,
    after: Map<Seq<char>, Seq<VertexId>>,
    error: StarErrorView,
) -> bool {
    let set = setting(graph, flat_graph, catalog, size, mode, max);
    let centers = sorted(vertex_ids(graph));
    &&& max >= 2
    &&& (branch_fails(graph, flat_graph, catalog, size, mode, max, error) && after == before) || (
    exists|mid: Map<Seq<char>, Seq<VertexId>>, done: RawStarExtraction|
        #![trigger is_broken_off(set, size, centers, done, mid, after, error)]
        may_take_no_branch(graph, flat_graph, catalog, size, mode, max, before, mid)
            && is_broken_off(set, size, centers, done, mid, after, error))
}

/// Whether no star is taken, after what was tried.
pub open spec fn is_barren(
    set: Setting,
    size: nat,
    centers: Seq<VertexId>,
    done: RawStarExtraction,
    before: Map<Seq<char>, Seq<VertexId>>,
    after: Map<Seq<char>, Seq<VertexId>>,
) -> bool {
    &&& taken_from(set, centers, done.trials@) == Ok::<_, Failure>(done.progress())
    &&& done.factors@.len() == 0
    &&& is_recorded(set, size, done, before, after)
}

} // verus!
