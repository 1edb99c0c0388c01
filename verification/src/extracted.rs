//! What the stars are that are taken out of a query: which edges they have, and that they share
//! none.
use crate::compiled::degrees_count_ends;
use crate::counting::{lemma_places_finite, places};
use crate::extraction::{
    factor_at, is_used, once_more, removed, tag_placed, tags_at, tags_sorted, taken,
    taken_is_a_selection, unused, FactorView, TaggedView,
};
use crate::matching::is_selection;
use crate::paths::degree;
use crate::query::{EdgeView, GraphView, VertexId, VertexView};
use crate::raw_stars::{leaf_arms, star_is_conditioned, taken_at, taken_from, Progress, Setting};
use crate::text::Relation;
use vstd::prelude::*;

verus! {

/// Whether an arm is the one along an edge from a center to a leaf. Where predicates are not let
/// through, none is on the edge or on its ends.
pub open spec fn is_leaf_arm(
    graph: GraphView,
    lenient: bool,
    center: VertexId,
    e: EdgeView,
    arm: TaggedView,
) -> bool {
    let (src, dst) = (graph.vertex(e.src)->0, graph.vertex(e.dst)->0);
    &&& arm.tag == e.id
    &&& arm.pattern.es == seq![e.label]
    &&& (e.src == center && degree(graph.edges, e.dst) == 1 && arm.pattern.vs == seq![
        src.label,
        dst.label,
    ]) || (e.dst == center && degree(graph.edges, e.src) == 1 && arm.pattern.vs == seq![
        dst.label,
        src.label,
    ])
    &&& !lenient ==> e.predicates.len() == 0 && src.predicates.len() == 0 && dst.predicates.len()
        == 0
}

/// The arms at a center are those along its edges to leaves, and no others.
pub proof fn arms_lead_to_leaves(
    graph: GraphView,
    lenient: bool,
    center: VertexId,
    n: int,
    arm: TaggedView,
)
    requires
        0 <= n <= graph.edges.len(),
    ensures
        leaf_arms(graph, lenient, center, n).contains(arm) <==> exists|k: int|
            0 <= k < n && is_leaf_arm(graph, lenient, center, #[trigger] graph.edges[k], arm),
    decreases n,
{
    if n > 0 {
        arms_lead_to_leaves(graph, lenient, center, n - 1, arm);
        let e = graph.edges[n - 1];
        let before = leaf_arms(graph, lenient, center, n - 1);
        let all = leaf_arms(graph, lenient, center, n);
        assert(forall|i: int| 0 <= i < before.len() ==> all[i] == before[i]);
        if before.contains(arm) {
            let i = choose|i: int| 0 <= i < before.len() && before[i] == arm;
            assert(all[i] == arm);
        }
        if all.contains(arm) && !before.contains(arm) {
            let i = choose|i: int| 0 <= i < all.len() && all[i] == arm;
            if i < before.len() {
                assert(before[i] == arm);
            }
            assert(is_leaf_arm(graph, lenient, center, graph.edges[n - 1], arm));
        }
        if is_leaf_arm(graph, lenient, center, e, arm) {
            let (src, dst) = (graph.vertex(e.src)->0, graph.vertex(e.dst)->0);
            assert(arm.pattern.es =~= seq![e.label]);
            if e.src == center && degree(graph.edges, e.dst) == 1 && arm.pattern.vs == seq![
                src.label,
                dst.label,
            ] {
                assert(all[before.len() as int] == arm);
            } else {
                assert(all[all.len() - 1] == arm);
            }
        }
    }
}

/// Whether no two arms have the same tag.
pub open spec fn tags_differ(arms: Seq<TaggedView>) -> bool {
    forall|i: int, j: int|
        #![trigger arms[i], arms[j]]
        0 <= i < j < arms.len() ==> arms[i].tag != arms[j].tag
}

proof fn lemma_no_loop(edges: Seq<EdgeView>, k: int)
    requires
        0 <= k < edges.len(),
        edges[k].src == edges[k].dst,
    ensures
        degree(edges, edges[k].src) >= 2,
{
    let v = edges[k].src;
    let n = edges.len() as int;
    degrees_count_ends(edges, v);
    let out = places(n, |p: int| edges[p].src == v);
    let into = places(n, |p: int| edges[p].dst == v);
    lemma_places_finite(n, |p: int| edges[p].src == v);
    lemma_places_finite(n, |p: int| edges[p].dst == v);
    assert(out.contains(k) && into.contains(k));
    if out.len() == 0 {
        assert(out =~= Set::empty());
    }
    if into.len() == 0 {
        assert(into =~= Set::empty());
    }
}

proof fn lemma_leaf_arms(graph: GraphView, lenient: bool, center: VertexId, n: int)
    requires
        graph.wf(),
        0 <= n <= graph.edges.len(),
    ensures
        tags_differ(leaf_arms(graph, lenient, center, n)),
        leaf_arms(graph, lenient, center, n).len() <= n,
    decreases n,
{
    if n > 0 {
        lemma_leaf_arms(graph, lenient, center, n - 1);
        let e = graph.edges[n - 1];
        let before = leaf_arms(graph, lenient, center, n - 1);
        let all = leaf_arms(graph, lenient, center, n);
        if e.src == e.dst {
            lemma_no_loop(graph.edges, n - 1);
        }
        assert forall|i: int, j: int|
            #![trigger all[i], all[j]]
            0 <= i < j < all.len() implies all[i].tag != all[j].tag by {
            assert(all[i] == before[i]);
            if j < before.len() {
                assert(all[j] == before[j]);
            } else {
                assert(before.contains(before[i]));
                arms_lead_to_leaves(graph, lenient, center, n - 1, before[i]);
                let k = choose|k: int|
                    0 <= k < n - 1 && is_leaf_arm(
                        graph,
                        lenient,
                        center,
                        #[trigger] graph.edges[k],
                        before[i],
                    );
                assert(graph.edges[k].id != graph.edges[n - 1].id);
            }
        }
    }
}

/// The arms that are left are those that are not too long and whose edges no star has yet.
pub proof fn unused_arms_are_in_no_star(
    arms: Seq<TaggedView>,
    factors: Seq<FactorView>,
    max_len: nat,
    arm: TaggedView,
)
    ensures
        unused(arms, factors, max_len).contains(arm) <==> arms.contains(arm)
            && arm.pattern.es.len() <= max_len && forall|i: int|
            #![trigger factors[i]]
            0 <= i < factors.len() ==> !factors[i].tags.contains(arm.tag),
        tags_differ(arms) ==> tags_differ(unused(arms, factors, max_len)),
        unused(arms, factors, max_len).len() <= arms.len(),
    decreases arms.len(),
{
    if arms.len() > 0 {
        let n = arms.len() - 1;
        let fewer = arms.drop_last();
        let last = arms.last();
        let before = unused(fewer, factors, max_len);
        let all = unused(arms, factors, max_len);
        unused_arms_are_in_no_star(fewer, factors, max_len, arm);
        if before.contains(arm) {
            let i = choose|i: int| 0 <= i < before.len() && before[i] == arm;
            assert(all[i] == arm);
        }
        if fewer.contains(arm) {
            let i = choose|i: int| 0 <= i < fewer.len() && fewer[i] == arm;
            assert(arms[i] == arm);
        }
        if arm == last {
            assert(arms[n] == arm);
            if all.len() > before.len() {
                assert(all[before.len() as int] == arm);
            }
        }
        if arms.contains(arm) && arm != last {
            let i = choose|i: int| 0 <= i < arms.len() && arms[i] == arm;
            assert(fewer[i] == arm);
        }
        if all.contains(arm) && !before.contains(arm) {
            assert(arm == last);
        }
        if tags_differ(arms) {
            assert(tags_differ(fewer)) by {
                assert forall|i: int, j: int|
                    #![trigger fewer[i], fewer[j]]
                    0 <= i < j < fewer.len() implies fewer[i].tag != fewer[j].tag by {
                    assert(arms[i].tag != arms[j].tag);
                }
            }
            assert forall|i: int, j: int|
                #![trigger all[i], all[j]]
                0 <= i < j < all.len() implies all[i].tag != all[j].tag by {
                assert(all[i] == before[i]);
                if j < before.len() {
                    assert(all[j] == before[j]);
                } else {
                    unused_arms_are_in_no_star(fewer, factors, max_len, before[i]);
                    assert(before.contains(before[i]));
                    let k = choose|k: int| 0 <= k < fewer.len() && fewer[k] == before[i];
                    assert(arms[k].tag != arms[n].tag);
                }
            }
        }
    }
}

proof fn lemma_placed(arms: Seq<TaggedView>, x: TaggedView)
    ensures
        tag_placed(arms, x).len() == arms.len() + 1,
        forall|a: TaggedView|
            #![trigger tag_placed(arms, x).contains(a)]
            tag_placed(arms, x).contains(a) <==> arms.contains(a) || a == x,
        tags_differ(arms.push(x)) ==> tags_differ(tag_placed(arms, x)),
    decreases arms.len(),
{
    let all = tag_placed(arms, x);
    if arms.len() == 0 || arms.last().pattern.relation(x.pattern) != Relation::After {
        assert forall|a: TaggedView| #![trigger all.contains(a)] all.contains(a) <==> arms.contains(
            a,
        ) || a == x by {
            if arms.contains(a) {
                let i = choose|i: int| 0 <= i < arms.len() && arms[i] == a;
                assert(all[i] == a);
            }
            if a == x {
                assert(all[arms.len() as int] == a);
            }
            if all.contains(a) && a != x {
                let i = choose|i: int| 0 <= i < all.len() && all[i] == a;
                assert(arms[i] == a);
            }
        }
    } else {
        let n = arms.len() - 1;
        let fewer = arms.drop_last();
        let last = arms.last();
        let before = tag_placed(fewer, x);
        lemma_placed(fewer, x);
        assert forall|a: TaggedView| #![trigger all.contains(a)] all.contains(a) <==> arms.contains(
            a,
        ) || a == x by {
            if fewer.contains(a) {
                let i = choose|i: int| 0 <= i < fewer.len() && fewer[i] == a;
                assert(arms[i] == a);
            }
            if before.contains(a) {
                let i = choose|i: int| 0 <= i < before.len() && before[i] == a;
                assert(all[i] == a);
            }
            if a == last {
                assert(arms[n] == a);
                assert(all[all.len() - 1] == a);
            }
            if arms.contains(a) && a != last {
                let i = choose|i: int| 0 <= i < arms.len() && arms[i] == a;
                assert(fewer[i] == a);
            }
            if all.contains(a) && a != last {
                let i = choose|i: int| 0 <= i < all.len() && all[i] == a;
                assert(before[i] == a);
            }
        }
        if tags_differ(arms.push(x)) {
            let given = arms.push(x);
            let less = fewer.push(x);
            assert forall|i: int, j: int|
                #![trigger less[i], less[j]]
                0 <= i < j < less.len() implies less[i].tag != less[j].tag by {
                assert(less[i] == given[i]);
                if j < n {
                    assert(less[j] == given[j]);
                } else {
                    assert(given[n + 1] == x);
                }
            }
            assert forall|i: int, j: int|
                #![trigger all[i], all[j]]
                0 <= i < j < all.len() implies all[i].tag != all[j].tag by {
                assert(all[i] == before[i]);
                if j < before.len() {
                    assert(all[j] == before[j]);
                } else {
                    assert(before.contains(before[i]));
                    assert(given[n] == last);
                    if before[i] == x {
                        assert(given[n + 1] == x);
                    } else {
                        let k = choose|k: int| 0 <= k < fewer.len() && fewer[k] == before[i];
                        assert(given[k] == before[i]);
                    }
                }
            }
        }
    }
}

proof fn lemma_sorted(arms: Seq<TaggedView>)
    ensures
        tags_sorted(arms).len() == arms.len(),
        forall|a: TaggedView|
            #![trigger tags_sorted(arms).contains(a)]
            tags_sorted(arms).contains(a) <==> arms.contains(a),
        tags_differ(arms) ==> tags_differ(tags_sorted(arms)),
    decreases arms.len(),
{
    if arms.len() > 0 {
        let n = arms.len() - 1;
        let fewer = arms.drop_last();
        let last = arms.last();
        let before = tags_sorted(fewer);
        let all = tags_sorted(arms);
        lemma_sorted(fewer);
        lemma_placed(before, last);
        assert forall|a: TaggedView| #![trigger all.contains(a)] all.contains(a) <==> arms.contains(
            a,
        ) by {
            assert(all.contains(a) <==> before.contains(a) || a == last);
            if fewer.contains(a) {
                let i = choose|i: int| 0 <= i < fewer.len() && fewer[i] == a;
                assert(arms[i] == a);
            }
            if a == last {
                assert(arms[n] == a);
            }
            if arms.contains(a) && a != last {
                let i = choose|i: int| 0 <= i < arms.len() && arms[i] == a;
                assert(fewer[i] == a);
            }
        }
        if tags_differ(arms) {
            assert forall|i: int, j: int|
                #![trigger fewer[i], fewer[j]]
                0 <= i < j < fewer.len() implies fewer[i].tag != fewer[j].tag by {
                assert(arms[i].tag != arms[j].tag);
            }
            let pushed = before.push(last);
            assert forall|i: int, j: int|
                #![trigger pushed[i], pushed[j]]
                0 <= i < j < pushed.len() implies pushed[i].tag != pushed[j].tag by {
                assert(pushed[i] == before[i]);
                if j < before.len() {
                    assert(pushed[j] == before[j]);
                } else {
                    assert(before.contains(before[i]));
                    let k = choose|k: int| 0 <= k < fewer.len() && fewer[k] == before[i];
                    assert(arms[k].tag != arms[n].tag);
                }
            }
        }
    }
}

/// Arms without those at ascending places are the others: each is left exactly where it is at none
/// of these places.
pub proof fn removed_arms_leave_the_others(arms: Seq<TaggedView>, places: Seq<usize>, arm: TaggedView)
    requires
        is_selection(places, arms.len(), places.len()),
        tags_differ(arms),
    ensures
        removed(arms, places).len() == arms.len() - places.len(),
        tags_differ(removed(arms, places)),
        removed(arms, places).contains(arm) <==> exists|i: int|
            0 <= i < arms.len() && #[trigger] arms[i] == arm && forall|j: int|
                #![trigger places[j]]
                0 <= j < places.len() ==> places[j] != i,
    decreases places.len(),
{
    if places.len() > 0 {
        let m = places.len() - 1;
        let last = places.last() as int;
        let fewer = arms.remove(last);
        let rest = places.drop_last();
        assert(places[m] < arms.len());
        assert forall|i: int| 0 <= i < rest.len() implies #[trigger] rest[i] < fewer.len() by {
            assert(places[i] < places[m]);
        }
        assert forall|i: int, j: int|
            #![trigger rest[i], rest[j]]
            0 <= i < j < rest.len() implies rest[i] < rest[j] by {
            assert(places[i] < places[j]);
        }
        assert forall|i: int, j: int|
            #![trigger fewer[i], fewer[j]]
            0 <= i < j < fewer.len() implies fewer[i].tag != fewer[j].tag by {
            let a = if i < last {
                i
            } else {
                i + 1
            };
            let b = if j < last {
                j
            } else {
                j + 1
            };
            assert(fewer[i] == arms[a] && fewer[j] == arms[b]);
        }
        removed_arms_leave_the_others(fewer, rest, arm);
        if removed(fewer, rest).contains(arm) {
            let i = choose|i: int|
                0 <= i < fewer.len() && #[trigger] fewer[i] == arm && forall|j: int|
                    #![trigger rest[j]]
                    0 <= j < rest.len() ==> rest[j] != i;
            let a = if i < last {
                i
            } else {
                i + 1
            };
            assert(arms[a] == arm);
            assert forall|j: int| #![trigger places[j]] 0 <= j < places.len() implies places[j]
                != a by {
                if j < m {
                    assert(rest[j] == places[j]);
                    assert(places[j] < places[m]);
                }
            }
        }
        if exists|i: int|
            0 <= i < arms.len() && #[trigger] arms[i] == arm && forall|j: int|
                #![trigger places[j]]
                0 <= j < places.len() ==> places[j] != i {
            let i = choose|i: int|
                0 <= i < arms.len() && #[trigger] arms[i] == arm && forall|j: int|
                    #![trigger places[j]]
                    0 <= j < places.len() ==> places[j] != i;
            assert(places[m] != i);
            let b = if i < last {
                i
            } else {
                i - 1
            };
            assert(fewer[b] == arm);
            assert forall|j: int| #![trigger rest[j]] 0 <= j < rest.len() implies rest[j] != b by {
                assert(rest[j] == places[j]);
                assert(places[j] < places[m]);
            }
        }
    } else {
        if arms.contains(arm) {
            let i = choose|i: int| 0 <= i < arms.len() && arms[i] == arm;
            assert(arms[i] == arm);
        }
    }
}

/// Whether a star has between two and so many edges, none of them twice, each from its center to a
/// leaf.
pub open spec fn is_proper(set: Setting, factor: FactorView) -> bool {
    &&& 2 <= factor.tags.len() <= set.max
    &&& factor.tags.no_duplicates()
    &&& forall|i: int|
        #![trigger factor.tags[i]]
        0 <= i < factor.tags.len() ==> is_tag_at(set, factor.center, factor.tags[i])
}

/// Whether a tag is that of an edge from a center to a leaf.
pub open spec fn is_tag_at(set: Setting, center: VertexId, tag: u64) -> bool {
    exists|k: int, arm: TaggedView|
        #![trigger is_leaf_arm(set.graph, set.lenient, center, set.graph.edges[k], arm)]
        0 <= k < set.graph.edges.len() && arm.tag == tag && is_leaf_arm(
            set.graph,
            set.lenient,
            center,
            set.graph.edges[k],
            arm,
        )
}

/// Whether stars are as they should be, and no edge is in two of them.
pub open spec fn are_apart(set: Setting, factors: Seq<FactorView>) -> bool {
    &&& forall|i: int| #![trigger factors[i]] 0 <= i < factors.len() ==> is_proper(set, factors[i])
    &&& forall|i: int, j: int, tag: u64|
        #![trigger factors[i].tags.contains(tag), factors[j].tags.contains(tag)]
        0 <= i < j < factors.len() ==> !(factors[i].tags.contains(tag)
            && factors[j].tags.contains(tag))
}

/// Whether arms are at a center and in no star yet.
spec fn are_left(
    set: Setting,
    center: VertexId,
    arms: Seq<TaggedView>,
    factors: Seq<FactorView>,
) -> bool {
    &&& arms.len() <= usize::MAX
    &&& tags_differ(arms)
    &&& forall|a: TaggedView|
        #![trigger arms.contains(a)]
        arms.contains(a) ==> is_tag_at(set, center, a.tag) && !is_used(factors, a.tag)
}

proof fn lemma_taken(
    set: Setting,
    v: VertexView,
    arms: Seq<TaggedView>,
    factors: Seq<FactorView>,
    selection: Seq<usize>,
)
    requires
        are_left(set, v.id, arms, factors),
        are_apart(set, factors),
        taken(set.catalog, v.label, arms, set.max, false) == Some(selection),
    ensures
        are_apart(set, factors.push(factor_at(v.id, v.label, arms, selection))),
        are_left(
            set,
            v.id,
            removed(arms, selection),
            factors.push(factor_at(v.id, v.label, arms, selection)),
        ),
{
    taken_is_a_selection(set.catalog, v.label, arms, set.max, false);
    let factor = factor_at(v.id, v.label, arms, selection);
    let all = factors.push(factor);
    let left = removed(arms, selection);
    let tags = tags_at(arms, selection);
    assert forall|i: int| #![trigger tags[i]] 0 <= i < tags.len() implies selection[i] < arms.len()
        && tags[i] == arms[selection[i] as int].tag && arms.contains(arms[selection[i] as int]) by {
        assert(selection[i] < arms.len());
    }
    assert(is_proper(set, factor)) by {
        assert forall|i: int, j: int| 0 <= i < tags.len() && 0 <= j < tags.len() && i
            != j implies tags[i] != tags[j] by {
            let (a, b) = (selection[i] as int, selection[j] as int);
            if i < j {
                assert(selection[i] < selection[j]);
            } else {
                assert(selection[j] < selection[i]);
            }
            assert(arms[a].tag != arms[b].tag || arms[b].tag != arms[a].tag);
        }
    }
    assert forall|i: int| #![trigger all[i]] 0 <= i < all.len() implies is_proper(set, all[i]) by {
        if i < factors.len() {
            assert(all[i] == factors[i]);
        }
    }
    assert forall|i: int, j: int, tag: u64|
        #![trigger all[i].tags.contains(tag), all[j].tags.contains(tag)]
        0 <= i < j < all.len() implies !(all[i].tags.contains(tag) && all[j].tags.contains(tag)) by {
        assert(all[i] == factors[i]);
        if j < factors.len() {
            assert(all[j] == factors[j]);
            assert(!(factors[i].tags.contains(tag) && factors[j].tags.contains(tag)));
        } else if tags.contains(tag) && factors[i].tags.contains(tag) {
            let k = choose|k: int| 0 <= k < tags.len() && tags[k] == tag;
            let a = arms[selection[k] as int];
            assert(arms.contains(a));
            assert(is_used(factors, a.tag));
        }
    }
    if left.len() > 0 {
        removed_arms_leave_the_others(arms, selection, left[0]);
    } else {
        removed_arms_leave_the_others(arms, selection, arms[0]);
    }
    assert forall|a: TaggedView| #![trigger left.contains(a)] left.contains(a) implies is_tag_at(
        set,
        v.id,
        a.tag,
    ) && !is_used(all, a.tag) by {
        removed_arms_leave_the_others(arms, selection, a);
        let p = choose|p: int|
            0 <= p < arms.len() && #[trigger] arms[p] == a && forall|j: int|
                #![trigger selection[j]]
                0 <= j < selection.len() ==> selection[j] != p;
        assert(arms.contains(a));
        if is_used(all, a.tag) {
            let i = choose|i: int|
                0 <= i < all.len() && (#[trigger] all[i]).tags.contains(a.tag);
            if i < factors.len() {
                assert(factors[i].tags.contains(a.tag));
            } else {
                let k = choose|k: int| 0 <= k < tags.len() && tags[k] == a.tag;
                let q = selection[k] as int;
                assert(arms[q].tag == arms[p].tag);
                assert(selection[k] != p);
                if q < p {
                    assert(arms[q].tag != arms[p].tag);
                } else {
                    assert(arms[p].tag != arms[q].tag);
                }
            }
        }
    }
}

proof fn lemma_taken_at(
    set: Setting,
    v: VertexView,
    arms: Seq<TaggedView>,
    begun: Progress,
    trials: Seq<bool>,
)
    requires
        are_left(set, v.id, arms, begun.factors),
        are_apart(set, begun.factors),
    ensures
        taken_at(set, v, arms, begun, trials) matches Ok(done) ==> are_apart(set, done.factors),
    decreases arms.len(),
{
    if let Some(selection) = taken(set.catalog, v.label, arms, set.max, false) {
        lemma_taken(set, v, arms, begun.factors, selection);
        let tags = tags_at(arms, selection);
        let factor = factor_at(v.id, v.label, arms, selection);
        let needed = star_is_conditioned(set.graph, v, tags) && set.sampling;
        let next = Progress {
            factors: begun.factors.push(factor),
            sampled: begun.sampled.push(needed),
            owned: if needed && v.predicates.len() > 0 {
                once_more(begun.owned, v.id)
            } else {
                begun.owned
            },
            tried: if needed {
                begun.tried.push(factor)
            } else {
                begun.tried
            },
        };
        if removed(arms, selection).len() < arms.len() {
            lemma_taken_at(set, v, removed(arms, selection), next, trials);
        }
    }
}

/// The stars that are taken out of a query have between two and the allowed number of edges, each
/// from the center of the star to a leaf, and no edge is in two of them.
pub proof fn stars_share_no_edge(set: Setting, centers: Seq<VertexId>, trials: Seq<bool>)
    requires
        set.graph.wf(),
        set.graph.edges.len() <= usize::MAX,
    ensures
        taken_from(set, centers, trials) matches Ok(done) ==> are_apart(set, done.factors),
    decreases centers.len(),
{
    if centers.len() > 0 {
        stars_share_no_edge(set, centers.drop_last(), trials);
        if let Ok(before) = taken_from(set, centers.drop_last(), trials) {
            if let Some(v) = set.graph.vertex(centers.last()) {
                let n = set.graph.edges.len() as int;
                let all = leaf_arms(set.graph, set.lenient, v.id, n);
                let free = unused(all, before.factors, 1);
                let arms = tags_sorted(free);
                lemma_leaf_arms(set.graph, set.lenient, v.id, n);
                lemma_sorted(free);
                let some = TaggedView { tag: 0, pattern: arms[0].pattern };
                unused_arms_are_in_no_star(all, before.factors, 1, some);
                assert forall|a: TaggedView|
                    #![trigger arms.contains(a)]
                    arms.contains(a) implies is_tag_at(set, v.id, a.tag) && !is_used(
                    before.factors,
                    a.tag,
                ) by {
                    unused_arms_are_in_no_star(all, before.factors, 1, a);
                    arms_lead_to_leaves(set.graph, set.lenient, v.id, n, a);
                    let k = choose|k: int|
                        0 <= k < n && is_leaf_arm(
                            set.graph,
                            set.lenient,
                            v.id,
                            #[trigger] set.graph.edges[k],
                            a,
                        );
                    assert(is_leaf_arm(set.graph, set.lenient, v.id, set.graph.edges[k], a));
                }
                lemma_taken_at(set, v, arms, before, trials);
            }
        }
    }
}

} // verus!
