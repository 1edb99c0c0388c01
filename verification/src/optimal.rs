//! No spanning tree costs less than the one that greedy choice gives.
use crate::connect::{
    distinct_ids, ids_of, linked, linked_both_ways, linked_by_edge, linked_by_more, linked_in_turn,
    linked_with_one_more,
};
use crate::order::{sorted, sorting_orders_the_values, Ordered};
use crate::query::{EdgeId, EdgeView, GraphView, VertexId};
use crate::spanning::{
    cheapest, cost, first_ids, is_picked, lemma_cost_of_part, lemma_cost_remove, lemma_id_is_listed,
    lemma_order_lists_edges, lemma_picked_step, lists_edges, picked, priced, total_cost, PricedEdge,
};
use vstd::prelude::*;

verus! {

/// Where edges join two vertices that fewer of them do not join, there is one that makes the
/// difference.
proof fn lemma_joining_edge(
    edges: Seq<EdgeView>,
    fewer: Set<EdgeId>,
    more: Set<EdgeId>,
    x: VertexId,
    y: VertexId,
) -> (result: (EdgeId, Set<EdgeId>))
    requires
        more.finite(),
        !linked(edges, fewer.intersect(more), x, y),
        linked(edges, more, x, y),
    ensures
        more.contains(result.0),
        !fewer.contains(result.0),
        result.1.subset_of(more.remove(result.0)),
        !linked(edges, result.1, x, y),
        linked(edges, result.1.insert(result.0), x, y),
    decreases more.len(),
{
    if more.subset_of(fewer) {
        assert(fewer.intersect(more) =~= more);
    }
    let id = choose|id: EdgeId| more.contains(id) && !fewer.contains(id);
    let rest = more.remove(id);
    assert(rest.insert(id) =~= more);
    assert(fewer.intersect(rest) =~= fewer.intersect(more));
    if linked(edges, rest, x, y) {
        lemma_joining_edge(edges, fewer, rest, x, y)
    } else {
        (id, rest)
    }
}

/// Whether edges join all that the graph joins.
#[verifier::opaque]
pub open spec fn spans(edges: Seq<EdgeView>, chosen: Set<EdgeId>) -> bool {
    forall|a: VertexId, b: VertexId|
        #![trigger linked(edges, chosen, a, b)]
        linked(edges, ids_of(edges), a, b) ==> linked(edges, chosen, a, b)
}

/// An edge that makes a difference between the ends of another one can be exchanged for it.
proof fn lemma_exchange_spans(
    edges: Seq<EdgeView>,
    chosen: Set<EdgeId>,
    rest: Set<EdgeId>,
    k: int,
    n: int,
)
    requires
        distinct_ids(edges),
        0 <= k < edges.len(),
        0 <= n < edges.len(),
        spans(edges, chosen),
        chosen.contains(edges[k].id),
        rest.subset_of(chosen.remove(edges[k].id)),
        !linked(edges, rest, edges[n].src, edges[n].dst),
        linked(edges, rest.insert(edges[k].id), edges[n].src, edges[n].dst),
    ensures
        spans(edges, chosen.remove(edges[k].id).insert(edges[n].id)),
{
    reveal(spans);
    let kept = chosen.remove(edges[k].id);
    let other = kept.insert(edges[n].id);
    let x = edges[n].src;
    let y = edges[n].dst;
    let u = edges[k].src;
    let v = edges[k].dst;
    linked_with_one_more(edges, rest, k, x, y);
    assert(rest.subset_of(other));
    assert(kept.subset_of(other));
    linked_by_edge(edges, other, n);
    if linked(edges, rest, x, u) && linked(edges, rest, v, y) {
        linked_by_more(edges, rest, other, x, u);
        linked_by_more(edges, rest, other, v, y);
        linked_in_turn(edges, other, v, y, x);
        linked_in_turn(edges, other, v, x, u);
    } else {
        linked_by_more(edges, rest, other, x, v);
        linked_by_more(edges, rest, other, u, y);
        linked_both_ways(edges, other, x, v);
        linked_both_ways(edges, other, u, y);
        linked_in_turn(edges, other, v, x, y);
        linked_in_turn(edges, other, v, y, u);
    }
    linked_both_ways(edges, other, v, u);
    assert(kept.insert(edges[k].id) =~= chosen);
    assert forall|a: VertexId, b: VertexId|
        #![trigger linked(edges, other, a, b)]
        linked(edges, ids_of(edges), a, b) implies linked(edges, other, a, b) by {
        assert(linked(edges, chosen, a, b));
        linked_with_one_more(edges, kept, k, a, b);
        if linked(edges, kept, a, b) {
            linked_by_more(edges, kept, other, a, b);
        } else if linked(edges, kept, a, u) && linked(edges, kept, v, b) {
            linked_by_more(edges, kept, other, a, u);
            linked_by_more(edges, kept, other, v, b);
            linked_in_turn(edges, other, a, u, v);
            linked_in_turn(edges, other, a, v, b);
        } else {
            linked_by_more(edges, kept, other, a, v);
            linked_by_more(edges, kept, other, u, b);
            linked_in_turn(edges, other, a, v, u);
            linked_in_turn(edges, other, a, u, b);
        }
    }
}

/// Ids with one of them exchanged for another.
proof fn lemma_cost_exchanged(
    cardinalities: Map<EdgeId, u64>,
    ids: Seq<EdgeId>,
    j: int,
    id: EdgeId,
)
    requires
        ids.no_duplicates(),
        0 <= j < ids.len(),
        !ids.contains(id),
        cost(cardinalities, id) <= cost(cardinalities, ids[j]),
    ensures
        total_cost(cardinalities, ids.update(j, id)) <= total_cost(cardinalities, ids),
        ids.update(j, id).no_duplicates(),
        ids.update(j, id).to_set() == ids.to_set().remove(ids[j]).insert(id),
{
    let other = ids.update(j, id);
    lemma_cost_remove(cardinalities, ids, j);
    lemma_cost_remove(cardinalities, other, j);
    assert(other.remove(j) =~= ids.remove(j));
    let before = ids.to_set().remove(ids[j]).insert(id);
    assert forall|x: EdgeId| other.to_set().contains(x) <==> before.contains(x) by {
        if other.contains(x) {
            let i = choose|i: int| 0 <= i < other.len() && other[i] == x;
            if i != j {
                assert(ids[i] == x);
                assert(ids.contains(x));
            }
        }
        if ids.contains(x) && x != ids[j] {
            let i = choose|i: int| 0 <= i < ids.len() && ids[i] == x;
            assert(other[i] == x);
        }
        if x == id {
            assert(other[j] == x);
        }
    }
    assert(other.to_set() =~= before);
}

/// An edge that no earlier one stands for can take the place of one that is not cheaper.
proof fn lemma_exchange_step(
    edges: Seq<EdgeView>,
    cardinalities: Map<EdgeId, u64>,
    before: Seq<EdgeId>,
    i: int,
) -> (result: Seq<EdgeId>)
    requires
        distinct_ids(edges),
        edges.len() <= usize::MAX,
        before.no_duplicates(),
        before.to_set().subset_of(ids_of(edges)),
        spans(edges, before.to_set()),
        0 <= i < edges.len(),
        lists_edges(edges, sorted(priced(edges, cardinalities))),
        is_picked(edges, sorted(priced(edges, cardinalities)), i),
        !before.contains(sorted(priced(edges, cardinalities))[i].id),
    ensures
        result.no_duplicates(),
        spans(edges, result.to_set()),
        result.to_set().contains(sorted(priced(edges, cardinalities))[i].id),
        result.to_set().subset_of(ids_of(edges)),
        before.to_set().intersect(first_ids(sorted(priced(edges, cardinalities)), i)).subset_of(
            result.to_set(),
        ),
        total_cost(cardinalities, result) <= total_cost(cardinalities, before),
{
    let order = sorted(priced(edges, cardinalities));
    let p = order[i].position as int;
    let id = order[i].id;
    let chosen = before.to_set();
    let earlier = first_ids(order, i);
    let x = edges[p].src;
    let y = edges[p].dst;
    lemma_id_is_listed(edges, p);
    linked_by_edge(edges, ids_of(edges), p);
    lemma_spanned(edges, chosen, x, y);
    if linked(edges, earlier.intersect(chosen), x, y) {
        linked_by_more(edges, earlier.intersect(chosen), earlier, x, y);
    }
    let (out, rest) = lemma_joining_edge(edges, earlier, chosen, x, y);
    let listed = edges.map_values(|e: EdgeView| e.id);
    assert(listed.to_set().contains(out));
    let k = choose|k: int| 0 <= k < listed.len() && listed[k] == out;
    lemma_exchange_spans(edges, chosen, rest, k, p);
    let j = choose|j: int| 0 <= j < before.len() && before[j] == out;
    lemma_later_costs_no_less(edges, cardinalities, i, k);
    lemma_cost_exchanged(cardinalities, before, j, id);
    before.update(j, id)
}

proof fn lemma_spanned(edges: Seq<EdgeView>, chosen: Set<EdgeId>, x: VertexId, y: VertexId)
    requires
        spans(edges, chosen),
        linked(edges, ids_of(edges), x, y),
    ensures
        linked(edges, chosen, x, y),
{
    reveal(spans);
}

/// An edge that is not among the first costs no less than the next.
proof fn lemma_later_costs_no_less(
    edges: Seq<EdgeView>,
    cardinalities: Map<EdgeId, u64>,
    i: int,
    k: int,
)
    requires
        lists_edges(edges, sorted(priced(edges, cardinalities))),
        0 <= i < edges.len(),
        0 <= k < edges.len(),
        !first_ids(sorted(priced(edges, cardinalities)), i).contains(edges[k].id),
    ensures
        cost(cardinalities, sorted(priced(edges, cardinalities))[i].id) <= cost(
            cardinalities,
            edges[k].id,
        ),
{
    let plain = priced(edges, cardinalities);
    let order = sorted(plain);
    sorting_orders_the_values(plain);
    let m = choose|m: int| 0 <= m < order.len() && (#[trigger] order[m]).id == edges[k].id;
    let first = order.take(i).map_values(|q: PricedEdge| q.id);
    if m < i {
        assert(first[m] == edges[k].id);
        assert(first.contains(edges[k].id));
    }
    assert(order.contains(order[i]) && order.contains(order[m]));
    assert(plain.contains(order[i]) && plain.contains(order[m]));
    if i < m {
        assert(order[i].at_or_before(order[m]));
    }
}

/// Edges that span can be exchanged, at no cost, for such that have the first of the greedy
/// choice.
proof fn lemma_exchange(
    edges: Seq<EdgeView>,
    cardinalities: Map<EdgeId, u64>,
    other: Seq<EdgeId>,
    n: int,
) -> (result: Seq<EdgeId>)
    requires
        distinct_ids(edges),
        edges.len() <= usize::MAX,
        other.no_duplicates(),
        other.to_set().subset_of(ids_of(edges)),
        spans(edges, other.to_set()),
        0 <= n <= edges.len(),
    ensures
        result.no_duplicates(),
        result.to_set().subset_of(ids_of(edges)),
        spans(edges, result.to_set()),
        picked(edges, sorted(priced(edges, cardinalities)), n).subset_of(result.to_set()),
        total_cost(cardinalities, result) <= total_cost(cardinalities, other),
    decreases n,
{
    let order = sorted(priced(edges, cardinalities));
    lemma_order_lists_edges(edges, cardinalities);
    if n == 0 {
        other
    } else {
        let before = lemma_exchange(edges, cardinalities, other, n - 1);
        let i = n - 1;
        let id = order[i].id;
        lemma_picked_step(edges, order, i);
        if !is_picked(edges, order, i) || before.contains(id) {
            assert(before.to_set().contains(id) <==> before.contains(id));
            before
        } else {
            let result = lemma_exchange_step(edges, cardinalities, before, i);
            let first = order.take(i).map_values(|q: PricedEdge| q.id);
            assert forall|e: EdgeId| picked(edges, order, n).contains(e) implies result.to_set().contains(
                e,
            ) by {
                if e != id {
                    assert(picked(edges, order, i).contains(e));
                    let a = choose|a: int|
                        0 <= a < i && (#[trigger] order[a]).id == e && is_picked(edges, order, a);
                    assert(first[a] == e);
                    assert(first.contains(e));
                    assert(before.to_set().intersect(first_ids(order, i)).contains(e));
                }
            }
            result
        }
    }
}

/// No edges that join all that the graph joins cost less than the greedy choice.
pub proof fn nothing_spans_for_less(
    graph: GraphView,
    cardinalities: Map<EdgeId, u64>,
    tree: Seq<EdgeId>,
    other: Seq<EdgeId>,
)
    requires
        graph.wf(),
        graph.edges.len() <= usize::MAX,
        tree.no_duplicates(),
        tree.to_set() == cheapest(graph.edges, cardinalities),
        other.no_duplicates(),
        other.to_set().subset_of(ids_of(graph.edges)),
        spans(graph.edges, other.to_set()),
    ensures
        total_cost(cardinalities, tree) <= total_cost(cardinalities, other),
{
    let n = graph.edges.len() as int;
    let exchanged = lemma_exchange(graph.edges, cardinalities, other, n);
    lemma_cost_of_part(cardinalities, tree, exchanged);
}

} // verus!
