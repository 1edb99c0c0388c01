//! Spanning trees of a query graph: the cheapest one, and those near it.
use crate::connect::{
    acyclic, acyclic_in_part, acyclic_with_one_more, between, distinct_ids, ids_of, is_walk,
    lemma_empty_partition, lemma_partition_step, linked, linked_both_ways, linked_in_turn,
    linked_with_one_more, no_edges_are_acyclic, partition_of, step,
};
use crate::order::{sort, sorted, sorting_orders_the_values, Ordered};
use crate::query::{contains_id, EdgeId, EdgeView, GraphView, QueryGraph, VertexId};
use crate::union_find::{partition_is_rooted, UnionFind};
use std::collections::HashMap;
use vstd::prelude::*;

verus! {

broadcast use vstd::std_specs::hash::group_hash_axioms;

/// Whether numbers are in strictly ascending order.
pub open spec fn ascending(s: Seq<u64>) -> bool {
    forall|i: int, j: int| #![trigger s[i], s[j]] 0 <= i < j < s.len() ==> s[i] < s[j]
}

pub proof fn lemma_sorted_ids(s: Seq<u64>)
    requires
        s.no_duplicates(),
    ensures
        ascending(sorted(s)),
        sorted(s).to_set() == s.to_set(),
        sorted(s).len() == s.len(),
        sorted(s).no_duplicates(),
{
    sorting_orders_the_values(s);
    let t = sorted(s);
    s.lemma_multiset_has_no_duplicates();
    assert(t.to_multiset() == s.to_multiset());
    t.lemma_multiset_has_no_duplicates_conv();
    assert forall|i: int, j: int| #![trigger t[i], t[j]] 0 <= i < j < t.len() implies t[i] < t[j] by {
        assert(t[i].at_or_before(t[j]));
        assert(t[i] != t[j]);
    }
    assert(t.to_set() =~= s.to_set()) by {
        assert forall|x: u64| t.to_set().contains(x) <==> s.to_set().contains(x) by {
            assert(t.contains(x) <==> s.contains(x));
        }
    }
}

/// Two ascending sequences of the same numbers are equal.
pub proof fn ascending_is_unique(a: Seq<u64>, b: Seq<u64>)
    requires
        ascending(a),
        ascending(b),
        a.to_set() == b.to_set(),
    ensures
        a == b,
    decreases a.len(),
{
    if a.len() == 0 {
        if b.len() > 0 {
            assert(b.contains(b[0]));
            assert(a.to_set().contains(b[0]));
        }
        assert(a =~= b);
    } else if b.len() == 0 {
        assert(a.contains(a[0]));
        assert(b.to_set().contains(a[0]));
    } else {
        assert(a.contains(a.last()));
        assert(b.to_set().contains(a.last()));
        let i = choose|i: int| 0 <= i < b.len() && b[i] == a.last();
        assert(b.contains(b.last()));
        assert(a.to_set().contains(b.last()));
        let j = choose|j: int| 0 <= j < a.len() && a[j] == b.last();
        assert(a.last() == b.last()) by {
            if i < b.len() - 1 {
                assert(b[i] < b[b.len() - 1]);
                if j < a.len() - 1 {
                    assert(a[j] < a[a.len() - 1]);
                }
            }
        }
        assert(a.drop_last().to_set() =~= a.to_set().remove(a.last())) by {
            assert forall|x: u64| a.drop_last().to_set().contains(x) <==> a.to_set().remove(
                a.last(),
            ).contains(x) by {
                if a.drop_last().contains(x) {
                    let k = choose|k: int| 0 <= k < a.len() - 1 && a.drop_last()[k] == x;
                    assert(a[k] < a[a.len() - 1]);
                }
                if a.contains(x) && x != a.last() {
                    let k = choose|k: int| 0 <= k < a.len() && a[k] == x;
                    assert(a.drop_last()[k] == x);
                }
            }
        }
        assert(b.drop_last().to_set() =~= b.to_set().remove(b.last())) by {
            assert forall|x: u64| b.drop_last().to_set().contains(x) <==> b.to_set().remove(
                b.last(),
            ).contains(x) by {
                if b.drop_last().contains(x) {
                    let k = choose|k: int| 0 <= k < b.len() - 1 && b.drop_last()[k] == x;
                    assert(b[k] < b[b.len() - 1]);
                }
                if b.contains(x) && x != b.last() {
                    let k = choose|k: int| 0 <= k < b.len() && b[k] == x;
                    assert(b.drop_last()[k] == x);
                }
            }
        }
        ascending_is_unique(a.drop_last(), b.drop_last());
        assert(a =~= a.drop_last().push(a.last()));
        assert(b =~= b.drop_last().push(b.last()));
    }
}

/// Ids in ascending order.
pub fn sort_ids(ids: Vec<u64>) -> (result: Vec<u64>)
    requires
        ids@.no_duplicates(),
    ensures
        ascending(result@),
        result@.to_set() == ids@.to_set(),
        result@.len() == ids@.len(),
        result@.no_duplicates(),
{
    proof {
        lemma_sorted_ids(ids@);
    }
    sort(ids)
}

proof fn lemma_ids_of_take(edges: Seq<EdgeView>, i: int)
    requires
        distinct_ids(edges),
        0 <= i < edges.len(),
    ensures
        ids_of(edges.take(i + 1)) == ids_of(edges.take(i)).insert(edges[i].id),
        !ids_of(edges.take(i)).contains(edges[i].id),
{
    let f = |e: EdgeView| e.id;
    let before = edges.take(i).map_values(f);
    let after = edges.take(i + 1).map_values(f);
    assert(after =~= before.push(edges[i].id));
    before.lemma_push_to_set_commute(edges[i].id);
    if before.to_set().contains(edges[i].id) {
        let j = choose|j: int| 0 <= j < before.len() && before[j] == edges[i].id;
        assert(edges[j].id != edges[i].id);
    }
}

/// A position's id is among the ids.
pub proof fn lemma_id_is_listed(edges: Seq<EdgeView>, i: int)
    requires
        0 <= i < edges.len(),
    ensures
        ids_of(edges).contains(edges[i].id),
{
    let ids = edges.map_values(|e: EdgeView| e.id);
    assert(ids[i] == edges[i].id);
    assert(ids.contains(edges[i].id));
}

impl QueryGraph {
    /// Whether the edges of the graph close a cycle, whatever their directions.
    pub fn has_cycle(&self) -> (result: bool)
        requires
            self@.wf(),
        ensures
            result == !acyclic(self@.edges, ids_of(self@.edges)),
    {
        let ghost edges = self@.edges;
        let mut sets = UnionFind::new();
        let mut i: usize = 0;
        proof {
            lemma_empty_partition(edges);
            no_edges_are_acyclic(edges);
            assert(ids_of(edges.take(0)) =~= Set::empty());
        }
        while i < self.edges.len()
            invariant
                self@.wf(),
                edges == self@.edges,
                sets.wf(),
                i <= edges.len(),
                edges.len() == self.edges@.len(),
                partition_of(sets@, edges, ids_of(edges.take(i as int))),
                acyclic(edges, ids_of(edges.take(i as int))),
            decreases self.edges.len() - i,
        {
            let ghost before = sets@;
            let edge = &self.edges[i];
            proof {
                lemma_ids_of_take(edges, i as int);
                assert(edge@ == edges[i as int]);
            }
            let merged = sets.union(edge.src_vertex_id, edge.dst_vertex_id);
            proof {
                partition_is_rooted(sets);
                lemma_partition_step(
                    before,
                    sets@,
                    merged,
                    edges,
                    ids_of(edges.take(i as int)),
                    i as int,
                );
                acyclic_with_one_more(edges, ids_of(edges.take(i as int)), i as int);
            }
            if !merged {
                proof {
                    assert(ids_of(edges.take(i + 1)).subset_of(ids_of(edges))) by {
                        assert forall|x: EdgeId| ids_of(edges.take(i + 1)).contains(x) implies ids_of(
                            edges,
                        ).contains(x) by {
                            let ids = edges.take(i + 1).map_values(|e: EdgeView| e.id);
                            let j = choose|j: int| 0 <= j < ids.len() && ids[j] == x;
                            lemma_id_is_listed(edges, j);
                        }
                    }
                    if acyclic(edges, ids_of(edges)) {
                        acyclic_in_part(edges, ids_of(edges.take(i + 1)), ids_of(edges));
                    }
                }
                return true;
            }
            i = i + 1;
        }
        assert(edges.take(edges.len() as int) =~= edges);
        false
    }
}

/// The cost of an edge; one that is not listed costs 1.
pub open spec fn cost(cardinalities: Map<EdgeId, u64>, id: EdgeId) -> u64 {
    if cardinalities.contains_key(id) {
        cardinalities[id]
    } else {
        1
    }
}

/// What edges cost together.
pub open spec fn total_cost(cardinalities: Map<EdgeId, u64>, ids: Seq<EdgeId>) -> nat
    decreases ids.len(),
{
    if ids.len() == 0 {
        0
    } else {
        total_cost(cardinalities, ids.drop_last()) + cost(cardinalities, ids.last()) as nat
    }
}

pub proof fn lemma_cost_remove(cardinalities: Map<EdgeId, u64>, ids: Seq<EdgeId>, i: int)
    requires
        0 <= i < ids.len(),
    ensures
        total_cost(cardinalities, ids) == total_cost(cardinalities, ids.remove(i)) + cost(
            cardinalities,
            ids[i],
        ),
    decreases ids.len(),
{
    if i == ids.len() - 1 {
        assert(ids.remove(i) =~= ids.drop_last());
    } else {
        lemma_cost_remove(cardinalities, ids.drop_last(), i);
        assert(ids.remove(i).drop_last() =~= ids.drop_last().remove(i));
        assert(ids.remove(i).last() == ids.last());
    }
}

/// Distinct edges out of a list cost no more than the list.
pub proof fn lemma_cost_of_part(cardinalities: Map<EdgeId, u64>, part: Seq<EdgeId>, all: Seq<EdgeId>)
    requires
        part.no_duplicates(),
        part.to_set().subset_of(all.to_set()),
    ensures
        total_cost(cardinalities, part) <= total_cost(cardinalities, all),
    decreases all.len(),
{
    if all.len() == 0 {
        if part.len() > 0 {
            assert(part.contains(part[0]));
            assert(all.to_set().contains(part[0]));
        }
    } else {
        let id = all.last();
        if part.contains(id) {
            let i = choose|i: int| 0 <= i < part.len() && part[i] == id;
            let rest = part.remove(i);
            lemma_cost_remove(cardinalities, part, i);
            assert(rest.no_duplicates()) by {
                assert forall|j: int, k: int|
                    0 <= j < rest.len() && 0 <= k < rest.len() && j != k implies rest[j]
                    != rest[k] by {
                    let jj = if j < i { j } else { j + 1 };
                    let kk = if k < i { k } else { k + 1 };
                    assert(part[jj] != part[kk]);
                }
            }
            assert(rest.to_set().subset_of(all.drop_last().to_set())) by {
                assert forall|x: EdgeId| rest.to_set().contains(x) implies all.drop_last().to_set().contains(
                    x,
                ) by {
                    let j = choose|j: int| 0 <= j < rest.len() && rest[j] == x;
                    let jj = if j < i { j } else { j + 1 };
                    assert(part[jj] == x);
                    assert(part.contains(x));
                    assert(part[jj] != part[i]);
                    assert(all.to_set().contains(x));
                    let k = choose|k: int| 0 <= k < all.len() && all[k] == x;
                    assert(all.drop_last()[k] == x);
                }
            }
            lemma_cost_of_part(cardinalities, rest, all.drop_last());
        } else {
            assert(part.to_set().subset_of(all.drop_last().to_set())) by {
                assert forall|x: EdgeId| part.to_set().contains(x) implies all.drop_last().to_set().contains(
                    x,
                ) by {
                    assert(part.contains(x));
                    assert(all.to_set().contains(x));
                    let k = choose|k: int| 0 <= k < all.len() && all[k] == x;
                    assert(all.drop_last()[k] == x);
                }
            }
            lemma_cost_of_part(cardinalities, part, all.drop_last());
        }
    }
}

/// The cost of an edge.
fn edge_cost(cardinalities: &HashMap<EdgeId, u64>, id: EdgeId) -> (result: u64)
    ensures
        result == cost(cardinalities@, id),
{
    match cardinalities.get(&id) {
        Some(c) => *c,
        None => 1,
    }
}

/// What edges cost together.
pub fn sum_cost(cardinalities: &HashMap<EdgeId, u64>, ids: &Vec<EdgeId>) -> (result: u64)
    requires
        total_cost(cardinalities@, ids@) <= u64::MAX,
    ensures
        result == total_cost(cardinalities@, ids@),
{
    let mut sum: u64 = 0;
    let mut i: usize = 0;
    assert(ids@.take(0) =~= Seq::empty());
    while i < ids.len()
        invariant
            i <= ids@.len(),
            total_cost(cardinalities@, ids@) <= u64::MAX,
            sum == total_cost(cardinalities@, ids@.take(i as int)),
        decreases ids.len() - i,
    {
        proof {
            assert(ids@.take(i + 1).drop_last() =~= ids@.take(i as int));
            lemma_cost_of_prefix(cardinalities@, ids@, i + 1);
        }
        sum = sum + edge_cost(cardinalities, ids[i]);
        i = i + 1;
    }
    assert(ids@.take(ids@.len() as int) =~= ids@);
    sum
}

proof fn lemma_cost_of_prefix(cardinalities: Map<EdgeId, u64>, ids: Seq<EdgeId>, n: int)
    requires
        0 <= n <= ids.len(),
    ensures
        total_cost(cardinalities, ids.take(n)) <= total_cost(cardinalities, ids),
    decreases ids.len() - n,
{
    if n < ids.len() {
        assert(ids.take(n + 1).drop_last() =~= ids.take(n));
        lemma_cost_of_prefix(cardinalities, ids, n + 1);
    } else {
        assert(ids.take(n) =~= ids);
    }
}

/// An edge of a graph with its cost.
pub struct PricedEdge {
    pub cost: u64,
    pub id: EdgeId,
    pub position: usize,
}

impl Ordered for PricedEdge {
    /// Cheaper edges come first; of those that cost the same, that with the smaller id.
    open spec fn at_or_before(self, other: PricedEdge) -> bool {
        self.cost < other.cost || (self.cost == other.cost && self.id <= other.id)
    }

    proof fn order_is_total(a: PricedEdge, b: PricedEdge) {
    }

    proof fn order_is_transitive(a: PricedEdge, b: PricedEdge, c: PricedEdge) {
    }

    fn may_precede(&self, other: &PricedEdge) -> (result: bool) {
        self.cost < other.cost || (self.cost == other.cost && self.id <= other.id)
    }
}

/// The edges of a graph with their costs.
pub open spec fn priced(edges: Seq<EdgeView>, cardinalities: Map<EdgeId, u64>) -> Seq<PricedEdge> {
    Seq::new(
        edges.len(),
        |i: int|
            PricedEdge {
                cost: cost(cardinalities, edges[i].id),
                id: edges[i].id,
                position: i as usize,
            },
    )
}

/// The ids of the first `n` edges of an order.
pub open spec fn first_ids(order: Seq<PricedEdge>, n: int) -> Set<EdgeId> {
    order.take(n).map_values(|p: PricedEdge| p.id).to_set()
}

/// Whether an edge of an order joins what those before it do not.
pub open spec fn is_picked(edges: Seq<EdgeView>, order: Seq<PricedEdge>, i: int) -> bool {
    let e = edges[order[i].position as int];
    !linked(edges, first_ids(order, i), e.src, e.dst)
}

/// The edges among the first `n` of an order that join what those before them do not.
pub open spec fn picked(edges: Seq<EdgeView>, order: Seq<PricedEdge>, n: int) -> Set<EdgeId> {
    Set::new(
        |id: EdgeId|
            exists|i: int| 0 <= i < n && (#[trigger] order[i]).id == id && is_picked(edges, order, i),
    )
}

/// The edges that greedy choice in the order of cost takes: each that joins two vertices which
/// no cheaper edges join.
pub open spec fn cheapest(edges: Seq<EdgeView>, cardinalities: Map<EdgeId, u64>) -> Set<EdgeId> {
    picked(edges, sorted(priced(edges, cardinalities)), edges.len() as int)
}

/// A candidate for a spanning tree: the ids of its edges in ascending order, and their cost.
#[derive(Debug, Clone)]
pub struct CandidateTree {
    pub edge_ids: Vec<EdgeId>,
    pub total_score: u64,
}

/// Whether an order lists the edges of a graph, each once.
pub open spec fn lists_edges(edges: Seq<EdgeView>, order: Seq<PricedEdge>) -> bool {
    &&& order.len() == edges.len()
    &&& forall|i: int|
        #![trigger order[i]]
        0 <= i < order.len() ==> order[i].position < edges.len() && order[i].id
            == edges[order[i].position as int].id
    &&& forall|i: int, j: int|
        #![trigger order[i], order[j]]
        0 <= i < j < order.len() ==> order[i].id != order[j].id
    &&& forall|k: int|
        0 <= k < edges.len() ==> exists|i: int|
            0 <= i < order.len() && (#[trigger] order[i]).id == (#[trigger] edges[k]).id
}

pub proof fn lemma_order_lists_edges(edges: Seq<EdgeView>, cardinalities: Map<EdgeId, u64>)
    requires
        distinct_ids(edges),
        edges.len() <= usize::MAX,
    ensures
        lists_edges(edges, sorted(priced(edges, cardinalities))),
{
    let plain = priced(edges, cardinalities);
    let order = sorted(plain);
    sorting_orders_the_values(plain);
    assert(plain.no_duplicates()) by {
        assert forall|i: int, j: int|
            0 <= i < plain.len() && 0 <= j < plain.len() && i != j implies plain[i] != plain[j] by {
            if i < j {
                assert(edges[i].id != edges[j].id);
            } else {
                assert(edges[j].id != edges[i].id);
            }
        }
    }
    plain.lemma_multiset_has_no_duplicates();
    order.lemma_multiset_has_no_duplicates_conv();
    assert forall|i: int| #![trigger order[i]] 0 <= i < order.len() implies order[i].position
        < edges.len() && order[i].id == edges[order[i].position as int].id by {
        assert(order.contains(order[i]));
        assert(plain.contains(order[i]));
        let k = choose|k: int| 0 <= k < plain.len() && plain[k] == order[i];
    }
    assert forall|i: int, j: int|
        #![trigger order[i], order[j]]
        0 <= i < j < order.len() implies order[i].id != order[j].id by {
        assert(order.contains(order[i]) && order.contains(order[j]));
        assert(plain.contains(order[i]) && plain.contains(order[j]));
        let k = choose|k: int| 0 <= k < plain.len() && plain[k] == order[i];
        let m = choose|m: int| 0 <= m < plain.len() && plain[m] == order[j];
        assert(order[i] != order[j]);
        if k < m {
            assert(edges[k].id != edges[m].id);
        } else if m < k {
            assert(edges[m].id != edges[k].id);
        }
    }
    assert forall|k: int| 0 <= k < edges.len() implies exists|i: int|
        0 <= i < order.len() && (#[trigger] order[i]).id == (#[trigger] edges[k]).id by {
        assert(plain.contains(plain[k]));
        assert(order.contains(plain[k]));
        let i = choose|i: int| 0 <= i < order.len() && order[i] == plain[k];
        assert(order[i].id == edges[k].id);
    }
}

proof fn lemma_first_ids(edges: Seq<EdgeView>, order: Seq<PricedEdge>, i: int)
    requires
        lists_edges(edges, order),
        0 <= i < order.len(),
    ensures
        first_ids(order, i + 1) == first_ids(order, i).insert(order[i].id),
        !first_ids(order, i).contains(order[i].id),
{
    let f = |p: PricedEdge| p.id;
    let before = order.take(i).map_values(f);
    assert(order.take(i + 1).map_values(f) =~= before.push(order[i].id));
    before.lemma_push_to_set_commute(order[i].id);
    if before.to_set().contains(order[i].id) {
        let j = choose|j: int| 0 <= j < before.len() && before[j] == order[i].id;
        assert(order[j].id != order[i].id);
    }
}

pub proof fn lemma_picked_step(edges: Seq<EdgeView>, order: Seq<PricedEdge>, i: int)
    requires
        lists_edges(edges, order),
        0 <= i < order.len(),
    ensures
        picked(edges, order, i + 1) == (if is_picked(edges, order, i) {
            picked(edges, order, i).insert(order[i].id)
        } else {
            picked(edges, order, i)
        }),
        !picked(edges, order, i).contains(order[i].id),
{
    let before = picked(edges, order, i);
    let after = picked(edges, order, i + 1);
    let id = order[i].id;
    if before.contains(id) {
        let j = choose|j: int|
            0 <= j < i && (#[trigger] order[j]).id == id && is_picked(edges, order, j);
        assert(order[j].id != order[i].id);
    }
    assert forall|x: EdgeId| after.contains(x) <==> (before.contains(x) || (x == id && is_picked(
        edges,
        order,
        i,
    ))) by {
        if after.contains(x) {
            let j = choose|j: int|
                0 <= j < i + 1 && (#[trigger] order[j]).id == x && is_picked(edges, order, j);
            if j < i {
                assert(before.contains(x));
            }
        }
        if before.contains(x) {
            let j = choose|j: int|
                0 <= j < i && (#[trigger] order[j]).id == x && is_picked(edges, order, j);
            assert(order[j].id == x && is_picked(edges, order, j));
        }
        if x == id && is_picked(edges, order, i) {
            assert(order[i].id == x);
        }
    }
    assert(after =~= (if is_picked(edges, order, i) {
        before.insert(id)
    } else {
        before
    }));
}

/// The picked edges join what all of the edges join, and close no cycle.
proof fn lemma_picked_span(edges: Seq<EdgeView>, order: Seq<PricedEdge>, n: int)
    requires
        distinct_ids(edges),
        lists_edges(edges, order),
        0 <= n <= order.len(),
    ensures
        acyclic(edges, picked(edges, order, n)),
        forall|a: VertexId, b: VertexId|
            #![trigger linked(edges, picked(edges, order, n), a, b)]
            #![trigger linked(edges, first_ids(order, n), a, b)]
            linked(edges, picked(edges, order, n), a, b) <==> linked(
                edges,
                first_ids(order, n),
                a,
                b,
            ),
    decreases n,
{
    if n == 0 {
        assert(picked(edges, order, 0) =~= Set::empty());
        assert(first_ids(order, 0) =~= Set::empty());
        no_edges_are_acyclic(edges);
    } else {
        let i = n - 1;
        let p = order[i].position as int;
        let some = picked(edges, order, i);
        let all = first_ids(order, i);
        lemma_picked_span(edges, order, i);
        lemma_picked_step(edges, order, i);
        lemma_first_ids(edges, order, i);
        assert(linked(edges, some, edges[p].src, edges[p].dst) <==> linked(
            edges,
            all,
            edges[p].src,
            edges[p].dst,
        ));
        acyclic_with_one_more(edges, some, p);
        assert forall|a: VertexId, b: VertexId|
            #![trigger linked(edges, picked(edges, order, n), a, b)]
            #![trigger linked(edges, first_ids(order, n), a, b)]
            linked(edges, picked(edges, order, n), a, b) <==> linked(
            edges,
            first_ids(order, n),
            a,
            b,
        ) by {
            linked_with_one_more(edges, all, p, a, b);
            linked_with_one_more(edges, some, p, a, b);
            let x = edges[p].src;
            let y = edges[p].dst;
            assert(linked(edges, some, a, b) <==> linked(edges, all, a, b));
            assert(linked(edges, some, a, x) <==> linked(edges, all, a, x));
            assert(linked(edges, some, y, b) <==> linked(edges, all, y, b));
            assert(linked(edges, some, a, y) <==> linked(edges, all, a, y));
            assert(linked(edges, some, x, b) <==> linked(edges, all, x, b));
            if !is_picked(edges, order, i) {
                linked_both_ways(edges, all, x, y);
                if linked(edges, all, a, x) && linked(edges, all, y, b) {
                    linked_in_turn(edges, all, a, x, y);
                    linked_in_turn(edges, all, a, y, b);
                }
                if linked(edges, all, a, y) && linked(edges, all, x, b) {
                    linked_in_turn(edges, all, a, y, x);
                    linked_in_turn(edges, all, a, x, b);
                }
            }
        }
    }
}

/// The greedy choice joins exactly the vertices that the graph joins, and closes no cycle.
pub proof fn cheapest_spans(graph: GraphView, cardinalities: Map<EdgeId, u64>)
    requires
        graph.wf(),
        graph.edges.len() <= usize::MAX,
    ensures
        acyclic(graph.edges, cheapest(graph.edges, cardinalities)),
        cheapest(graph.edges, cardinalities).subset_of(ids_of(graph.edges)),
        forall|a: VertexId, b: VertexId|
            #![trigger linked(graph.edges, cheapest(graph.edges, cardinalities), a, b)]
            linked(graph.edges, cheapest(graph.edges, cardinalities), a, b) <==> linked(
                graph.edges,
                ids_of(graph.edges),
                a,
                b,
            ),
{
    let edges = graph.edges;
    let order = sorted(priced(edges, cardinalities));
    let n = edges.len() as int;
    lemma_order_lists_edges(edges, cardinalities);
    lemma_picked_span(edges, order, n);
    assert(first_ids(order, n) =~= ids_of(edges)) by {
        assert(order.take(n) =~= order);
        let listed = order.map_values(|p: PricedEdge| p.id);
        let ids = edges.map_values(|e: EdgeView| e.id);
        assert forall|x: EdgeId| listed.to_set().contains(x) <==> ids.to_set().contains(x) by {
            if listed.contains(x) {
                let i = choose|i: int| 0 <= i < listed.len() && listed[i] == x;
                assert(order[i].id == x);
                assert(ids[order[i].position as int] == x);
            }
            if ids.contains(x) {
                let k = choose|k: int| 0 <= k < ids.len() && ids[k] == x;
                assert(edges[k].id == x);
                let i = choose|i: int| 0 <= i < order.len() && (#[trigger] order[i]).id == edges[k].id;
                assert(listed[i] == x);
            }
        }
    }
    assert forall|x: EdgeId| cheapest(edges, cardinalities).contains(x) implies ids_of(
        edges,
    ).contains(x) by {
        let i = choose|i: int|
            0 <= i < n && (#[trigger] order[i]).id == x && is_picked(edges, order, i);
        lemma_id_is_listed(edges, order[i].position as int);
    }
}

impl QueryGraph {
    /// The edges of the graph with their costs.
    fn price_edges(&self, cardinalities: &HashMap<EdgeId, u64>) -> (result: Vec<PricedEdge>)
        ensures
            result@ == priced(self@.edges, cardinalities@),
    {
        let mut result: Vec<PricedEdge> = Vec::new();
        let mut i: usize = 0;
        while i < self.edges.len()
            invariant
                i <= self.edges@.len(),
                result@.len() == i,
                forall|j: int|
                    0 <= j < i ==> #[trigger] result@[j] == priced(
                        self@.edges,
                        cardinalities@,
                    )[j],
            decreases self.edges.len() - i,
        {
            let id: EdgeId = self.edges[i].id;
            result.push(PricedEdge { cost: edge_cost(cardinalities, id), id, position: i });
            i = i + 1;
        }
        assert(result@ =~= priced(self@.edges, cardinalities@));
        result
    }

    /// The cheapest spanning tree, or forest where the graph is not connected, by greedy
    /// choice; `None` where no edge joins two vertices.
    pub fn build_best_spanning_tree(&self, cardinalities: &HashMap<EdgeId, u64>) -> (result: Option<
        CandidateTree,
    >)
        requires
            self@.wf(),
            total_cost(cardinalities@, self@.edges.map_values(|e: EdgeView| e.id)) <= u64::MAX,
        ensures
            match result {
                Some(tree) => {
                    &&& ascending(tree.edge_ids@)
                    &&& tree.edge_ids@.no_duplicates()
                    &&& tree.edge_ids@.to_set() == cheapest(self@.edges, cardinalities@)
                    &&& tree.edge_ids@.len() > 0
                    &&& tree.total_score == total_cost(cardinalities@, tree.edge_ids@)
                },
                None => cheapest(self@.edges, cardinalities@) == Set::<EdgeId>::empty(),
            },
    {
        let ghost edges = self@.edges;
        let ghost order = sorted(priced(edges, cardinalities@));
        let ranked = sort(self.price_edges(cardinalities));
        let mut sets = UnionFind::new();
        let mut selected: Vec<EdgeId> = Vec::new();
        let mut i: usize = 0;
        proof {
            assert(edges.len() == self.edges.len());
            lemma_order_lists_edges(edges, cardinalities@);
            lemma_empty_partition(edges);
            assert(first_ids(order, 0) =~= Set::empty());
            assert(picked(edges, order, 0) =~= Set::empty());
            assert(selected@.to_set() =~= Set::empty());
        }
        while i < ranked.len()
            invariant
                self@.wf(),
                edges == self@.edges,
                edges.len() == self.edges@.len(),
                ranked@ == order,
                lists_edges(edges, order),
                sets.wf(),
                i <= order.len(),
                partition_of(sets@, edges, first_ids(order, i as int)),
                selected@.no_duplicates(),
                selected@.to_set() == picked(edges, order, i as int),
            decreases ranked.len() - i,
        {
            let ghost before = sets@;
            let ghost chosen = selected@;
            let position: usize = ranked[i].position;
            let edge = &self.edges[position];
            assert(edge@ == edges[position as int]);
            let merged = sets.union(edge.src_vertex_id, edge.dst_vertex_id);
            proof {
                partition_is_rooted(sets);
                lemma_first_ids(edges, order, i as int);
                lemma_partition_step(
                    before,
                    sets@,
                    merged,
                    edges,
                    first_ids(order, i as int),
                    position as int,
                );
                lemma_picked_step(edges, order, i as int);
            }
            if merged {
                selected.push(edge.id);
                proof {
                    chosen.lemma_push_to_set_commute(edge.id);
                    assert(!chosen.to_set().contains(edge.id));
                    assert(!chosen.contains(edge.id));
                }
            }
            i = i + 1;
        }
        if selected.len() == 0 {
            assert(selected@.to_set() =~= Set::empty());
            return None;
        }
        let edge_ids = sort_ids(selected);
        proof {
            cheapest_spans(self@, cardinalities@);
            lemma_cost_of_part(
                cardinalities@,
                edge_ids@,
                edges.map_values(|e: EdgeView| e.id),
            );
        }
        let total_score: u64 = sum_cost(cardinalities, &edge_ids);
        Some(CandidateTree { edge_ids, total_score })
    }
}

/// Whether a sequence of edges leads along a sequence of vertices, through chosen edges only
/// and never twice to one vertex.
pub open spec fn is_trail(
    edges: Seq<EdgeView>,
    chosen: Set<EdgeId>,
    walk: Seq<VertexId>,
    path: Seq<EdgeId>,
) -> bool {
    &&& walk.len() == path.len() + 1
    &&& walk.no_duplicates()
    &&& forall|i: int|
        #![trigger path[i]]
        0 <= i < path.len() ==> chosen.contains(path[i]) && leads(
            edges,
            path[i],
            walk[i],
            walk[i + 1],
        )
}

/// Whether chosen edges lead from one vertex to another, never twice to one vertex.
pub open spec fn is_way(
    edges: Seq<EdgeView>,
    chosen: Set<EdgeId>,
    path: Seq<EdgeId>,
    a: VertexId,
    b: VertexId,
) -> bool {
    exists|walk: Seq<VertexId>| #[trigger]
        is_trail(edges, chosen, walk, path) && walk.first() == a && walk.last() == b
}

/// Whether the edge with an id lies between two vertices.
pub open spec fn leads(edges: Seq<EdgeView>, id: EdgeId, x: VertexId, y: VertexId) -> bool {
    exists|k: int| 0 <= k < edges.len() && edges[k].id == id && between(#[trigger] edges[k], x, y)
}

/// A part of a trail links its ends, without an edge that is not on it.
proof fn lemma_trail_links(
    edges: Seq<EdgeView>,
    chosen: Set<EdgeId>,
    walk: Seq<VertexId>,
    path: Seq<EdgeId>,
    from: int,
    to: int,
    without: EdgeId,
)
    requires
        is_trail(edges, chosen, walk, path),
        0 <= from <= to <= path.len(),
        forall|i: int| from <= i < to ==> path[i] != without,
    ensures
        linked(edges, chosen.remove(without), walk[from], walk[to]),
{
    let part = walk.subrange(from, to + 1);
    let rest = chosen.remove(without);
    assert forall|i: int| 0 <= i < part.len() - 1 implies step(
        edges,
        rest,
        #[trigger] part[i],
        part[i + 1],
    ) by {
        assert(chosen.contains(path[from + i]));
        let k = choose|k: int|
            0 <= k < edges.len() && edges[k].id == path[from + i] && between(
                #[trigger] edges[k],
                walk[from + i],
                walk[from + i + 1],
            );
        assert(rest.contains(edges[k].id));
    }
    assert(is_walk(edges, rest, part) && part.first() == walk[from] && part.last() == walk[to]);
}

/// No edge is on a trail twice.
proof fn lemma_trail_edges_distinct(
    edges: Seq<EdgeView>,
    chosen: Set<EdgeId>,
    walk: Seq<VertexId>,
    path: Seq<EdgeId>,
)
    requires
        distinct_ids(edges),
        is_trail(edges, chosen, walk, path),
    ensures
        path.no_duplicates(),
{
    assert forall|i: int, j: int| 0 <= i < path.len() && 0 <= j < path.len() && i != j implies path[i]
        != path[j] by {
        if path[i] == path[j] {
            let k = choose|k: int|
                0 <= k < edges.len() && edges[k].id == path[i] && between(
                    #[trigger] edges[k],
                    walk[i],
                    walk[i + 1],
                );
            let m = choose|m: int|
                0 <= m < edges.len() && edges[m].id == path[j] && between(
                    #[trigger] edges[m],
                    walk[j],
                    walk[j + 1],
                );
            if k < m {
                assert(edges[k].id != edges[m].id);
            } else if m < k {
                assert(edges[m].id != edges[k].id);
            }
            assert(walk[i] != walk[j]);
            assert(walk[i + 1] != walk[j + 1]);
            if i + 1 != j {
                assert(walk[i + 1] != walk[j]);
            } else {
                assert(walk[i] != walk[j + 1]);
            }
        }
    }
}

/// In an acyclic set, the trail between two vertices has exactly the edges without which the
/// two are not joined.
pub proof fn trail_is_the_only_way(
    edges: Seq<EdgeView>,
    chosen: Set<EdgeId>,
    walk: Seq<VertexId>,
    path: Seq<EdgeId>,
    id: EdgeId,
)
    requires
        distinct_ids(edges),
        acyclic(edges, chosen),
        is_trail(edges, chosen, walk, path),
    ensures
        path.contains(id) <==> !linked(edges, chosen.remove(id), walk.first(), walk.last()),
{
    let rest = chosen.remove(id);
    let a = walk.first();
    let b = walk.last();
    if path.contains(id) {
        lemma_trail_edges_distinct(edges, chosen, walk, path);
        let i = choose|i: int| 0 <= i < path.len() && path[i] == id;
        lemma_trail_links(edges, chosen, walk, path, 0, i, id);
        lemma_trail_links(edges, chosen, walk, path, i + 1, path.len() as int, id);
        let k = choose|k: int|
            0 <= k < edges.len() && edges[k].id == path[i] && between(
                #[trigger] edges[k],
                walk[i],
                walk[i + 1],
            );
        assert(!linked(edges, chosen.remove(edges[k].id), edges[k].src, edges[k].dst));
        if linked(edges, rest, a, b) {
            linked_both_ways(edges, rest, a, walk[i]);
            linked_in_turn(edges, rest, walk[i], a, b);
            linked_both_ways(edges, rest, walk[i + 1], b);
            linked_in_turn(edges, rest, walk[i], b, walk[i + 1]);
            linked_both_ways(edges, rest, walk[i], walk[i + 1]);
        }
    } else {
        lemma_trail_links(edges, chosen, walk, path, 0, path.len() as int, id);
    }
}

/// A trail links its ends.
pub proof fn lemma_trail_is_linked(
    edges: Seq<EdgeView>,
    chosen: Set<EdgeId>,
    walk: Seq<VertexId>,
    path: Seq<EdgeId>,
)
    requires
        is_trail(edges, chosen, walk, path),
    ensures
        linked(edges, chosen, walk.first(), walk.last()),
{
    assert forall|i: int| 0 <= i < walk.len() - 1 implies step(
        edges,
        chosen,
        #[trigger] walk[i],
        walk[i + 1],
    ) by {
        assert(chosen.contains(path[i]));
        let k = choose|k: int|
            0 <= k < edges.len() && edges[k].id == path[i] && between(
                #[trigger] edges[k],
                walk[i],
                walk[i + 1],
            );
        assert(between(edges[k], walk[i], walk[i + 1]));
    }
    assert(is_walk(edges, chosen, walk));
}

/// The vertices that a search in a graph can meet, starting with one.
spec fn pool(edges: Seq<EdgeView>, src: VertexId) -> Seq<VertexId> {
    seq![src] + edges.map_values(|e: EdgeView| e.src) + edges.map_values(|e: EdgeView| e.dst)
}

proof fn lemma_pool(edges: Seq<EdgeView>, src: VertexId, k: int)
    requires
        0 <= k < edges.len(),
    ensures
        pool(edges, src).contains(src),
        pool(edges, src).contains(edges[k].src),
        pool(edges, src).contains(edges[k].dst),
{
    let p = pool(edges, src);
    assert(p[0] == src);
    assert(p[1 + k] == edges[k].src);
    assert(p[1 + edges.len() + k] == edges[k].dst);
}

proof fn lemma_met_bound(edges: Seq<EdgeView>, src: VertexId, met: Seq<VertexId>)
    requires
        met.no_duplicates(),
        forall|i: int| 0 <= i < met.len() ==> pool(edges, src).contains(#[trigger] met[i]),
    ensures
        met.len() <= 2 * edges.len() + 1,
{
    let p = pool(edges, src);
    assert(met.to_set().subset_of(p.to_set())) by {
        assert forall|x: VertexId| met.to_set().contains(x) implies p.to_set().contains(x) by {
            let i = choose|i: int| 0 <= i < met.len() && met[i] == x;
            assert(p.contains(met[i]));
        }
    }
    met.unique_seq_to_set();
    p.lemma_cardinality_of_set();
    vstd::set_lib::lemma_len_subset(met.to_set(), p.to_set());
}

/// What has been met by a search is all that is linked, once nothing new can be met from it.
proof fn lemma_closed(
    edges: Seq<EdgeView>,
    chosen: Set<EdgeId>,
    met: Set<VertexId>,
    walk: Seq<VertexId>,
)
    requires
        is_walk(edges, chosen, walk),
        met.contains(walk.first()),
        forall|k: int|
            #![trigger edges[k]]
            0 <= k < edges.len() && chosen.contains(edges[k].id) ==> (met.contains(edges[k].src)
                <==> met.contains(edges[k].dst)),
    ensures
        met.contains(walk.last()),
    decreases walk.len(),
{
    if walk.len() > 1 {
        let shorter = walk.drop_last();
        assert forall|i: int| 0 <= i < shorter.len() - 1 implies step(
            edges,
            chosen,
            #[trigger] shorter[i],
            shorter[i + 1],
        ) by {
            assert(step(edges, chosen, walk[i], walk[i + 1]));
        }
        lemma_closed(edges, chosen, met, shorter);
        assert(step(edges, chosen, walk[walk.len() - 2], walk[walk.len() - 1]));
        let k = choose|k: int|
            0 <= k < edges.len() && chosen.contains(edges[k].id) && between(
                #[trigger] edges[k],
                walk[walk.len() - 2],
                walk[walk.len() - 1],
            );
    }
}

/// A copy of a list of ids with one more.
fn extended(ids: &Vec<u64>, id: u64) -> (result: Vec<u64>)
    ensures
        result@ == ids@.push(id),
{
    let mut result = copy_ids(ids);
    result.push(id);
    result
}

/// Whether a search has met a vertex.
spec fn is_met(queue: Seq<(VertexId, Vec<EdgeId>)>, v: VertexId) -> bool {
    exists|j: int| 0 <= j < queue.len() && (#[trigger] queue[j]).0 == v
}

/// Whether the edges of an entry lead to its vertex, over vertices that were met.
spec fn reached(
    edges: Seq<EdgeView>,
    tree: Set<EdgeId>,
    src: VertexId,
    queue: Seq<(VertexId, Vec<EdgeId>)>,
    entry: (VertexId, Vec<EdgeId>),
) -> bool {
    exists|walk: Seq<VertexId>| #[trigger]
        is_trail(edges, tree, walk, entry.1@) && walk.first() == src && walk.last() == entry.0 && (
        forall|m: int| 0 <= m < walk.len() ==> is_met(queue, #[trigger] walk[m]))
}

/// What holds of the vertices that a search has met.
spec fn search(
    edges: Seq<EdgeView>,
    tree: Set<EdgeId>,
    src: VertexId,
    queue: Seq<(VertexId, Vec<EdgeId>)>,
) -> bool {
    &&& queue.len() > 0
    &&& queue[0].0 == src
    &&& forall|j: int|
        #![trigger queue[j]]
        0 <= j < queue.len() ==> reached(edges, tree, src, queue, queue[j]) && pool(
            edges,
            src,
        ).contains(queue[j].0)
    &&& forall|i: int, j: int|
        #![trigger queue[i], queue[j]]
        0 <= i < j < queue.len() ==> queue[i].0 != queue[j].0
}

/// Meeting one more vertex, over an edge from one that was met.
proof fn lemma_meet(
    edges: Seq<EdgeView>,
    tree: Set<EdgeId>,
    src: VertexId,
    queue: Seq<(VertexId, Vec<EdgeId>)>,
    head: int,
    k: int,
    entry: (VertexId, Vec<EdgeId>),
)
    requires
        search(edges, tree, src, queue),
        0 <= head < queue.len(),
        0 <= k < edges.len(),
        tree.contains(edges[k].id),
        between(edges[k], queue[head].0, entry.0),
        !is_met(queue, entry.0),
        entry.1@ == queue[head].1@.push(edges[k].id),
    ensures
        search(edges, tree, src, queue.push(entry)),
        forall|v: VertexId| is_met(queue, v) ==> #[trigger] is_met(queue.push(entry), v),
        is_met(queue.push(entry), entry.0),
{
    let more = queue.push(entry);
    assert forall|v: VertexId| is_met(queue, v) implies #[trigger] is_met(more, v) by {
        let j = choose|j: int| 0 <= j < queue.len() && (#[trigger] queue[j]).0 == v;
        assert(more[j].0 == v);
    }
    assert(more[queue.len() as int].0 == entry.0);
    assert forall|j: int| #![trigger more[j]] 0 <= j < more.len() implies reached(
        edges,
        tree,
        src,
        more,
        more[j],
    ) && pool(edges, src).contains(more[j].0) by {
        if j < queue.len() {
            assert(reached(edges, tree, src, queue, queue[j]));
            let walk = choose|walk: Seq<VertexId>| #[trigger]
                is_trail(edges, tree, walk, queue[j].1@) && walk.first() == src && walk.last()
                    == queue[j].0 && (forall|m: int|
                    0 <= m < walk.len() ==> is_met(queue, #[trigger] walk[m]));
            assert(is_trail(edges, tree, walk, more[j].1@));
        } else {
            assert(reached(edges, tree, src, queue, queue[head]));
            let walk = choose|walk: Seq<VertexId>| #[trigger]
                is_trail(edges, tree, walk, queue[head].1@) && walk.first() == src && walk.last()
                    == queue[head].0 && (forall|m: int|
                    0 <= m < walk.len() ==> is_met(queue, #[trigger] walk[m]));
            let longer = walk.push(entry.0);
            assert(longer.no_duplicates()) by {
                assert forall|a: int, b: int|
                    0 <= a < longer.len() && 0 <= b < longer.len() && a != b implies longer[a]
                    != longer[b] by {
                    if a < walk.len() {
                        assert(is_met(queue, walk[a]));
                    }
                    if b < walk.len() {
                        assert(is_met(queue, walk[b]));
                    }
                }
            }
            assert(is_trail(edges, tree, longer, entry.1@)) by {
                assert forall|i: int|
                    #![trigger entry.1@[i]]
                    0 <= i < entry.1@.len() implies tree.contains(entry.1@[i]) && leads(
                    edges,
                    entry.1@[i],
                    longer[i],
                    longer[i + 1],
                ) by {
                    if i < queue[head].1@.len() {
                        assert(entry.1@[i] == queue[head].1@[i]);
                    } else {
                        assert(between(edges[k], longer[i], longer[i + 1]));
                    }
                }
            }
            assert forall|m: int| 0 <= m < longer.len() implies is_met(more, #[trigger] longer[m]) by {
                if m < walk.len() {
                    assert(is_met(queue, walk[m]));
                }
            }
            lemma_pool(edges, src, k);
        }
    }
    assert forall|i: int, j: int|
        #![trigger more[i], more[j]]
        0 <= i < j < more.len() implies more[i].0 != more[j].0 by {
        if j == queue.len() {
            assert(queue[i].0 != entry.0);
        }
    }
}

impl QueryGraph {
    /// Meets the vertices that tree edges lead to from the entry at `head`: forwards along
    /// edges where `outgoing`, backwards otherwise.
    fn meet_neighbors(
        &self,
        tree_edges: &Vec<EdgeId>,
        src: VertexId,
        queue: &mut Vec<(VertexId, Vec<EdgeId>)>,
        head: usize,
        outgoing: bool,
    )
        requires
            self@.wf(),
            search(self@.edges, tree_edges@.to_set(), src, old(queue)@),
            head < old(queue)@.len(),
        ensures
            search(self@.edges, tree_edges@.to_set(), src, final(queue)@),
            final(queue)@.len() >= old(queue)@.len(),
            final(queue)@.take(old(queue)@.len() as int) == old(queue)@,
            forall|v: VertexId| is_met(old(queue)@, v) ==> #[trigger] is_met(final(queue)@, v),
            forall|k: int|
                #![trigger self@.edges[k]]
                0 <= k < self@.edges.len() && tree_edges@.to_set().contains(self@.edges[k].id)
                    ==> if outgoing {
                    self@.edges[k].src == old(queue)@[head as int].0 ==> is_met(
                        final(queue)@,
                        self@.edges[k].dst,
                    )
                } else {
                    self@.edges[k].dst == old(queue)@[head as int].0 ==> is_met(
                        final(queue)@,
                        self@.edges[k].src,
                    )
                },
    {
        let ghost edges = self@.edges;
        let ghost tree = tree_edges@.to_set();
        let current: VertexId = queue[head].0;
        let mut k: usize = 0;
        assert(queue@.take(queue@.len() as int) =~= queue@);
        while k < self.edges.len()
            invariant
                self@.wf(),
                edges == self@.edges,
                edges.len() == self.edges@.len(),
                tree == tree_edges@.to_set(),
                search(edges, tree, src, queue@),
                queue@.len() >= old(queue)@.len(),
                queue@.take(old(queue)@.len() as int) == old(queue)@,
                head < old(queue)@.len(),
                current == old(queue)@[head as int].0,
                k <= edges.len(),
                forall|v: VertexId| is_met(old(queue)@, v) ==> #[trigger] is_met(queue@, v),
                forall|m: int|
                    #![trigger edges[m]]
                    0 <= m < k && tree.contains(edges[m].id) ==> if outgoing {
                        edges[m].src == current ==> is_met(queue@, edges[m].dst)
                    } else {
                        edges[m].dst == current ==> is_met(queue@, edges[m].src)
                    },
            decreases self.edges.len() - k,
        {
            let edge = &self.edges[k];
            assert(edge@ == edges[k as int]);
            let (near, far): (VertexId, VertexId) = if outgoing {
                (edge.src_vertex_id, edge.dst_vertex_id)
            } else {
                (edge.dst_vertex_id, edge.src_vertex_id)
            };
            let in_tree: bool = contains_id(tree_edges, edge.id);
            assert(in_tree == tree.contains(edge.id));
            if in_tree && near == current && !met(queue, far) {
                let ghost before = queue@;
                assert(before[head as int] == before.take(old(queue)@.len() as int)[head as int]);
                let path = extended(&queue[head].1, edge.id);
                let entry: (VertexId, Vec<EdgeId>) = (far, path);
                proof {
                    lemma_meet(edges, tree, src, before, head as int, k as int, entry);
                }
                queue.push(entry);
                assert(queue@.take(old(queue)@.len() as int) =~= before.take(
                    old(queue)@.len() as int,
                ));
            }
            k = k + 1;
        }
    }

    /// The edges of a way from one vertex to another through the edges of a tree, or `None`
    /// where they do not join the two.
    pub fn find_path_edges_in_tree(
        &self,
        tree_edges: &Vec<EdgeId>,
        src: VertexId,
        dst: VertexId,
    ) -> (result: Option<Vec<EdgeId>>)
        requires
            self@.wf(),
        ensures
            match result {
                Some(path) => is_way(self@.edges, tree_edges@.to_set(), path@, src, dst),
                None => !linked(self@.edges, tree_edges@.to_set(), src, dst),
            },
    {
        let ghost edges = self@.edges;
        let ghost tree = tree_edges@.to_set();
        // The vertices met so far, each with the edges that lead to it.
        let mut queue: Vec<(VertexId, Vec<EdgeId>)> = Vec::new();
        queue.push((src, Vec::new()));
        let mut head: usize = 0;
        proof {
            assert(pool(edges, src)[0] == src);
            assert(queue@[0].0 == src);
            assert(is_met(queue@, src));
            assert(is_trail(edges, tree, seq![src], queue@[0].1@));
            assert(reached(edges, tree, src, queue@, queue@[0]));
            assert(queue@.len() == 1);
        }
        while head < queue.len()
            invariant
                self@.wf(),
                edges == self@.edges,
                edges.len() == self.edges@.len(),
                tree == tree_edges@.to_set(),
                search(edges, tree, src, queue@),
                head <= queue@.len(),
                forall|j: int| 0 <= j < head ==> (#[trigger] queue@[j]).0 != dst,
                forall|j: int, k: int|
                    #![trigger queue@[j], edges[k]]
                    0 <= j < head && 0 <= k < edges.len() && tree.contains(edges[k].id) ==> (
                    edges[k].src == queue@[j].0 ==> is_met(queue@, edges[k].dst)) && (edges[k].dst
                        == queue@[j].0 ==> is_met(queue@, edges[k].src)),
            decreases 2 * edges.len() + 1 - head,
        {
            proof {
                let met = queue@.map_values(|q: (VertexId, Vec<EdgeId>)| q.0);
                assert forall|i: int| 0 <= i < met.len() implies pool(edges, src).contains(
                    #[trigger] met[i],
                ) by {
                    assert(pool(edges, src).contains(queue@[i].0));
                }
                assert forall|i: int, j: int|
                    0 <= i < met.len() && 0 <= j < met.len() && i != j implies met[i] != met[j] by {
                    if i < j {
                        assert(queue@[i].0 != queue@[j].0);
                    } else {
                        assert(queue@[j].0 != queue@[i].0);
                    }
                }
                lemma_met_bound(edges, src, met);
            }
            let current: VertexId = queue[head].0;
            if current == dst {
                let path = copy_ids(&queue[head].1);
                proof {
                    assert(reached(edges, tree, src, queue@, queue@[head as int]));
                    let walk = choose|walk: Seq<VertexId>| #[trigger]
                        is_trail(edges, tree, walk, queue@[head as int].1@) && walk.first() == src
                            && walk.last() == queue@[head as int].0 && (forall|m: int|
                            0 <= m < walk.len() ==> is_met(queue@, #[trigger] walk[m]));
                    assert(is_trail(edges, tree, walk, path@));
                    assert(is_way(edges, tree, path@, src, dst));
                }
                return Some(path);
            }
            let ghost first = queue@;
            self.meet_neighbors(tree_edges, src, &mut queue, head, true);
            let ghost second = queue@;
            self.meet_neighbors(tree_edges, src, &mut queue, head, false);
            proof {
                let n = first.len() as int;
                assert(second.take(n) == first);
                assert(queue@.take(second.len() as int) == second);
                assert forall|j: int| 0 <= j < n implies #[trigger] queue@[j] == first[j] by {
                    assert(queue@.take(second.len() as int)[j] == second[j]);
                    assert(second.take(n)[j] == first[j]);
                }
                assert forall|j: int, k: int|
                    #![trigger queue@[j], edges[k]]
                    0 <= j < head + 1 && 0 <= k < edges.len() && tree.contains(
                        edges[k].id,
                    ) implies (edges[k].src == queue@[j].0 ==> is_met(queue@, edges[k].dst)) && (
                edges[k].dst == queue@[j].0 ==> is_met(queue@, edges[k].src)) by {
                    if j < head {
                        assert(first[j].0 == queue@[j].0);
                    } else {
                        assert(second[head as int] == first[head as int]) by {
                            assert(second.take(n)[head as int] == first[head as int]);
                        }
                        if edges[k].src == queue@[j].0 {
                            assert(is_met(second, edges[k].dst));
                        }
                    }
                    if edges[k].src == queue@[j].0 && is_met(first, edges[k].dst) {
                        assert(is_met(second, edges[k].dst));
                    }
                    if edges[k].dst == queue@[j].0 && is_met(first, edges[k].src) {
                        assert(is_met(second, edges[k].src));
                    }
                }
                assert forall|j: int| 0 <= j < head + 1 implies (#[trigger] queue@[j]).0 != dst by {
                    assert(first[j].0 != dst);
                }
            }
            head = head + 1;
        }
        proof {
            if linked(edges, tree, src, dst) {
                let walk = choose|walk: Seq<VertexId>|
                    is_walk(edges, tree, walk) && #[trigger] walk.first() == src && walk.last() == dst;
                let met = Set::new(|v: VertexId| is_met(queue@, v));
                assert(queue@[0].0 == src);
                assert(met.contains(src));
                assert forall|k: int| #![trigger edges[k]] 0 <= k < edges.len() && tree.contains(
                    edges[k].id,
                ) implies (met.contains(edges[k].src) <==> met.contains(edges[k].dst)) by {
                    if met.contains(edges[k].src) {
                        let j = choose|j: int|
                            0 <= j < queue@.len() && (#[trigger] queue@[j]).0 == edges[k].src;
                        assert(queue@[j].0 == edges[k].src);
                    }
                    if met.contains(edges[k].dst) {
                        let j = choose|j: int|
                            0 <= j < queue@.len() && (#[trigger] queue@[j]).0 == edges[k].dst;
                        assert(queue@[j].0 == edges[k].dst);
                    }
                }
                lemma_closed(edges, tree, met, walk);
                let j = choose|j: int| 0 <= j < queue@.len() && (#[trigger] queue@[j]).0 == dst;
                assert(queue@[j].0 != dst);
            }
        }
        None
    }
}

/// Whether a search has met a vertex.
fn met(queue: &Vec<(VertexId, Vec<EdgeId>)>, v: VertexId) -> (result: bool)
    ensures
        result == is_met(queue@, v),
{
    let mut j: usize = 0;
    while j < queue.len()
        invariant
            j <= queue@.len(),
            forall|i: int| 0 <= i < j ==> (#[trigger] queue@[i]).0 != v,
        decreases queue.len() - j,
    {
        if queue[j].0 == v {
            return true;
        }
        j = j + 1;
    }
    false
}

/// A copy of a list of ids.
pub fn copy_ids(ids: &Vec<u64>) -> (result: Vec<u64>)
    ensures
        result@ == ids@,
{
    let mut result: Vec<u64> = Vec::new();
    let mut i: usize = 0;
    while i < ids.len()
        invariant
            i <= ids@.len(),
            result@ == ids@.take(i as int),
        decreases ids.len() - i,
    {
        result.push(ids[i]);
        i = i + 1;
        assert(result@ =~= ids@.take(i as int));
    }
    assert(ids@.take(ids@.len() as int) =~= ids@);
    result
}

} // verus!
