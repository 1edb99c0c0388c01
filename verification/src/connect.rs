//! Which vertices a set of edges joins, and where such a set closes a cycle.
use crate::query::{EdgeId, EdgeView, VertexId};
use crate::union_find::{redirected, root_in, rooted, together, with_vertex};
use vstd::prelude::*;

verus! {

/// Whether an edge lies between two vertices, in either direction.
pub open spec fn between(e: EdgeView, x: VertexId, y: VertexId) -> bool {
    (e.src == x && e.dst == y) || (e.src == y && e.dst == x)
}

/// Whether one of the chosen edges lies between two vertices.
pub open spec fn step(edges: Seq<EdgeView>, chosen: Set<EdgeId>, x: VertexId, y: VertexId) -> bool {
    exists|k: int|
        0 <= k < edges.len() && chosen.contains(edges[k].id) && between(#[trigger] edges[k], x, y)
}

/// Whether a sequence of vertices can be walked along chosen edges.
pub open spec fn is_walk(edges: Seq<EdgeView>, chosen: Set<EdgeId>, walk: Seq<VertexId>) -> bool {
    &&& walk.len() > 0
    &&& forall|i: int|
        0 <= i < walk.len() - 1 ==> step(edges, chosen, #[trigger] walk[i], walk[i + 1])
}

/// Whether chosen edges join two vertices. Every vertex is joined to itself.
pub open spec fn linked(edges: Seq<EdgeView>, chosen: Set<EdgeId>, a: VertexId, b: VertexId) -> bool {
    exists|walk: Seq<VertexId>|
        is_walk(edges, chosen, walk) && #[trigger] walk.first() == a && walk.last() == b
}

/// Whether no chosen edge joins what the other chosen edges join already.
pub open spec fn acyclic(edges: Seq<EdgeView>, chosen: Set<EdgeId>) -> bool {
    forall|k: int|
        0 <= k < edges.len() && chosen.contains(edges[k].id) ==> !linked(
            edges,
            chosen.remove(edges[k].id),
            (#[trigger] edges[k]).src,
            edges[k].dst,
        )
}

/// Whether no two edges have one id.
pub open spec fn distinct_ids(edges: Seq<EdgeView>) -> bool {
    forall|i: int, j: int|
        #![trigger edges[i], edges[j]]
        0 <= i < j < edges.len() ==> edges[i].id != edges[j].id
}

/// The ids of a sequence of edges.
pub open spec fn ids_of(edges: Seq<EdgeView>) -> Set<EdgeId> {
    edges.map_values(|e: EdgeView| e.id).to_set()
}

/// Every vertex is joined to itself.
pub proof fn linked_to_itself(edges: Seq<EdgeView>, chosen: Set<EdgeId>, a: VertexId)
    ensures
        linked(edges, chosen, a, a),
{
    let walk = seq![a];
    assert(is_walk(edges, chosen, walk) && walk.first() == a && walk.last() == a);
}

/// What is joined is joined both ways.
pub proof fn linked_both_ways(
    edges: Seq<EdgeView>,
    chosen: Set<EdgeId>,
    a: VertexId,
    b: VertexId,
)
    requires
        linked(edges, chosen, a, b),
    ensures
        linked(edges, chosen, b, a),
{
    let walk = choose|walk: Seq<VertexId>|
        is_walk(edges, chosen, walk) && #[trigger] walk.first() == a && walk.last() == b;
    let back = walk.reverse();
    assert forall|i: int| 0 <= i < back.len() - 1 implies step(
        edges,
        chosen,
        #[trigger] back[i],
        back[i + 1],
    ) by {
        let j = walk.len() - 2 - i;
        assert(step(edges, chosen, walk[j], walk[j + 1]));
        let k = choose|k: int|
            0 <= k < edges.len() && chosen.contains(edges[k].id) && between(
                #[trigger] edges[k],
                walk[j],
                walk[j + 1],
            );
        assert(between(edges[k], back[i], back[i + 1]));
    }
    assert(is_walk(edges, chosen, back) && back.first() == b && back.last() == a);
}

/// Joined pairs chain.
pub proof fn linked_in_turn(
    edges: Seq<EdgeView>,
    chosen: Set<EdgeId>,
    a: VertexId,
    b: VertexId,
    c: VertexId,
)
    requires
        linked(edges, chosen, a, b),
        linked(edges, chosen, b, c),
    ensures
        linked(edges, chosen, a, c),
{
    let first = choose|walk: Seq<VertexId>|
        is_walk(edges, chosen, walk) && #[trigger] walk.first() == a && walk.last() == b;
    let second = choose|walk: Seq<VertexId>|
        is_walk(edges, chosen, walk) && #[trigger] walk.first() == b && walk.last() == c;
    let both = first + second.drop_first();
    assert forall|i: int| 0 <= i < both.len() - 1 implies step(
        edges,
        chosen,
        #[trigger] both[i],
        both[i + 1],
    ) by {
        if i < first.len() - 1 {
            assert(step(edges, chosen, first[i], first[i + 1]));
        } else {
            let j = i - (first.len() - 1);
            assert(both[i] == second[j]);
            assert(both[i + 1] == second[j + 1]);
            assert(step(edges, chosen, second[j], second[j + 1]));
        }
    }
    assert(both.last() == c) by {
        if second.len() == 1 {
            assert(both =~= first);
        }
    }
    assert(is_walk(edges, chosen, both) && both.first() == a && both.last() == c);
}

/// More edges join all that fewer join.
pub proof fn linked_by_more(
    edges: Seq<EdgeView>,
    fewer: Set<EdgeId>,
    more: Set<EdgeId>,
    a: VertexId,
    b: VertexId,
)
    requires
        fewer.subset_of(more),
        linked(edges, fewer, a, b),
    ensures
        linked(edges, more, a, b),
{
    let walk = choose|walk: Seq<VertexId>|
        is_walk(edges, fewer, walk) && #[trigger] walk.first() == a && walk.last() == b;
    assert forall|i: int| 0 <= i < walk.len() - 1 implies step(
        edges,
        more,
        #[trigger] walk[i],
        walk[i + 1],
    ) by {
        assert(step(edges, fewer, walk[i], walk[i + 1]));
        let k = choose|k: int|
            0 <= k < edges.len() && fewer.contains(edges[k].id) && between(
                #[trigger] edges[k],
                walk[i],
                walk[i + 1],
            );
        assert(more.contains(edges[k].id));
    }
    assert(is_walk(edges, more, walk) && walk.first() == a && walk.last() == b);
}

/// A chosen edge joins its ends.
pub proof fn linked_by_edge(edges: Seq<EdgeView>, chosen: Set<EdgeId>, k: int)
    requires
        0 <= k < edges.len(),
        chosen.contains(edges[k].id),
    ensures
        linked(edges, chosen, edges[k].src, edges[k].dst),
        linked(edges, chosen, edges[k].dst, edges[k].src),
{
    let walk = seq![edges[k].src, edges[k].dst];
    assert(between(edges[k], walk[0], walk[1]));
    assert(step(edges, chosen, walk[0], walk[1]));
    assert(is_walk(edges, chosen, walk) && walk.first() == edges[k].src && walk.last()
        == edges[k].dst);
    linked_both_ways(edges, chosen, edges[k].src, edges[k].dst);
}

/// One more edge joins exactly what was joined, and what its two ends were joined to.
pub proof fn linked_with_one_more(
    edges: Seq<EdgeView>,
    chosen: Set<EdgeId>,
    n: int,
    a: VertexId,
    b: VertexId,
)
    requires
        distinct_ids(edges),
        0 <= n < edges.len(),
    ensures
        linked(edges, chosen.insert(edges[n].id), a, b) <==> {
            ||| linked(edges, chosen, a, b)
            ||| linked(edges, chosen, a, edges[n].src) && linked(edges, chosen, edges[n].dst, b)
            ||| linked(edges, chosen, a, edges[n].dst) && linked(edges, chosen, edges[n].src, b)
        },
{
    let more = chosen.insert(edges[n].id);
    let x = edges[n].src;
    let y = edges[n].dst;
    linked_by_edge(edges, more, n);
    if linked(edges, chosen, a, b) {
        linked_by_more(edges, chosen, more, a, b);
    }
    if linked(edges, chosen, a, x) && linked(edges, chosen, y, b) {
        linked_by_more(edges, chosen, more, a, x);
        linked_by_more(edges, chosen, more, y, b);
        linked_in_turn(edges, more, a, x, y);
        linked_in_turn(edges, more, a, y, b);
    }
    if linked(edges, chosen, a, y) && linked(edges, chosen, x, b) {
        linked_by_more(edges, chosen, more, a, y);
        linked_by_more(edges, chosen, more, x, b);
        linked_in_turn(edges, more, a, y, x);
        linked_in_turn(edges, more, a, x, b);
    }
    if linked(edges, more, a, b) {
        let walk = choose|walk: Seq<VertexId>|
            is_walk(edges, more, walk) && #[trigger] walk.first() == a && walk.last() == b;
        lemma_walk_with_one_more(edges, chosen, n, walk);
    }
}

proof fn lemma_walk_with_one_more(
    edges: Seq<EdgeView>,
    chosen: Set<EdgeId>,
    n: int,
    walk: Seq<VertexId>,
)
    requires
        distinct_ids(edges),
        0 <= n < edges.len(),
        is_walk(edges, chosen.insert(edges[n].id), walk),
    ensures
        ({
            let a = walk.first();
            let b = walk.last();
            ||| linked(edges, chosen, a, b)
            ||| linked(edges, chosen, a, edges[n].src) && linked(edges, chosen, edges[n].dst, b)
            ||| linked(edges, chosen, a, edges[n].dst) && linked(edges, chosen, edges[n].src, b)
        }),
    decreases walk.len(),
{
    let more = chosen.insert(edges[n].id);
    let x = edges[n].src;
    let y = edges[n].dst;
    let a = walk.first();
    linked_to_itself(edges, chosen, a);
    linked_to_itself(edges, chosen, x);
    linked_to_itself(edges, chosen, y);
    if walk.len() > 1 {
        let shorter = walk.drop_last();
        assert(is_walk(edges, more, shorter)) by {
            assert forall|i: int| 0 <= i < shorter.len() - 1 implies step(
                edges,
                more,
                #[trigger] shorter[i],
                shorter[i + 1],
            ) by {
                assert(step(edges, more, walk[i], walk[i + 1]));
            }
        }
        lemma_walk_with_one_more(edges, chosen, n, shorter);
        let c = shorter.last();
        let b = walk.last();
        assert(shorter.first() == a);
        assert(step(edges, more, walk[walk.len() - 2], walk[walk.len() - 1]));
        let k = choose|k: int|
            0 <= k < edges.len() && more.contains(edges[k].id) && between(#[trigger] edges[k], c, b);
        if chosen.contains(edges[k].id) {
            linked_by_edge(edges, chosen, k);
            if linked(edges, chosen, a, c) {
                linked_in_turn(edges, chosen, a, c, b);
            } else if linked(edges, chosen, a, x) && linked(edges, chosen, y, c) {
                linked_in_turn(edges, chosen, y, c, b);
            } else {
                linked_in_turn(edges, chosen, x, c, b);
            }
        } else {
            assert(edges[k].id == edges[n].id);
            if k < n {
                assert(edges[k].id != edges[n].id);
            } else if n < k {
                assert(edges[n].id != edges[k].id);
            }
            assert(k == n);
        }
    }
}

/// One more edge keeps a set acyclic exactly where its ends were not joined.
pub proof fn acyclic_with_one_more(edges: Seq<EdgeView>, chosen: Set<EdgeId>, n: int)
    requires
        distinct_ids(edges),
        0 <= n < edges.len(),
        !chosen.contains(edges[n].id),
        acyclic(edges, chosen),
    ensures
        acyclic(edges, chosen.insert(edges[n].id)) <==> !linked(
            edges,
            chosen,
            edges[n].src,
            edges[n].dst,
        ),
{
    let more = chosen.insert(edges[n].id);
    let x = edges[n].src;
    let y = edges[n].dst;
    assert(more.remove(edges[n].id) =~= chosen);
    if linked(edges, chosen, x, y) {
        assert(linked(edges, more.remove(edges[n].id), edges[n].src, edges[n].dst));
        assert(!acyclic(edges, more));
    } else {
        assert forall|k: int| 0 <= k < edges.len() && more.contains(edges[k].id) implies !linked(
            edges,
            more.remove(edges[k].id),
            (#[trigger] edges[k]).src,
            edges[k].dst,
        ) by {
            if edges[k].id == edges[n].id {
                if k < n {
                    assert(edges[k].id != edges[n].id);
                } else if n < k {
                    assert(edges[n].id != edges[k].id);
                }
            } else {
                let rest = chosen.remove(edges[k].id);
                let u = edges[k].src;
                let v = edges[k].dst;
                assert(more.remove(edges[k].id) =~= rest.insert(edges[n].id));
                assert(!linked(edges, rest, u, v));
                if linked(edges, rest.insert(edges[n].id), u, v) {
                    linked_with_one_more(edges, rest, n, u, v);
                    linked_by_edge(edges, chosen, k);
                    if linked(edges, rest, u, x) && linked(edges, rest, y, v) {
                        linked_by_more(edges, rest, chosen, u, x);
                        linked_by_more(edges, rest, chosen, y, v);
                        linked_both_ways(edges, chosen, u, x);
                        linked_both_ways(edges, chosen, y, v);
                        linked_in_turn(edges, chosen, x, u, v);
                        linked_in_turn(edges, chosen, x, v, y);
                    } else {
                        linked_by_more(edges, rest, chosen, u, y);
                        linked_by_more(edges, rest, chosen, x, v);
                        linked_both_ways(edges, chosen, u, y);
                        linked_in_turn(edges, chosen, x, v, u);
                        linked_in_turn(edges, chosen, x, u, y);
                    }
                }
            }
        }
    }
}

/// A part of an acyclic set is acyclic.
pub proof fn acyclic_in_part(edges: Seq<EdgeView>, fewer: Set<EdgeId>, more: Set<EdgeId>)
    requires
        fewer.subset_of(more),
        acyclic(edges, more),
    ensures
        acyclic(edges, fewer),
{
    assert forall|k: int| 0 <= k < edges.len() && fewer.contains(edges[k].id) implies !linked(
        edges,
        fewer.remove(edges[k].id),
        (#[trigger] edges[k]).src,
        edges[k].dst,
    ) by {
        assert(more.contains(edges[k].id));
        if linked(edges, fewer.remove(edges[k].id), edges[k].src, edges[k].dst) {
            linked_by_more(
                edges,
                fewer.remove(edges[k].id),
                more.remove(edges[k].id),
                edges[k].src,
                edges[k].dst,
            );
        }
    }
}

/// No edges close no cycle.
pub proof fn no_edges_are_acyclic(edges: Seq<EdgeView>)
    ensures
        acyclic(edges, Set::empty()),
        forall|a: VertexId, b: VertexId|
            #![trigger linked(edges, Set::empty(), a, b)]
            linked(edges, Set::empty(), a, b) <==> a == b,
{
    assert forall|a: VertexId, b: VertexId|
        #![trigger linked(edges, Set::empty(), a, b)]
        linked(edges, Set::empty(), a, b) <==> a == b by {
        if a == b {
            linked_to_itself(edges, Set::empty(), a);
        }
        if linked(edges, Set::empty(), a, b) {
            let walk = choose|walk: Seq<VertexId>|
                is_walk(edges, Set::empty(), walk) && #[trigger] walk.first() == a && walk.last()
                    == b;
            if walk.len() > 1 {
                assert(step(edges, Set::empty(), walk[0], walk[1]));
            }
        }
    }
}

/// Whether a partition puts together exactly the vertices that chosen edges join.
pub open spec fn partition_of(sets: Map<u64, u64>, edges: Seq<EdgeView>, chosen: Set<EdgeId>) -> bool {
    &&& rooted(sets)
    &&& forall|a: VertexId, b: VertexId|
        #![trigger together(sets, a, b)]
        together(sets, a, b) <==> linked(edges, chosen, a, b)
}

/// The empty partition is that of no edges.
pub proof fn lemma_empty_partition(edges: Seq<EdgeView>)
    ensures
        partition_of(Map::empty(), edges, Set::empty()),
{
    no_edges_are_acyclic(edges);
    assert forall|a: VertexId, b: VertexId|
        #![trigger together(Map::<u64, u64>::empty(), a, b)]
        together(Map::<u64, u64>::empty(), a, b) <==> linked(edges, Set::empty(), a, b) by {
        assert(linked(edges, Set::empty(), a, b) <==> a == b);
    }
}

/// Merging the sets of an edge's ends turns the partition of some edges into that of one more.
pub proof fn lemma_partition_step(
    before: Map<u64, u64>,
    after: Map<u64, u64>,
    merged: bool,
    edges: Seq<EdgeView>,
    chosen: Set<EdgeId>,
    n: int,
)
    requires
        distinct_ids(edges),
        0 <= n < edges.len(),
        partition_of(before, edges, chosen),
        rooted(after),
        merged == !together(before, edges[n].src, edges[n].dst),
        ({
            let both = with_vertex(with_vertex(before, edges[n].src), edges[n].dst);
            let x = root_in(before, edges[n].src);
            let y = root_in(before, edges[n].dst);
            &&& !merged ==> after == both
            &&& merged ==> after == redirected(both, x, y) || after == redirected(both, y, x)
        }),
    ensures
        partition_of(after, edges, chosen.insert(edges[n].id)),
        merged == !linked(edges, chosen, edges[n].src, edges[n].dst),
{
    let x = edges[n].src;
    let y = edges[n].dst;
    let more = chosen.insert(edges[n].id);
    assert forall|a: VertexId, b: VertexId|
        #![trigger together(after, a, b)]
        together(after, a, b) <==> linked(edges, more, a, b) by {
        linked_with_one_more(edges, chosen, n, a, b);
        assert(together(before, a, b) <==> linked(edges, chosen, a, b));
        assert(together(before, a, x) <==> linked(edges, chosen, a, x));
        assert(together(before, y, b) <==> linked(edges, chosen, y, b));
        assert(together(before, a, y) <==> linked(edges, chosen, a, y));
        assert(together(before, x, b) <==> linked(edges, chosen, x, b));
        if merged {
            crate::union_find::union_joins_exactly_two_sets(before, after, x, y, a, b);
        }
    }
}

} // verus!
