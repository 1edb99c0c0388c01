//! Paths through a query graph, which is walked in both directions of its edges.
use crate::connect::between;
use crate::query::{
    contains_id, EdgeId, EdgeView, GraphView, QueryEdge, QueryGraph, VertexId, VertexView,
};
use crate::ranking::same_ids;
use crate::spanning::{copy_ids, is_trail, is_way, leads};
use vstd::prelude::*;

verus! {

/// The edges that leave a vertex, each with the vertex that it leads to, in the order in which
/// the edges are listed.
pub open spec fn links_out(edges: Seq<EdgeView>, v: VertexId) -> Seq<(VertexId, EdgeId)>
    decreases edges.len(),
{
    if edges.len() == 0 {
        Seq::empty()
    } else {
        let before = links_out(edges.drop_last(), v);
        if edges.last().src == v {
            before.push((edges.last().dst, edges.last().id))
        } else {
            before
        }
    }
}

/// The edges that enter a vertex, each with the vertex that it comes from.
pub open spec fn links_in(edges: Seq<EdgeView>, v: VertexId) -> Seq<(VertexId, EdgeId)>
    decreases edges.len(),
{
    if edges.len() == 0 {
        Seq::empty()
    } else {
        let before = links_in(edges.drop_last(), v);
        if edges.last().dst == v {
            before.push((edges.last().src, edges.last().id))
        } else {
            before
        }
    }
}

/// Every neighbor of a vertex with the edge that joins the two: first along the edges that
/// leave the vertex, then along those that enter it. A loop occurs twice.
pub open spec fn links(edges: Seq<EdgeView>, v: VertexId) -> Seq<(VertexId, EdgeId)> {
    links_out(edges, v) + links_in(edges, v)
}

/// How many ends of edges a vertex is.
pub open spec fn degree(edges: Seq<EdgeView>, v: VertexId) -> nat {
    links(edges, v).len()
}

/// A link belongs to an edge.
proof fn lemma_link_out(edges: Seq<EdgeView>, v: VertexId, i: int)
    requires
        0 <= i < links_out(edges, v).len(),
    ensures
        exists|k: int|
            0 <= k < edges.len() && (#[trigger] edges[k]).id == links_out(edges, v)[i].1
                && edges[k].src == v && edges[k].dst == links_out(edges, v)[i].0,
    decreases edges.len(),
{
    let before = edges.drop_last();
    if i < links_out(before, v).len() {
        lemma_link_out(before, v, i);
        let k = choose|k: int|
            0 <= k < before.len() && (#[trigger] before[k]).id == links_out(before, v)[i].1
                && before[k].src == v && before[k].dst == links_out(before, v)[i].0;
        assert(edges[k] == before[k]);
    } else {
        assert(edges[edges.len() - 1] == edges.last());
    }
}

proof fn lemma_link_in(edges: Seq<EdgeView>, v: VertexId, i: int)
    requires
        0 <= i < links_in(edges, v).len(),
    ensures
        exists|k: int|
            0 <= k < edges.len() && (#[trigger] edges[k]).id == links_in(edges, v)[i].1
                && edges[k].dst == v && edges[k].src == links_in(edges, v)[i].0,
    decreases edges.len(),
{
    let before = edges.drop_last();
    if i < links_in(before, v).len() {
        lemma_link_in(before, v, i);
        let k = choose|k: int|
            0 <= k < before.len() && (#[trigger] before[k]).id == links_in(before, v)[i].1
                && before[k].dst == v && before[k].src == links_in(before, v)[i].0;
        assert(edges[k] == before[k]);
    } else {
        assert(edges[edges.len() - 1] == edges.last());
    }
}

/// An edge is linked at its source and at its destination.
proof fn lemma_edge_links(edges: Seq<EdgeView>, k: int)
    requires
        0 <= k < edges.len(),
    ensures
        links_out(edges, edges[k].src).contains((edges[k].dst, edges[k].id)),
        links_in(edges, edges[k].dst).contains((edges[k].src, edges[k].id)),
    decreases edges.len(),
{
    let before = edges.drop_last();
    let e = edges[k];
    let out = links_out(edges, e.src);
    let into = links_in(edges, e.dst);
    if k == edges.len() - 1 {
        assert(out[out.len() - 1] == (e.dst, e.id));
        assert(into[into.len() - 1] == (e.src, e.id));
    } else {
        lemma_edge_links(before, k);
        let i = choose|i: int|
            0 <= i < links_out(before, e.src).len() && links_out(before, e.src)[i] == (
                e.dst,
                e.id,
            );
        assert(out[i] == (e.dst, e.id));
        let j = choose|j: int|
            0 <= j < links_in(before, e.dst).len() && links_in(before, e.dst)[j] == (e.src, e.id);
        assert(into[j] == (e.src, e.id));
    }
}

/// A vertex is linked to another by an edge exactly where the edge lies between the two.
pub proof fn links_lead(edges: Seq<EdgeView>, v: VertexId, other: VertexId, id: EdgeId)
    ensures
        links(edges, v).contains((other, id)) <==> leads(edges, id, v, other),
{
    let out = links_out(edges, v);
    let into = links_in(edges, v);
    if links(edges, v).contains((other, id)) {
        let i = choose|i: int| 0 <= i < links(edges, v).len() && links(edges, v)[i] == (other, id);
        if i < out.len() {
            lemma_link_out(edges, v, i);
            let k = choose|k: int|
                0 <= k < edges.len() && (#[trigger] edges[k]).id == out[i].1 && edges[k].src == v
                    && edges[k].dst == out[i].0;
            assert(edges[k].id == id && between(edges[k], v, other));
        } else {
            let m = i - out.len();
            assert(into[m] == (other, id));
            lemma_link_in(edges, v, m);
            let k = choose|k: int|
                0 <= k < edges.len() && (#[trigger] edges[k]).id == into[m].1 && edges[k].dst == v
                    && edges[k].src == into[m].0;
            assert(edges[k].id == id && between(edges[k], v, other));
        }
    }
    if leads(edges, id, v, other) {
        let k = choose|k: int|
            0 <= k < edges.len() && edges[k].id == id && between(#[trigger] edges[k], v, other);
        lemma_edge_links(edges, k);
        if edges[k].src == v && edges[k].dst == other {
            let i = choose|i: int| 0 <= i < out.len() && out[i] == (other, id);
            assert(links(edges, v)[i] == (other, id));
        } else {
            let i = choose|i: int| 0 <= i < into.len() && into[i] == (other, id);
            assert(links(edges, v)[out.len() + i] == (other, id));
        }
    }
}

impl QueryGraph {
    /// Every neighbor of a vertex with the edge that joins the two.
    pub fn get_neighbor_edge_pairs(&self, v: VertexId) -> (result: Vec<(VertexId, EdgeId)>)
        ensures
            result@ == links(self@.edges, v),
    {
        let mut result: Vec<(VertexId, EdgeId)> = Vec::new();
        let ghost edges = self@.edges;
        let mut i: usize = 0;
        while i < self.edges.len()
            invariant
                edges == self@.edges,
                i <= self.edges@.len(),
                result@ == links_out(edges.take(i as int), v),
            decreases self.edges.len() - i,
        {
            let e: &QueryEdge = &self.edges[i];
            assert(edges.take(i + 1).drop_last() =~= edges.take(i as int));
            assert(edges.take(i + 1).last() == e@);
            if e.src_vertex_id == v {
                result.push((e.dst_vertex_id, e.id));
            }
            i = i + 1;
        }
        assert(edges.take(i as int) =~= edges);
        let mut j: usize = 0;
        assert(result@ =~= links_out(edges, v) + links_in(edges.take(0), v));
        while j < self.edges.len()
            invariant
                edges == self@.edges,
                j <= self.edges@.len(),
                result@ == links_out(edges, v) + links_in(edges.take(j as int), v),
            decreases self.edges.len() - j,
        {
            let e: &QueryEdge = &self.edges[j];
            assert(edges.take(j + 1).drop_last() =~= edges.take(j as int));
            assert(edges.take(j + 1).last() == e@);
            if e.dst_vertex_id == v {
                result.push((e.src_vertex_id, e.id));
                assert(result@ =~= links_out(edges, v) + links_in(edges.take(j + 1), v));
            }
            j = j + 1;
        }
        assert(edges.take(j as int) =~= edges);
        result
    }

    /// How many ends of edges a vertex is.
    pub fn get_degree(&self, v: VertexId) -> (result: usize)
        ensures
            result == degree(self@.edges, v),
    {
        self.get_neighbor_edge_pairs(v).len()
    }
}

/// The ways that go on from a walk to its end by a given number of further edges, through no
/// vertex that was walked before. Each is given by its edges.
pub open spec fn ways(
    edges: Seq<EdgeView>,
    walked: Seq<VertexId>,
    end: VertexId,
    k: nat,
) -> Seq<Seq<EdgeId>>
    decreases k, 1int, 0int,
{
    if k == 0 {
        if walked.last() == end {
            seq![Seq::empty()]
        } else {
            Seq::empty()
        }
    } else {
        ways_by(edges, walked, end, k, links(edges, walked.last()))
    }
}

/// Those of the ways that start along one of the given links, in the order of the links.
pub open spec fn ways_by(
    edges: Seq<EdgeView>,
    walked: Seq<VertexId>,
    end: VertexId,
    k: nat,
    by: Seq<(VertexId, EdgeId)>,
) -> Seq<Seq<EdgeId>>
    decreases k, 0int, by.len(),
{
    if by.len() == 0 || k == 0 {
        Seq::empty()
    } else {
        let (next, id) = by.last();
        let before = ways_by(edges, walked, end, k, by.drop_last());
        if walked.contains(next) {
            before
        } else {
            before + led_by(id, ways(edges, walked.push(next), end, (k - 1) as nat))
        }
    }
}

/// Each of the ways with one edge before it.
pub open spec fn led_by(id: EdgeId, rest: Seq<Seq<EdgeId>>) -> Seq<Seq<EdgeId>> {
    rest.map_values(|way: Seq<EdgeId>| seq![id] + way)
}

proof fn lemma_ways_by(
    edges: Seq<EdgeView>,
    walked: Seq<VertexId>,
    end: VertexId,
    k: nat,
    by: Seq<(VertexId, EdgeId)>,
    way: Seq<EdgeId>,
)
    requires
        k > 0,
    ensures
        ways_by(edges, walked, end, k, by).contains(way) <==> exists|i: int|
            0 <= i < by.len() && !walked.contains((#[trigger] by[i]).0) && way.len() > 0 && way[0]
                == by[i].1 && ways(edges, walked.push(by[i].0), end, (k - 1) as nat).contains(
                way.skip(1),
            ),
    decreases by.len(),
{
    if by.len() > 0 {
        let all = ways_by(edges, walked, end, k, by);
        let before = ways_by(edges, walked, end, k, by.drop_last());
        let (next, id) = by.last();
        let rest = ways(edges, walked.push(next), end, (k - 1) as nat);
        lemma_ways_by(edges, walked, end, k, by.drop_last(), way);
        if all.contains(way) {
            let m = choose|m: int| 0 <= m < all.len() && all[m] == way;
            if m < before.len() {
                assert(before[m] == way);
                assert(before.contains(way));
                let i = choose|i: int|
                    0 <= i < by.drop_last().len() && !walked.contains(
                        (#[trigger] by.drop_last()[i]).0,
                    ) && way.len() > 0 && way[0] == by.drop_last()[i].1 && ways(
                        edges,
                        walked.push(by.drop_last()[i].0),
                        end,
                        (k - 1) as nat,
                    ).contains(way.skip(1));
                assert(by[i] == by.drop_last()[i]);
            } else {
                let w = rest[m - before.len()];
                assert(way == seq![id] + w);
                assert(way.skip(1) =~= w);
                assert(rest.contains(way.skip(1)));
                assert(by[by.len() - 1] == by.last());
            }
        }
        if exists|i: int|
            0 <= i < by.len() && !walked.contains((#[trigger] by[i]).0) && way.len() > 0 && way[0]
                == by[i].1 && ways(edges, walked.push(by[i].0), end, (k - 1) as nat).contains(
                way.skip(1),
            ) {
            let i = choose|i: int|
                0 <= i < by.len() && !walked.contains((#[trigger] by[i]).0) && way.len() > 0
                    && way[0] == by[i].1 && ways(
                    edges,
                    walked.push(by[i].0),
                    end,
                    (k - 1) as nat,
                ).contains(way.skip(1));
            if i < by.len() - 1 {
                assert(by.drop_last()[i] == by[i]);
                assert(before.contains(way));
                let m = choose|m: int| 0 <= m < before.len() && before[m] == way;
                assert(all[m] == way);
            } else {
                let m = choose|m: int| 0 <= m < rest.len() && rest[m] == way.skip(1);
                assert(way =~= seq![id] + rest[m]);
                assert(all[before.len() + m] == way);
            }
        }
    }
}

/// Whether a way goes on from a walk through the given further vertices.
spec fn goes_on(
    edges: Seq<EdgeView>,
    walked: Seq<VertexId>,
    rest: Seq<VertexId>,
    way: Seq<EdgeId>,
) -> bool {
    &&& rest.len() == way.len()
    &&& (walked + rest).no_duplicates()
    &&& forall|i: int|
        #![trigger way[i]]
        0 <= i < way.len() ==> leads(
            edges,
            way[i],
            (walked + rest)[walked.len() - 1 + i],
            (walked + rest)[walked.len() + i],
        )
}

proof fn lemma_ways(
    edges: Seq<EdgeView>,
    walked: Seq<VertexId>,
    end: VertexId,
    k: nat,
    way: Seq<EdgeId>,
)
    requires
        walked.len() > 0,
        walked.no_duplicates(),
    ensures
        ways(edges, walked, end, k).contains(way) <==> way.len() == k && exists|rest: Seq<VertexId>|
            #[trigger] goes_on(edges, walked, rest, way) && (walked + rest).last() == end,
    decreases k,
{
    let all = ways(edges, walked, end, k);
    if k == 0 {
        if all.contains(way) {
            assert(way =~= Seq::empty());
            assert(walked + Seq::<VertexId>::empty() =~= walked);
            assert(goes_on(edges, walked, Seq::empty(), way));
        }
        if way.len() == 0 && exists|rest: Seq<VertexId>| #[trigger]
            goes_on(edges, walked, rest, way) && (walked + rest).last() == end {
            let rest = choose|rest: Seq<VertexId>| #[trigger]
                goes_on(edges, walked, rest, way) && (walked + rest).last() == end;
            assert(walked + rest =~= walked);
            assert(way =~= Seq::empty());
            assert(all[0] == way);
        }
    } else {
        let by = links(edges, walked.last());
        lemma_ways_by(edges, walked, end, k, by, way);
        if all.contains(way) {
            let i = choose|i: int|
                0 <= i < by.len() && !walked.contains((#[trigger] by[i]).0) && way.len() > 0
                    && way[0] == by[i].1 && ways(
                    edges,
                    walked.push(by[i].0),
                    end,
                    (k - 1) as nat,
                ).contains(way.skip(1));
            let next = by[i].0;
            lemma_ways(edges, walked.push(next), end, (k - 1) as nat, way.skip(1));
            let rest = choose|rest: Seq<VertexId>| #[trigger]
                goes_on(edges, walked.push(next), rest, way.skip(1)) && (walked.push(next)
                    + rest).last() == end;
            let all_rest = seq![next] + rest;
            assert(walked + all_rest =~= walked.push(next) + rest);
            links_lead(edges, walked.last(), next, way[0]);
            assert(by.contains((next, way[0]))) by {
                assert(by[i] == (next, way[0]));
            }
            assert forall|j: int| #![trigger way[j]] 0 <= j < way.len() implies leads(
                edges,
                way[j],
                (walked + all_rest)[walked.len() - 1 + j],
                (walked + all_rest)[walked.len() + j],
            ) by {
                if j > 0 {
                    assert(way.skip(1)[j - 1] == way[j]);
                }
            }
            assert(goes_on(edges, walked, all_rest, way));
        }
        if way.len() == k && exists|rest: Seq<VertexId>| #[trigger]
            goes_on(edges, walked, rest, way) && (walked + rest).last() == end {
            let rest = choose|rest: Seq<VertexId>| #[trigger]
                goes_on(edges, walked, rest, way) && (walked + rest).last() == end;
            let next = rest[0];
            let later = rest.skip(1);
            let whole = walked + rest;
            assert(whole =~= walked.push(next) + later);
            assert(whole[walked.len() as int] == next);
            assert(leads(edges, way[0], whole[walked.len() - 1], whole[walked.len() as int]));
            links_lead(edges, walked.last(), next, way[0]);
            assert(!walked.contains(next)) by {
                if walked.contains(next) {
                    let m = choose|m: int| 0 <= m < walked.len() && walked[m] == next;
                    assert(whole[m] == next);
                }
            }
            assert(walked.push(next).no_duplicates());
            assert forall|j: int|
                #![trigger way.skip(1)[j]]
                0 <= j < way.skip(1).len() implies leads(
                edges,
                way.skip(1)[j],
                (walked.push(next) + later)[walked.push(next).len() - 1 + j],
                (walked.push(next) + later)[walked.push(next).len() + j],
            ) by {
                assert(way.skip(1)[j] == way[j + 1]);
            }
            assert(goes_on(edges, walked.push(next), later, way.skip(1)));
            lemma_ways(edges, walked.push(next), end, (k - 1) as nat, way.skip(1));
            let i = choose|i: int| 0 <= i < by.len() && by[i] == (next, way[0]);
            assert(!walked.contains(by[i].0));
        }
    }
}

/// The ways of a length between two vertices are exactly the trails of that length.
pub proof fn ways_are_trails(
    edges: Seq<EdgeView>,
    start: VertexId,
    end: VertexId,
    k: nat,
    way: Seq<EdgeId>,
)
    ensures
        ways(edges, seq![start], end, k).contains(way) <==> way.len() == k && is_way(
            edges,
            Set::full(),
            way,
            start,
            end,
        ),
{
    let walked = seq![start];
    lemma_ways(edges, walked, end, k, way);
    if way.len() == k && exists|rest: Seq<VertexId>| #[trigger]
        goes_on(edges, walked, rest, way) && (walked + rest).last() == end {
        let rest = choose|rest: Seq<VertexId>| #[trigger]
            goes_on(edges, walked, rest, way) && (walked + rest).last() == end;
        assert(is_trail(edges, Set::full(), walked + rest, way));
    }
    if way.len() == k && is_way(edges, Set::full(), way, start, end) {
        let walk = choose|walk: Seq<VertexId>| #[trigger]
            is_trail(edges, Set::full(), walk, way) && walk.first() == start && walk.last() == end;
        let rest = walk.skip(1);
        assert(walked + rest =~= walk);
        assert(goes_on(edges, walked, rest, way));
    }
}

/// The contents of lists of ids.
pub open spec fn id_lists(lists: Seq<Vec<u64>>) -> Seq<Seq<u64>> {
    lists.map_values(|ids: Vec<u64>| ids@)
}

/// Appends each of the ways with one edge before it.
fn append_led_by(out: &mut Vec<Vec<EdgeId>>, id: EdgeId, rest: &Vec<Vec<EdgeId>>)
    ensures
        id_lists(final(out)@) == id_lists(old(out)@) + led_by(id, id_lists(rest@)),
{
    let mut i: usize = 0;
    assert(id_lists(out@) =~= id_lists(old(out)@) + led_by(id, id_lists(rest@)).take(0));
    while i < rest.len()
        invariant
            i <= rest@.len(),
            id_lists(out@) == id_lists(old(out)@) + led_by(id, id_lists(rest@)).take(i as int),
        decreases rest.len() - i,
    {
        let mut way: Vec<EdgeId> = Vec::new();
        way.push(id);
        let mut j: usize = 0;
        while j < rest[i].len()
            invariant
                i < rest@.len(),
                j <= rest@[i as int]@.len(),
                way@ == seq![id] + rest@[i as int]@.take(j as int),
            decreases rest@[i as int]@.len() - j,
        {
            way.push(rest[i][j]);
            assert(way@ =~= seq![id] + rest@[i as int]@.take(j + 1));
            j = j + 1;
        }
        assert(way@ =~= seq![id] + rest@[i as int]@);
        let ghost before = out@;
        out.push(way);
        assert(id_lists(out@) =~= id_lists(before).push(way@));
        assert(led_by(id, id_lists(rest@)).take(i + 1) =~= led_by(id, id_lists(rest@)).take(
            i as int,
        ).push(way@));
        i = i + 1;
        assert(id_lists(out@) =~= id_lists(old(out)@) + led_by(id, id_lists(rest@)).take(
            i as int,
        ));
    }
    assert(led_by(id, id_lists(rest@)).take(i as int) =~= led_by(id, id_lists(rest@)));
}

impl QueryGraph {
    fn find_ways(&self, walked: &Vec<VertexId>, end: VertexId, k: usize) -> (result: Vec<
        Vec<EdgeId>,
    >)
        requires
            walked@.len() > 0,
        ensures
            id_lists(result@) == ways(self@.edges, walked@, end, k as nat),
        decreases k,
    {
        let mut result: Vec<Vec<EdgeId>> = Vec::new();
        let last: VertexId = walked[walked.len() - 1];
        if k == 0 {
            if last == end {
                result.push(Vec::new());
            }
            assert(id_lists(result@) =~= ways(self@.edges, walked@, end, 0));
            return result;
        }
        let by: Vec<(VertexId, EdgeId)> = self.get_neighbor_edge_pairs(last);
        let mut i: usize = 0;
        assert(id_lists(result@) =~= Seq::empty());
        while i < by.len()
            invariant
                k > 0,
                walked@.len() > 0,
                i <= by@.len(),
                id_lists(result@) == ways_by(
                    self@.edges,
                    walked@,
                    end,
                    k as nat,
                    by@.take(i as int),
                ),
            decreases by.len() - i,
        {
            assert(by@.take(i + 1).drop_last() =~= by@.take(i as int));
            let (next, id) = by[i];
            if !contains_id(walked, next) {
                let mut further: Vec<VertexId> = copy_ids(walked);
                further.push(next);
                let rest: Vec<Vec<EdgeId>> = self.find_ways(&further, end, k - 1);
                append_led_by(&mut result, id, &rest);
            }
            i = i + 1;
        }
        assert(by@.take(i as int) =~= by@);
        result
    }

    /// The ways of exactly `k` edges between two vertices that go through no vertex twice, each
    /// given by its edges.
    pub fn find_paths_with_length(&self, start: VertexId, end: VertexId, k: usize) -> (result: Vec<
        Vec<EdgeId>,
    >)
        ensures
            id_lists(result@) == ways(self@.edges, seq![start], end, k as nat),
    {
        let mut walked: Vec<VertexId> = Vec::new();
        walked.push(start);
        assert(walked@ =~= seq![start]);
        self.find_ways(&walked, end, k)
    }
}

/// Whether an edge is on one of the ways.
pub open spec fn on_way(found: Seq<Seq<EdgeId>>, id: EdgeId) -> bool {
    exists|w: int| 0 <= w < found.len() && (#[trigger] found[w]).contains(id)
}

/// Whether an edge is on a way of a length between two of the given vertices.
pub open spec fn on_way_between(
    edges: Seq<EdgeView>,
    ends: Seq<VertexId>,
    k: nat,
    id: EdgeId,
) -> bool {
    exists|i: int, j: int|
        0 <= i < j < ends.len() && on_way(
            ways(edges, seq![#[trigger] ends[i]], #[trigger] ends[j], k),
            id,
        )
}

/// Adds the ids of the lists to those listed, each once.
fn gather(out: &mut Vec<EdgeId>, lists: &Vec<Vec<EdgeId>>)
    requires
        old(out)@.no_duplicates(),
    ensures
        final(out)@.no_duplicates(),
        forall|id: EdgeId|
            #![trigger final(out)@.contains(id)]
            final(out)@.contains(id) <==> old(out)@.contains(id) || on_way(id_lists(lists@), id),
{
    let ghost all = id_lists(lists@);
    let mut i: usize = 0;
    while i < lists.len()
        invariant
            all == id_lists(lists@),
            i <= lists@.len(),
            out@.no_duplicates(),
            forall|id: EdgeId|
                #![trigger out@.contains(id)]
                out@.contains(id) <==> old(out)@.contains(id) || on_way(all.take(i as int), id),
        decreases lists.len() - i,
    {
        let ghost begun = out@;
        let mut j: usize = 0;
        while j < lists[i].len()
            invariant
                i < lists@.len(),
                j <= lists@[i as int]@.len(),
                out@.no_duplicates(),
                forall|id: EdgeId|
                    #![trigger out@.contains(id)]
                    out@.contains(id) <==> begun.contains(id) || lists@[i as int]@.take(
                        j as int,
                    ).contains(id),
            decreases lists@[i as int]@.len() - j,
        {
            let id: EdgeId = lists[i][j];
            let ghost before = out@;
            let ghost head = lists@[i as int]@.take(j as int);
            let ghost more = lists@[i as int]@.take(j + 1);
            assert(more =~= head.push(id));
            if !contains_id(out, id) {
                out.push(id);
                assert(out@.no_duplicates());
            }
            proof {
                assert forall|x: EdgeId|
                    #![trigger out@.contains(x)]
                    out@.contains(x) <==> begun.contains(x) || more.contains(x) by {
                    lemma_push_contains(before, id, x);
                    lemma_push_contains(head, id, x);
                    assert(before.contains(x) <==> begun.contains(x) || head.contains(x));
                }
            }
            j = j + 1;
        }
        proof {
            let list = lists@[i as int]@;
            assert(list.take(j as int) =~= list);
            let head = all.take(i as int);
            let more = all.take(i + 1);
            assert forall|id: EdgeId| on_way(more, id) <==> on_way(head, id) || list.contains(
                id,
            ) by {
                assert(more[i as int] == list);
                if on_way(more, id) {
                    let w = choose|w: int| 0 <= w < more.len() && (#[trigger] more[w]).contains(id);
                    if w < i {
                        assert(head[w] == more[w]);
                    }
                }
                if on_way(head, id) {
                    let w = choose|w: int| 0 <= w < head.len() && (#[trigger] head[w]).contains(id);
                    assert(more[w] == head[w]);
                }
            }
            assert forall|id: EdgeId|
                #![trigger out@.contains(id)]
                out@.contains(id) <==> old(out)@.contains(id) || on_way(more, id) by {
                assert(begun.contains(id) <==> old(out)@.contains(id) || on_way(head, id));
            }
        }
        i = i + 1;
    }
    assert(all.take(i as int) =~= all);
}

proof fn lemma_push_contains(s: Seq<u64>, x: u64, y: u64)
    ensures
        s.push(x).contains(y) <==> s.contains(y) || x == y,
{
    if s.contains(y) {
        let i = choose|i: int| 0 <= i < s.len() && s[i] == y;
        assert(s.push(x)[i] == y);
    }
    if x == y {
        assert(s.push(x)[s.len() as int] == y);
    }
}

impl QueryGraph {
    /// The edges on ways of a length between two of the given vertices.
    fn find_edges_on_ways(&self, predicate_vertices: &Vec<VertexId>, k: usize) -> (result: Vec<
        EdgeId,
    >)
        ensures
            result@.no_duplicates(),
            forall|id: EdgeId|
                #![trigger result@.contains(id)]
                result@.contains(id) <==> on_way_between(
                    self@.edges,
                    predicate_vertices@,
                    k as nat,
                    id,
                ),
    {
        let mut result: Vec<EdgeId> = Vec::new();
        let ghost edges = self@.edges;
        let ghost ends = predicate_vertices@;
        let mut i: usize = 0;
        while i < predicate_vertices.len()
            invariant
                edges == self@.edges,
                ends == predicate_vertices@,
                i <= ends.len(),
                result@.no_duplicates(),
                forall|id: EdgeId|
                    #![trigger result@.contains(id)]
                    result@.contains(id) <==> exists|a: int, b: int|
                        0 <= a < i && a < b < ends.len() && on_way(
                            ways(edges, seq![#[trigger] ends[a]], #[trigger] ends[b], k as nat),
                            id,
                        ),
            decreases predicate_vertices.len() - i,
        {
            let mut j: usize = i + 1;
            while j < predicate_vertices.len()
                invariant
                        edges == self@.edges,
                    ends == predicate_vertices@,
                    i < j <= ends.len(),
                    result@.no_duplicates(),
                    forall|id: EdgeId|
                        #![trigger result@.contains(id)]
                        result@.contains(id) <==> exists|a: int, b: int|
                            0 <= a <= i && a < b < ends.len() && (a < i || b < j) && on_way(
                                ways(edges, seq![#[trigger] ends[a]], #[trigger] ends[b], k as nat),
                                id,
                            ),
                decreases predicate_vertices.len() - j,
            {
                let ghost before = result@;
                let found: Vec<Vec<EdgeId>> = self.find_paths_with_length(
                    predicate_vertices[i],
                    predicate_vertices[j],
                    k,
                );
                gather(&mut result, &found);
                proof {
                    assert forall|id: EdgeId|
                        #![trigger result@.contains(id)]
                        result@.contains(id) <==> exists|a: int, b: int|
                            0 <= a <= i && a < b < ends.len() && (a < i || b < j + 1) && on_way(
                                ways(edges, seq![#[trigger] ends[a]], #[trigger] ends[b], k as nat),
                                id,
                            ) by {
                        assert(result@.contains(id) <==> before.contains(id) || on_way(
                            id_lists(found@),
                            id,
                        ));
                        assert(ends[i as int] == predicate_vertices[i as int]);
                        assert(ends[j as int] == predicate_vertices[j as int]);
                    }
                }
                j = j + 1;
            }
            i = i + 1;
        }
        result
    }

    /// The edges on ways of at most `k` edges between two of the given vertices; none where `k`
    /// is zero.
    pub fn find_k_path_edges_between_predicates(
        &self,
        predicate_vertices: &Vec<VertexId>,
        k: usize,
    ) -> (result: Vec<EdgeId>)
        ensures
            result@.no_duplicates(),
            forall|id: EdgeId|
                #![trigger result@.contains(id)]
                result@.contains(id) <==> exists|m: nat|
                    1 <= m <= k && #[trigger] on_way_between(
                        self@.edges,
                        predicate_vertices@,
                        m,
                        id,
                    ),
    {
        let ghost edges = self@.edges;
        let ghost ends = predicate_vertices@;
        // No way has more edges than there are.
        let longest: usize = if k < self.edges.len() {
            k
        } else {
            self.edges.len()
        };
        let mut result: Vec<EdgeId> = Vec::new();
        let mut m: usize = 0;
        while m < longest
            invariant
                edges == self@.edges,
                ends == predicate_vertices@,
                m <= longest,
                result@.no_duplicates(),
                forall|id: EdgeId|
                    #![trigger result@.contains(id)]
                    result@.contains(id) <==> exists|l: nat|
                        1 <= l <= m && #[trigger] on_way_between(edges, ends, l, id),
            decreases longest - m,
        {
            m = m + 1;
            let mut found: Vec<Vec<EdgeId>> = Vec::new();
            found.push(self.find_edges_on_ways(predicate_vertices, m));
            let ghost before = result@;
            gather(&mut result, &found);
            proof {
                let lists = id_lists(found@);
                assert(lists.len() == 1 && lists[0] == found@[0]@);
                assert forall|id: EdgeId|
                    #![trigger result@.contains(id)]
                    result@.contains(id) <==> exists|l: nat|
                        1 <= l <= m && #[trigger] on_way_between(edges, ends, l, id) by {
                    assert(on_way(lists, id) <==> lists[0].contains(id));
                    assert(lists[0].contains(id) <==> on_way_between(edges, ends, m as nat, id));
                    if before.contains(id) {
                        let l = choose|l: nat|
                            1 <= l <= m - 1 && #[trigger] on_way_between(edges, ends, l, id);
                        assert(1 <= l <= m && on_way_between(edges, ends, l, id));
                    }
                }
            }
        }
        proof {
            assert forall|id: EdgeId|
                #![trigger result@.contains(id)]
                result@.contains(id) <==> exists|l: nat|
                    1 <= l <= k && #[trigger] on_way_between(edges, ends, l, id) by {
                if result@.contains(id) {
                    let l = choose|l: nat|
                        1 <= l <= m && #[trigger] on_way_between(edges, ends, l, id);
                    assert(1 <= l <= k && on_way_between(edges, ends, l, id));
                }
                if exists|l: nat| 1 <= l <= k && #[trigger] on_way_between(edges, ends, l, id) {
                    let l = choose|l: nat|
                        1 <= l <= k && #[trigger] on_way_between(edges, ends, l, id);
                    lemma_ways_are_short(edges, ends, l, id);
                    assert(1 <= l <= m && on_way_between(edges, ends, l, id));
                }
            }
        }
        result
    }
}

/// No way has more edges than there are.
proof fn lemma_ways_are_short(edges: Seq<EdgeView>, ends: Seq<VertexId>, k: nat, id: EdgeId)
    requires
        on_way_between(edges, ends, k, id),
    ensures
        k <= edges.len(),
{
    let (i, j) = choose|i: int, j: int|
        0 <= i < j < ends.len() && on_way(
            ways(edges, seq![#[trigger] ends[i]], #[trigger] ends[j], k),
            id,
        );
    let found = ways(edges, seq![ends[i]], ends[j], k);
    let w = choose|w: int| 0 <= w < found.len() && (#[trigger] found[w]).contains(id);
    let way = found[w];
    assert(found.contains(way));
    ways_are_trails(edges, ends[i], ends[j], k, way);
    let walk = choose|walk: Seq<VertexId>| #[trigger]
        is_trail(edges, Set::full(), walk, way) && walk.first() == ends[i] && walk.last()
            == ends[j];
    let places = Seq::new(
        k,
        |m: int|
            choose|p: int|
                0 <= p < edges.len() && between(#[trigger] edges[p], walk[m], walk[m + 1]),
    );
    assert forall|m: int| 0 <= m < k implies 0 <= #[trigger] places[m] < edges.len() && between(
        edges[places[m]],
        walk[m],
        walk[m + 1],
    ) by {
        assert(leads(edges, way[m], walk[m], walk[m + 1]));
    }
    assert forall|a: int, b: int| 0 <= a < k && 0 <= b < k && a != b implies places[a]
        != places[b] by {
        assert(between(edges[places[a]], walk[a], walk[a + 1]));
        assert(between(edges[places[b]], walk[b], walk[b + 1]));
        assert(walk[a] != walk[b]);
        assert(walk[a + 1] != walk[b + 1]);
    }
    assert(places.no_duplicates());
    places.unique_seq_to_set();
    let all = vstd::set_lib::set_int_range(0, edges.len() as int);
    vstd::set_lib::lemma_int_range(0, edges.len() as int);
    assert forall|p: int| places.to_set().contains(p) implies all.contains(p) by {
        let m = choose|m: int| 0 <= m < places.len() && places[m] == p;
        assert(0 <= places[m] < edges.len());
    }
    vstd::set_lib::lemma_len_subset(places.to_set(), all);
}

/// Whether two chosen links, one after the other, lead from a vertex over another one to an
/// end.
pub open spec fn is_two_hop(
    edges: Seq<EdgeView>,
    chosen: Seq<EdgeId>,
    start: VertexId,
    end: VertexId,
    i: int,
    j: int,
) -> bool {
    let first = links(edges, start);
    &&& 0 <= i < first.len()
    &&& chosen.contains(first[i].1)
    &&& first[i].0 != start
    &&& {
        let second = links(edges, first[i].0);
        &&& 0 <= j < second.len()
        &&& second[j].1 != first[i].1
        &&& chosen.contains(second[j].1)
        &&& second[j].0 == end
    }
}

impl QueryGraph {
    /// The first way of two chosen edges between two vertices, as the links are listed; none
    /// from a vertex to itself.
    pub fn find_two_hop_path_in_edge_set(
        &self,
        edge_set: &Vec<EdgeId>,
        start: VertexId,
        end: VertexId,
    ) -> (result: Option<([VertexId; 3], [EdgeId; 2])>)
        ensures
            match result {
                Some((vertices, ids)) => {
                    &&& start != end
                    &&& vertices[0] == start
                    &&& vertices[2] == end
                    &&& exists|i: int, j: int|
                        #![trigger is_two_hop(self@.edges, edge_set@, start, end, i, j)]
                        {
                            &&& is_two_hop(self@.edges, edge_set@, start, end, i, j)
                            &&& links(self@.edges, start)[i] == (vertices[1], ids[0])
                            &&& links(self@.edges, vertices[1])[j] == (end, ids[1])
                            &&& forall|a: int, b: int|
                                #![trigger is_two_hop(self@.edges, edge_set@, start, end, a, b)]
                                is_two_hop(self@.edges, edge_set@, start, end, a, b) ==> i < a || (i
                                    == a && j <= b)
                        }
                },
                None => start == end || forall|i: int, j: int|
                    !#[trigger] is_two_hop(self@.edges, edge_set@, start, end, i, j),
            },
    {
        if start == end {
            return None;
        }
        let ghost edges = self@.edges;
        let ghost chosen = edge_set@;
        let first: Vec<(VertexId, EdgeId)> = self.get_neighbor_edge_pairs(start);
        let mut i: usize = 0;
        while i < first.len()
            invariant
                start != end,
                edges == self@.edges,
                chosen == edge_set@,
                first@ == links(edges, start),
                i <= first@.len(),
                forall|a: int, b: int|
                    #![trigger is_two_hop(edges, chosen, start, end, a, b)]
                    is_two_hop(edges, chosen, start, end, a, b) ==> i <= a,
            decreases first.len() - i,
        {
            let (mid, first_id) = first[i];
            if contains_id(edge_set, first_id) && mid != start {
                let second: Vec<(VertexId, EdgeId)> = self.get_neighbor_edge_pairs(mid);
                let mut j: usize = 0;
                while j < second.len()
                    invariant
                        start != end,
                        edges == self@.edges,
                        chosen == edge_set@,
                        first@ == links(edges, start),
                        i < first@.len(),
                        first@[i as int] == (mid, first_id),
                        mid != start,
                        chosen.contains(first_id),
                        second@ == links(edges, mid),
                        j <= second@.len(),
                        forall|a: int, b: int|
                            #![trigger is_two_hop(edges, chosen, start, end, a, b)]
                            is_two_hop(edges, chosen, start, end, a, b) ==> i < a || (i == a && j
                                <= b),
                    decreases second.len() - j,
                {
                    let (other, second_id) = second[j];
                    if second_id != first_id && contains_id(edge_set, second_id) && other == end {
                        assert(is_two_hop(edges, chosen, start, end, i as int, j as int));
                        return Some(([start, mid, end], [first_id, second_id]));
                    }
                    j = j + 1;
                }
            }
            i = i + 1;
        }
        None
    }
}

/// A path through the graph: its vertices, and the edges between them.
#[derive(Debug, Clone)]
pub struct Path {
    pub start: VertexId,
    pub end: VertexId,
    pub vertices: Vec<VertexId>,
    pub edges: Vec<EdgeId>,
}

/// What a path goes through.
#[verifier::ext_equal]
pub struct RouteView {
    pub vertices: Seq<VertexId>,
    pub edges: Seq<EdgeId>,
}

impl View for Path {
    type V = RouteView;

    open spec fn view(&self) -> RouteView {
        RouteView { vertices: self.vertices@, edges: self.edges@ }
    }
}

impl Path {
    /// The path has one vertex more than edges, and starts and ends where it says.
    pub open spec fn wf(self) -> bool {
        &&& self.vertices@.len() == self.edges@.len() + 1
        &&& self.start == self.vertices@.first()
        &&& self.end == self.vertices@.last()
    }
}

/// The first link of a vertex to one that is not among those seen.
pub open spec fn first_unseen(
    by: Seq<(VertexId, EdgeId)>,
    seen: Seq<VertexId>,
) -> Option<(VertexId, EdgeId)>
    decreases by.len(),
{
    if by.len() == 0 {
        None
    } else if !seen.contains(by.first().0) {
        Some(by.first())
    } else {
        first_unseen(by.drop_first(), seen)
    }
}

/// Where a route that has gone through some vertices goes next.
pub open spec fn next_on(edges: Seq<EdgeView>, seen: Seq<VertexId>) -> Option<(VertexId, EdgeId)> {
    first_unseen(links(edges, seen.last()), seen)
}

/// Whether a route goes on, from one of its vertices, to the first neighbor that it has not yet
/// seen at each of its vertices.
pub open spec fn goes_by_first(edges: Seq<EdgeView>, route: RouteView, from: int) -> bool {
    &&& route.vertices.len() == route.edges.len() + 1
    &&& forall|i: int|
        #![trigger route.edges[i]]
        from <= i < route.edges.len() ==> next_on(edges, route.vertices.take(i + 1)) == Some(
            (route.vertices[i + 1], route.edges[i]),
        )
}

proof fn lemma_first_unseen(by: Seq<(VertexId, EdgeId)>, seen: Seq<VertexId>)
    ensures
        first_unseen(by, seen) matches Some(link) ==> by.contains(link) && !seen.contains(link.0),
    decreases by.len(),
{
    if by.len() > 0 && seen.contains(by.first().0) {
        lemma_first_unseen(by.drop_first(), seen);
        if let Some(link) = first_unseen(by.drop_first(), seen) {
            let i = choose|i: int| 0 <= i < by.drop_first().len() && by.drop_first()[i] == link;
            assert(by[i + 1] == link);
        }
    } else if by.len() > 0 {
        assert(by[0] == by.first());
    }
}

impl QueryGraph {
    fn find_next(&self, seen: &Vec<VertexId>) -> (result: Option<(VertexId, EdgeId)>)
        requires
            seen@.len() > 0,
        ensures
            result == next_on(self@.edges, seen@),
    {
        let by: Vec<(VertexId, EdgeId)> = self.get_neighbor_edge_pairs(seen[seen.len() - 1]);
        let mut i: usize = 0;
        assert(by@.skip(0) =~= by@);
        while i < by.len()
            invariant
                i <= by@.len(),
                next_on(self@.edges, seen@) == first_unseen(by@.skip(i as int), seen@),
            decreases by.len() - i,
        {
            let link: (VertexId, EdgeId) = by[i];
            assert(by@.skip(i as int).first() == link);
            assert(by@.skip(i as int).drop_first() =~= by@.skip(i + 1));
            if !contains_id(seen, link.0) {
                return Some(link);
            }
            i = i + 1;
        }
        None
    }
}

/// Whether a route stops at a vertex: a pivot, or one with a single edge.
pub open spec fn stops_at(edges: Seq<EdgeView>, pivots: Seq<VertexId>, v: VertexId) -> bool {
    pivots.contains(v) || degree(edges, v) == 1
}

/// Whether a route starts at a pivot along a link, goes on as long as nothing stops it, and
/// ends where it stops or has no unseen neighbor.
pub open spec fn is_route(
    edges: Seq<EdgeView>,
    pivots: Seq<VertexId>,
    start: VertexId,
    link: (VertexId, EdgeId),
    route: RouteView,
) -> bool {
    &&& goes_by_first(edges, route, 1)
    &&& route.edges.len() > 0
    &&& route.vertices[0] == start
    &&& route.vertices[1] == link.0
    &&& route.edges[0] == link.1
    &&& forall|i: int|
        #![trigger route.vertices[i]]
        1 <= i < route.edges.len() ==> !stops_at(edges, pivots, route.vertices[i])
    &&& stops_at(edges, pivots, route.vertices.last()) || next_on(edges, route.vertices) is None
}

/// Two routes that go by the first unseen neighbor agree as long as both go on.
proof fn lemma_routes_agree(edges: Seq<EdgeView>, a: RouteView, b: RouteView, from: int, n: int)
    requires
        goes_by_first(edges, a, from),
        goes_by_first(edges, b, from),
        0 <= from <= n,
        n <= a.edges.len(),
        n <= b.edges.len(),
        a.vertices.take(from + 1) == b.vertices.take(from + 1),
        a.edges.take(from) == b.edges.take(from),
    ensures
        a.vertices.take(n + 1) == b.vertices.take(n + 1),
        a.edges.take(n) == b.edges.take(n),
    decreases n - from,
{
    if n > from {
        lemma_routes_agree(edges, a, b, from, n - 1);
        assert(next_on(edges, a.vertices.take(n)) == Some((a.vertices[n], a.edges[n - 1])));
        assert(next_on(edges, b.vertices.take(n)) == Some((b.vertices[n], b.edges[n - 1])));
        assert(a.vertices.take(n + 1) =~= a.vertices.take(n).push(a.vertices[n]));
        assert(b.vertices.take(n + 1) =~= b.vertices.take(n).push(b.vertices[n]));
        assert(a.edges.take(n) =~= a.edges.take(n - 1).push(a.edges[n - 1]));
        assert(b.edges.take(n) =~= b.edges.take(n - 1).push(b.edges[n - 1]));
    }
}

/// From a pivot along a link there is at most one route.
pub proof fn routes_are_unique(
    edges: Seq<EdgeView>,
    pivots: Seq<VertexId>,
    start: VertexId,
    link: (VertexId, EdgeId),
    a: RouteView,
    b: RouteView,
)
    requires
        is_route(edges, pivots, start, link, a),
        is_route(edges, pivots, start, link, b),
    ensures
        a == b,
{
    assert(a.vertices.take(2) =~= b.vertices.take(2));
    assert(a.edges.take(1) =~= b.edges.take(1));
    let n = if a.edges.len() <= b.edges.len() {
        a.edges.len() as int
    } else {
        b.edges.len() as int
    };
    lemma_routes_agree(edges, a, b, 1, n);
    if a.edges.len() < b.edges.len() {
        assert(a.vertices.take(n + 1) =~= a.vertices);
        assert(b.vertices[n] == a.vertices.last()) by {
            assert(b.vertices.take(n + 1)[n] == b.vertices[n]);
        }
        assert(next_on(edges, b.vertices.take(n + 1)) == Some((b.vertices[n + 1], b.edges[n])));
        assert(false);
    } else if b.edges.len() < a.edges.len() {
        assert(b.vertices.take(n + 1) =~= b.vertices);
        assert(a.vertices[n] == b.vertices.last()) by {
            assert(a.vertices.take(n + 1)[n] == a.vertices[n]);
        }
        assert(next_on(edges, a.vertices.take(n + 1)) == Some((a.vertices[n + 1], a.edges[n])));
        assert(false);
    } else {
        assert(a.vertices.take(n + 1) =~= a.vertices);
        assert(b.vertices.take(n + 1) =~= b.vertices);
        assert(a.edges.take(n) =~= a.edges);
        assert(b.edges.take(n) =~= b.edges);
        assert(a =~= b);
    }
}

/// The ids of the vertices.
pub open spec fn vertex_ids(graph: GraphView) -> Seq<VertexId> {
    graph.vertices.map_values(|v: VertexView| v.id)
}

/// Distinct vertices of the graph are no more than it has.
proof fn lemma_no_more_vertices(graph: GraphView, seen: Seq<VertexId>)
    requires
        seen.no_duplicates(),
        forall|i: int| 0 <= i < seen.len() ==> vertex_ids(graph).contains(#[trigger] seen[i]),
    ensures
        seen.len() <= graph.vertices.len(),
{
    let ids = vertex_ids(graph);
    seen.unique_seq_to_set();
    ids.lemma_cardinality_of_set();
    assert(seen.to_set().subset_of(ids.to_set()));
    vstd::set_lib::lemma_len_subset(seen.to_set(), ids.to_set());
}

/// The neighbors of a vertex are vertices of the graph.
proof fn lemma_links_stay(graph: GraphView, v: VertexId, link: (VertexId, EdgeId))
    requires
        graph.wf(),
        links(graph.edges, v).contains(link),
    ensures
        vertex_ids(graph).contains(link.0),
        vertex_ids(graph).contains(v),
{
    links_lead(graph.edges, v, link.0, link.1);
    let k = choose|k: int|
        0 <= k < graph.edges.len() && graph.edges[k].id == link.1 && between(
            #[trigger] graph.edges[k],
            v,
            link.0,
        );
    let e = graph.edges[k];
    let i = graph.vertex_at(e.src)->0;
    let j = graph.vertex_at(e.dst)->0;
    assert(0 <= i < graph.vertices.len() && graph.vertices[i].id == e.src);
    assert(0 <= j < graph.vertices.len() && graph.vertices[j].id == e.dst);
    assert(vertex_ids(graph)[i] == e.src);
    assert(vertex_ids(graph)[j] == e.dst);
}

impl QueryGraph {
    /// Goes on from the last vertex to the first unseen neighbor, again and again, until a stop
    /// or until there is none. Without a list of pivots nothing but that ends the walk.
    fn follow(
        &self,
        vertices: &mut Vec<VertexId>,
        edges: &mut Vec<EdgeId>,
        pivots: Option<&Vec<VertexId>>,
    )
        requires
            self@.wf(),
            old(vertices)@.len() == old(edges)@.len() + 1,
            vertex_ids(self@).contains(old(vertices)@.last()),
        ensures
            final(vertices)@.len() == final(edges)@.len() + 1,
            final(vertices)@.len() >= old(vertices)@.len(),
            final(vertices)@.take(old(vertices)@.len() as int) == old(vertices)@,
            final(edges)@.take(old(edges)@.len() as int) == old(edges)@,
            forall|i: int|
                #![trigger final(edges)@[i]]
                old(edges)@.len() <= i < final(edges)@.len() ==> next_on(
                    self@.edges,
                    final(vertices)@.take(i + 1),
                ) == Some((final(vertices)@[i + 1], final(edges)@[i])),
            pivots is Some ==> forall|i: int|
                #![trigger final(vertices)@[i]]
                old(edges)@.len() <= i < final(edges)@.len() ==> !stops_at(
                    self@.edges,
                    pivots->0@,
                    final(vertices)@[i],
                ),
            (pivots is Some && stops_at(self@.edges, pivots->0@, final(vertices)@.last()))
                || next_on(self@.edges, final(vertices)@) is None,
    {
        let ghost graph = self@;
        let ghost begun = vertices@;
        let ghost begun_edges = edges@;
        let ghost base = edges@.len() as int;
        proof {
            let tail = vertices@.skip(base);
            assert(tail =~= seq![vertices@.last()]);
        }
        loop
            invariant
                graph == self@,
                graph.wf(),
                begun == old(vertices)@,
                begun_edges == old(edges)@,
                base == begun_edges.len(),
                begun.len() == base + 1,
                vertices@.len() == edges@.len() + 1,
                edges@.len() >= base,
                vertices@.take(base + 1) == begun,
                edges@.take(base) == begun_edges,
                forall|i: int|
                    #![trigger edges@[i]]
                    base <= i < edges@.len() ==> next_on(graph.edges, vertices@.take(i + 1))
                        == Some((vertices@[i + 1], edges@[i])),
                pivots is Some ==> forall|i: int|
                    #![trigger vertices@[i]]
                    base <= i < edges@.len() ==> !stops_at(
                        graph.edges,
                        pivots->0@,
                        vertices@[i],
                    ),
                vertices@.skip(base).no_duplicates(),
                forall|i: int|
                    base <= i < vertices@.len() ==> vertex_ids(graph).contains(
                        #[trigger] vertices@[i],
                    ),
            ensures
                (pivots is Some && stops_at(graph.edges, pivots->0@, vertices@.last())) || next_on(
                    graph.edges,
                    vertices@,
                ) is None,
            decreases graph.vertices.len() + base + 1 - vertices@.len(),
        {
            let last: VertexId = vertices[vertices.len() - 1];
            if let Some(pivots) = pivots {
                if contains_id(pivots, last) || self.get_degree(last) == 1 {
                    break;
                }
            }
            let ghost seen = vertices@;
            let ghost taken = edges@;
            match self.find_next(vertices) {
                Some((next, id)) => {
                    proof {
                        lemma_first_unseen(links(graph.edges, last), seen);
                        lemma_links_stay(graph, last, (next, id));
                    }
                    vertices.push(next);
                    edges.push(id);
                    proof {
                        assert(vertices@.take(base + 1) =~= seen.take(base + 1));
                        assert(edges@.take(base) =~= taken.take(base));
                        let tail = vertices@.skip(base);
                        assert(tail =~= seen.skip(base).push(next));
                        assert(tail.no_duplicates()) by {
                            assert forall|i: int| 0 <= i < seen.skip(base).len() implies seen.skip(
                                base,
                            )[i] != next by {
                                assert(seen[base + i] == seen.skip(base)[i]);
                            }
                        }
                        assert forall|i: int| 0 <= i < tail.len() implies vertex_ids(
                            graph,
                        ).contains(#[trigger] tail[i]) by {
                            assert(tail[i] == vertices@[base + i]);
                            if base + i < seen.len() {
                                assert(vertices@[base + i] == seen[base + i]);
                            }
                        }
                        lemma_no_more_vertices(graph, tail);
                        assert forall|i: int|
                            #![trigger edges@[i]]
                            base <= i < edges@.len() implies next_on(
                            graph.edges,
                            vertices@.take(i + 1),
                        ) == Some((vertices@[i + 1], edges@[i])) by {
                            if i < taken.len() {
                                assert(edges@[i] == taken[i]);
                                assert(vertices@.take(i + 1) =~= seen.take(i + 1));
                            } else {
                                assert(vertices@.take(i + 1) =~= seen);
                            }
                        }
                        if pivots is Some {
                            assert forall|i: int|
                                #![trigger vertices@[i]]
                                base <= i < edges@.len() implies !stops_at(
                                graph.edges,
                                pivots->0@,
                                vertices@[i],
                            ) by {
                                assert(vertices@[i] == seen[i]);
                            }
                        }
                    }
                },
                None => {
                    break;
                },
            }
        }
    }

    /// The route from a pivot along a link.
    pub fn traverse_path(
        &self,
        start_pivot: VertexId,
        current: VertexId,
        first_edge_id: EdgeId,
        pivot_nodes: &Vec<VertexId>,
    ) -> (result: Path)
        requires
            self@.wf(),
            self@.vertex(current) is Some,
        ensures
            result.wf(),
            is_route(
                self@.edges,
                pivot_nodes@,
                start_pivot,
                (current, first_edge_id),
                result@,
            ),
    {
        let mut vertices: Vec<VertexId> = Vec::new();
        vertices.push(start_pivot);
        vertices.push(current);
        let mut edges: Vec<EdgeId> = Vec::new();
        edges.push(first_edge_id);
        let ghost begun = vertices@;
        let ghost begun_edges = edges@;
        proof {
            let i = self@.vertex_at(current)->0;
            assert(0 <= i < self@.vertices.len() && self@.vertices[i].id == current);
            assert(vertex_ids(self@)[i] == current);
        }
        self.follow(&mut vertices, &mut edges, Some(pivot_nodes));
        proof {
            assert(vertices@.take(2)[0] == begun[0]);
            assert(vertices@.take(2)[1] == begun[1]);
            assert(edges@.take(1)[0] == begun_edges[0]);
        }
        let end: VertexId = vertices[vertices.len() - 1];
        Path { start: start_pivot, end, vertices, edges }
    }
}

/// The route from a pivot along a link.
pub open spec fn route_along(
    edges: Seq<EdgeView>,
    pivots: Seq<VertexId>,
    start: VertexId,
    link: (VertexId, EdgeId),
) -> RouteView {
    choose|route: RouteView| is_route(edges, pivots, start, link, route)
}

/// The first of the links that lead to a vertex.
pub open spec fn first_to(by: Seq<(VertexId, EdgeId)>, v: VertexId) -> (VertexId, EdgeId)
    decreases by.len(),
{
    if by.len() == 0 || by.first().0 == v {
        by.first()
    } else {
        first_to(by.drop_first(), v)
    }
}

/// The routes from a pivot to each of its neighbors, along the first link to that neighbor.
pub open spec fn routes_from(
    edges: Seq<EdgeView>,
    pivots: Seq<VertexId>,
    start: VertexId,
) -> Seq<RouteView> {
    Seq::new(
        degree(edges, start),
        |i: int|
            route_along(
                edges,
                pivots,
                start,
                first_to(links(edges, start), links(edges, start)[i].0),
            ),
    )
}

/// The routes from the first `n` pivots.
pub open spec fn routes_from_first(
    edges: Seq<EdgeView>,
    pivots: Seq<VertexId>,
    n: int,
) -> Seq<RouteView>
    decreases n,
{
    if n <= 0 {
        Seq::empty()
    } else {
        routes_from_first(edges, pivots, n - 1) + routes_from(edges, pivots, pivots[n - 1])
    }
}

/// Whether two routes use the same edges, in the same or in the opposite order.
pub open spec fn same_edges(a: RouteView, b: RouteView) -> bool {
    a.edges == b.edges || a.edges == b.edges.reverse()
}

/// Whether a route has the edges of one of the others.
pub open spec fn repeats(routes: Seq<RouteView>, route: RouteView) -> bool {
    exists|i: int| 0 <= i < routes.len() && same_edges(#[trigger] routes[i], route)
}

/// The routes without those that have the edges of an earlier one.
pub open spec fn without_repeats(routes: Seq<RouteView>) -> Seq<RouteView>
    decreases routes.len(),
{
    if routes.len() == 0 {
        routes
    } else {
        let before = without_repeats(routes.drop_last());
        if repeats(before, routes.last()) {
            before
        } else {
            before.push(routes.last())
        }
    }
}

/// What the paths of a list go through.
pub open spec fn route_views(paths: Seq<Path>) -> Seq<RouteView> {
    paths.map_values(|p: Path| p@)
}

fn same_ids_backwards(a: &Vec<u64>, b: &Vec<u64>) -> (result: bool)
    ensures
        result == (a@ == b@.reverse()),
{
    if a.len() != b.len() {
        assert(a@.len() != b@.reverse().len());
        return false;
    }
    let mut i: usize = 0;
    while i < a.len()
        invariant
            a@.len() == b@.len(),
            i <= a@.len(),
            forall|j: int| 0 <= j < i ==> a@[j] == b@.reverse()[j],
        decreases a.len() - i,
    {
        assert(b@.reverse()[i as int] == b@[b@.len() - 1 - i]);
        if a[i] != b[b.len() - 1 - i] {
            return false;
        }
        i = i + 1;
    }
    assert(a@ =~= b@.reverse());
    true
}

/// Adds a path, unless one of those listed has its edges.
fn add_path(paths: &mut Vec<Path>, path: Path)
    requires
        path.wf(),
        forall|i: int| 0 <= i < old(paths)@.len() ==> (#[trigger] old(paths)@[i]).wf(),
    ensures
        forall|i: int| 0 <= i < final(paths)@.len() ==> (#[trigger] final(paths)@[i]).wf(),
        route_views(final(paths)@) == (if repeats(route_views(old(paths)@), path@) {
            route_views(old(paths)@)
        } else {
            route_views(old(paths)@).push(path@)
        }),
{
    let ghost routes = route_views(paths@);
    let mut i: usize = 0;
    while i < paths.len()
        invariant
            paths@ == old(paths)@,
            forall|j: int| 0 <= j < old(paths)@.len() ==> (#[trigger] old(paths)@[j]).wf(),
            routes == route_views(paths@),
            i <= paths@.len(),
            forall|j: int| 0 <= j < i ==> !same_edges(#[trigger] routes[j], path@),
        decreases paths.len() - i,
    {
        assert(routes[i as int] == paths@[i as int]@);
        if same_ids(&paths[i].edges, &path.edges) || same_ids_backwards(
            &paths[i].edges,
            &path.edges,
        ) {
            assert(same_edges(routes[i as int], path@));
            return;
        }
        assert(!same_edges(routes[i as int], path@));
        i = i + 1;
    }
    assert(!repeats(routes, path@));
    paths.push(path);
    assert(route_views(paths@) =~= routes.push(path@));
}

fn link_to(by: &Vec<(VertexId, EdgeId)>, v: VertexId) -> (result: (VertexId, EdgeId))
    requires
        exists|i: int| 0 <= i < by@.len() && (#[trigger] by@[i]).0 == v,
    ensures
        result == first_to(by@, v),
        by@.contains(result),
        result.0 == v,
{
    let mut i: usize = 0;
    assert(by@.skip(0) =~= by@);
    while by[i].0 != v
        invariant
            i < by@.len(),
            forall|j: int| 0 <= j < i ==> (#[trigger] by@[j]).0 != v,
            first_to(by@, v) == first_to(by@.skip(i as int), v),
            exists|j: int| 0 <= j < by@.len() && (#[trigger] by@[j]).0 == v,
        decreases by.len() - i,
    {
        assert(by@.skip(i as int).first() == by@[i as int]);
        assert(by@.skip(i as int).drop_first() =~= by@.skip(i + 1));
        assert(i + 1 < by@.len()) by {
            let j = choose|j: int| 0 <= j < by@.len() && (#[trigger] by@[j]).0 == v;
            assert(j > i);
        }
        i = i + 1;
    }
    assert(by@.skip(i as int).first() == by@[i as int]);
    by[i]
}

impl QueryGraph {
    /// The routes from the pivots, without repeats of the same edges. Where there is no pivot,
    /// the one path that `build_path_from_entire_graph` finds.
    pub fn find_paths_from_pivots(&self, pivot_nodes: &Vec<VertexId>) -> (result: Vec<Path>)
        requires
            self@.wf(),
        ensures
            forall|i: int| 0 <= i < result@.len() ==> (#[trigger] result@[i]).wf(),
            pivot_nodes@.len() > 0 ==> route_views(result@) == without_repeats(
                routes_from_first(self@.edges, pivot_nodes@, pivot_nodes@.len() as int),
            ),
            pivot_nodes@.len() == 0 ==> is_walk_through(self@, route_views(result@)),
    {
        if pivot_nodes.len() == 0 {
            return self.build_path_from_entire_graph();
        }
        let ghost edges = self@.edges;
        let ghost pivots = pivot_nodes@;
        let mut paths: Vec<Path> = Vec::new();
        let ghost mut all: Seq<RouteView> = Seq::empty();
        assert(route_views(paths@) =~= without_repeats(all));
        let mut i: usize = 0;
        while i < pivot_nodes.len()
            invariant
                self@.wf(),
                edges == self@.edges,
                pivots == pivot_nodes@,
                i <= pivots.len(),
                all == routes_from_first(edges, pivots, i as int),
                route_views(paths@) == without_repeats(all),
                forall|j: int| 0 <= j < paths@.len() ==> (#[trigger] paths@[j]).wf(),
            decreases pivot_nodes.len() - i,
        {
            let pivot: VertexId = pivot_nodes[i];
            let by: Vec<(VertexId, EdgeId)> = self.get_neighbor_edge_pairs(pivot);
            let ghost begun = all;
            let ghost further = routes_from(edges, pivots, pivot);
            let mut j: usize = 0;
            assert(all =~= begun + further.take(0));
            while j < by.len()
                invariant
                    self@.wf(),
                    edges == self@.edges,
                    pivots == pivot_nodes@,
                    by@ == links(edges, pivot),
                    further == routes_from(edges, pivots, pivot),
                    j <= by@.len(),
                    all == begun + further.take(j as int),
                    route_views(paths@) == without_repeats(all),
                    forall|m: int| 0 <= m < paths@.len() ==> (#[trigger] paths@[m]).wf(),
                decreases by.len() - j,
            {
                let link: (VertexId, EdgeId) = link_to(&by, by[j].0);
                proof {
                    lemma_links_stay(self@, pivot, link);
                    let ids = vertex_ids(self@);
                    let m = choose|m: int| 0 <= m < ids.len() && ids[m] == link.0;
                    assert(self@.vertices[m].id == link.0);
                }
                let path: Path = self.traverse_path(pivot, link.0, link.1, pivot_nodes);
                proof {
                    let route = route_along(edges, pivots, pivot, link);
                    routes_are_unique(edges, pivots, pivot, link, path@, route);
                    assert(further[j as int] == path@);
                    assert(further.take(j + 1) =~= further.take(j as int).push(path@));
                    let more = all.push(path@);
                    assert(more =~= begun + further.take(j + 1));
                    assert(more.drop_last() =~= all);
                    all = more;
                }
                add_path(&mut paths, path);
                j = j + 1;
            }
            assert(further.take(j as int) =~= further);
            i = i + 1;
        }
        paths
    }
}

/// Whether a vertex is where the walk through a graph without pivots starts: the least one with
/// a single edge, or the least one where none has a single edge.
pub open spec fn is_outset(graph: GraphView, v: VertexId) -> bool {
    &&& graph.vertex(v) is Some
    &&& if exists|i: int|
        0 <= i < graph.vertices.len() && degree(
            graph.edges,
            (#[trigger] graph.vertices[i]).id,
        ) == 1 {
        &&& degree(graph.edges, v) == 1
        &&& forall|i: int|
            #![trigger graph.vertices[i]]
            0 <= i < graph.vertices.len() && degree(graph.edges, graph.vertices[i].id) == 1 ==> v
                <= graph.vertices[i].id
    } else {
        forall|i: int|
            #![trigger graph.vertices[i]]
            0 <= i < graph.vertices.len() ==> v <= graph.vertices[i].id
    }
}

/// Whether a list holds the one walk through a graph without pivots, and nothing where the
/// graph is empty.
pub open spec fn is_walk_through(graph: GraphView, found: Seq<RouteView>) -> bool {
    if graph.vertices.len() == 0 {
        found.len() == 0
    } else {
        &&& found.len() == 1
        &&& goes_by_first(graph.edges, found[0], 0)
        &&& is_outset(graph, found[0].vertices[0])
        &&& next_on(graph.edges, found[0].vertices) is None
    }
}

/// There is one walk through a graph without pivots.
pub proof fn walks_are_unique(graph: GraphView, a: Seq<RouteView>, b: Seq<RouteView>)
    requires
        is_walk_through(graph, a),
        is_walk_through(graph, b),
    ensures
        a == b,
{
    if graph.vertices.len() > 0 {
        let x = a[0];
        let y = b[0];
        let i = graph.vertex_at(x.vertices[0])->0;
        let j = graph.vertex_at(y.vertices[0])->0;
        assert(graph.vertices[i].id == x.vertices[0]);
        assert(graph.vertices[j].id == y.vertices[0]);
        assert(x.vertices.take(1) =~= y.vertices.take(1));
        assert(x.edges.take(0) =~= y.edges.take(0));
        let n = if x.edges.len() <= y.edges.len() {
            x.edges.len() as int
        } else {
            y.edges.len() as int
        };
        lemma_routes_agree(graph.edges, x, y, 0, n);
        if x.edges.len() < y.edges.len() {
            assert(x.vertices.take(n + 1) =~= x.vertices);
            assert(next_on(graph.edges, y.vertices.take(n + 1)) == Some(
                (y.vertices[n + 1], y.edges[n]),
            ));
            assert(false);
        } else if y.edges.len() < x.edges.len() {
            assert(y.vertices.take(n + 1) =~= y.vertices);
            assert(next_on(graph.edges, x.vertices.take(n + 1)) == Some(
                (x.vertices[n + 1], x.edges[n]),
            ));
            assert(false);
        } else {
            assert(x.vertices.take(n + 1) =~= x.vertices);
            assert(y.vertices.take(n + 1) =~= y.vertices);
            assert(x.edges.take(n) =~= x.edges);
            assert(y.edges.take(n) =~= y.edges);
            assert(x =~= y);
        }
    }
    assert(a =~= b);
}

impl QueryGraph {
    fn find_outset(&self) -> (result: VertexId)
        requires
            self@.wf(),
            self@.vertices.len() > 0,
        ensures
            is_outset(self@, result),
    {
        let ghost graph = self@;
        let mut leaf: Option<VertexId> = None;
        let mut least: VertexId = self.vertices[0].id;
        let mut i: usize = 0;
        assert(graph.vertices[0].id == least);
        while i < self.vertices.len()
            invariant
                graph == self@,
                i <= graph.vertices.len(),
                exists|j: int|
                    0 <= j < graph.vertices.len() && (#[trigger] graph.vertices[j]).id == least,
                forall|j: int|
                    #![trigger graph.vertices[j]]
                    0 <= j < i ==> least <= graph.vertices[j].id,
                match leaf {
                    Some(v) => {
                        &&& exists|j: int|
                            0 <= j < i && (#[trigger] graph.vertices[j]).id == v
                        &&& degree(graph.edges, v) == 1
                        &&& forall|j: int|
                            #![trigger graph.vertices[j]]
                            0 <= j < i && degree(graph.edges, graph.vertices[j].id) == 1 ==> v
                                <= graph.vertices[j].id
                    },
                    None => forall|j: int|
                        #![trigger graph.vertices[j]]
                        0 <= j < i ==> degree(graph.edges, graph.vertices[j].id) != 1,
                },
            decreases self.vertices.len() - i,
        {
            let id: VertexId = self.vertices[i].id;
            assert(graph.vertices[i as int].id == id);
            if id < least {
                least = id;
            }
            if self.get_degree(id) == 1 {
                let lower: bool = match leaf {
                    Some(v) => id < v,
                    None => true,
                };
                if lower {
                    leaf = Some(id);
                }
            }
            i = i + 1;
        }
        match leaf {
            Some(v) => v,
            None => least,
        }
    }

    /// The walk through the whole graph from its outset, always on to the first neighbor that
    /// was not yet seen; no path where the graph has no vertex.
    pub fn build_path_from_entire_graph(&self) -> (result: Vec<Path>)
        requires
            self@.wf(),
        ensures
            forall|i: int| 0 <= i < result@.len() ==> (#[trigger] result@[i]).wf(),
            is_walk_through(self@, route_views(result@)),
    {
        let mut result: Vec<Path> = Vec::new();
        if self.vertices.len() == 0 {
            return result;
        }
        let start: VertexId = self.find_outset();
        let mut vertices: Vec<VertexId> = Vec::new();
        vertices.push(start);
        let mut edges: Vec<EdgeId> = Vec::new();
        let ghost begun = vertices@;
        proof {
            let i = self@.vertex_at(start)->0;
            assert(0 <= i < self@.vertices.len() && self@.vertices[i].id == start);
            assert(vertex_ids(self@)[i] == start);
        }
        self.follow(&mut vertices, &mut edges, None);
        assert(vertices@.take(1)[0] == begun[0]);
        let end: VertexId = vertices[vertices.len() - 1];
        result.push(Path { start, end, vertices, edges });
        result
    }
}

} // verus!
